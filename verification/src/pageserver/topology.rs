//! What restoring a catalog keeps: it is idempotent, and a topology survives a
//! snapshot and a restore.

use vstd::multiset::Multiset;
use vstd::prelude::*;

use crate::common::ids::{
    id_text, lemma_tenant_id_of, lemma_timeline_id_of, tenant_id_named, timeline_id_named, TenantId,
    TimelineId,
};
use crate::common::lsn::Lsn;
use crate::pageserver::catalog::{
    is_snapshot, lemma_lists_tenant, lemma_record_source, lemma_source, lists_one, lists_tenant,
    lists_timelines, record_ids, record_of, restored_catalog, restored_one, restored_pass,
    restored_record, restored_tenant, tenant_record_ids, CatalogV, TenantRecordV, TimelineRecordV,
};
use crate::pageserver::tenant::{
    branched, created, empty_tenant, lemma_number_of, number_of, TenantV,
};
use crate::pageserver::tenant_manager::{
    empty_manager, lemma_place_at, lemma_place_of, place_of, provisioned,
    provisioning_is_idempotent, tenants_are_isolated, with_tenant, ManagerV,
};
use crate::pageserver::timeline::{rooted, TimelineV};
use crate::text::{ascending, less, less_is_total};

verus! {

/// `b` has all timelines of `a`, and perhaps more behind them.
pub open spec fn extends(a: TenantV, b: TenantV) -> bool {
    &&& a.freeze_threshold == b.freeze_threshold
    &&& a.timelines.len() <= b.timelines.len()
    &&& b.timelines.take(a.timelines.len() as int) == a.timelines
}

proof fn lemma_extends_transitive(a: TenantV, b: TenantV, c: TenantV)
    requires
        extends(a, b),
        extends(b, c),
    ensures
        extends(a, c),
{
    assert(c.timelines.take(a.timelines.len() as int) =~= b.timelines.take(
        a.timelines.len() as int,
    ));
}

/// A timeline keeps its number when others come behind it.
proof fn lemma_number_kept(a: TenantV, b: TenantV, id: TimelineId)
    requires
        extends(a, b),
        number_of(a.timelines, id) >= 0,
    ensures
        number_of(b.timelines, id) == number_of(a.timelines, id),
{
    lemma_number_of(a.timelines, id);
    lemma_number_of(b.timelines, id);
    let n = number_of(a.timelines, id);
    let k = number_of(b.timelines, id);
    assert(b.timelines.take(a.timelines.len() as int)[n] == b.timelines[n]);
    if k < 0 || n < k {
        assert(b.timelines[n].id != id);
    }
    if k < n {
        assert(b.timelines.take(a.timelines.len() as int)[k] == b.timelines[k]);
        assert(a.timelines[k].id != id);
    }
}

/// A record that changes nothing, now or later: it names no timeline, one that
/// exists, or no parent.
spec fn inert(t: TenantV, rec: TimelineRecordV) -> bool {
    match timeline_id_named(rec.id) {
        None => true,
        Some(id) => number_of(t.timelines, id) >= 0 || (rec.ancestor matches Some(text)
            && timeline_id_named(text) is None),
    }
}

proof fn lemma_inert_kept(a: TenantV, b: TenantV, rec: TimelineRecordV)
    requires
        extends(a, b),
        inert(a, rec),
    ensures
        inert(b, rec),
        restored_one(b, rec) == (b, false),
{
    if let Some(id) = timeline_id_named(rec.id) {
        if number_of(a.timelines, id) >= 0 {
            lemma_number_kept(a, b, id);
        }
    }
}

proof fn lemma_restored_one(t: TenantV, rec: TimelineRecordV)
    ensures
        extends(t, restored_one(t, rec).0),
        restored_one(t, rec).1 ==> restored_one(t, rec).0 == t,
        !restored_one(t, rec).1 ==> inert(restored_one(t, rec).0, rec),
{
    let t2 = restored_one(t, rec).0;
    assert(t2.timelines.take(t.timelines.len() as int) =~= t.timelines);
    if let Some(id) = timeline_id_named(rec.id) {
        if t2.timelines.len() > t.timelines.len() {
            lemma_number_of(t2.timelines, id);
            assert(t2.timelines[t.timelines.len() as int].id == id);
        }
    }
}

proof fn lemma_restored_pass(t: TenantV, recs: Seq<TimelineRecordV>)
    ensures
        ({
            let (t1, waiting) = restored_pass(t, recs);
            &&& extends(t, t1)
            &&& waiting.len() <= recs.len()
            &&& forall|i: int|
                0 <= i < recs.len() ==> inert(t1, #[trigger] recs[i]) || waiting.contains(recs[i])
            &&& forall|i: int|
                0 <= i < waiting.len() ==> recs.contains(#[trigger] waiting[i])
            &&& waiting.len() == recs.len() ==> t1 == t && waiting == recs && forall|i: int|
                0 <= i < recs.len() ==> restored_one(t, #[trigger] recs[i]) == (t, true)
        }),
    decreases recs.len(),
{
    let (t1, waiting) = restored_pass(t, recs);
    if recs.len() == 0 {
        assert(t.timelines.take(t.timelines.len() as int) =~= t.timelines);
        assert(waiting =~= recs);
    } else {
        let front = recs.drop_last();
        let last = recs.last();
        let (t0, w0) = restored_pass(t, front);
        lemma_restored_pass(t, front);
        lemma_restored_one(t0, last);
        lemma_extends_transitive(t, t0, t1);
        assert forall|i: int| 0 <= i < recs.len() implies inert(t1, #[trigger] recs[i])
            || waiting.contains(recs[i]) by {
            if i < front.len() {
                assert(front[i] == recs[i]);
                if inert(t0, front[i]) {
                    lemma_inert_kept(t0, t1, front[i]);
                } else {
                    let q = choose|q: int| 0 <= q < w0.len() && w0[q] == front[i];
                    assert(waiting[q] == front[i]);
                }
            } else if restored_one(t0, last).1 {
                assert(waiting[w0.len() as int] == last);
            }
        }
        assert forall|i: int| 0 <= i < waiting.len() implies recs.contains(#[trigger] waiting[i]) by {
            if i < w0.len() {
                assert(front.contains(w0[i]));
                let q = choose|q: int| 0 <= q < front.len() && front[q] == w0[i];
                assert(recs[q] == w0[i]);
            } else {
                assert(recs[recs.len() - 1] == last);
            }
        }
        if waiting.len() == recs.len() {
            assert forall|i: int| 0 <= i < recs.len() implies restored_one(t, #[trigger] recs[i])
                == (t, true) by {
                if i < front.len() {
                    assert(front[i] == recs[i]);
                }
            }
            assert(waiting =~= recs);
        }
    }
}

/// When restoring is done, no record changes anything any more.
proof fn lemma_restored_tenant(t: TenantV, recs: Seq<TimelineRecordV>)
    ensures
        extends(t, restored_tenant(t, recs)),
        forall|i: int|
            0 <= i < recs.len() ==> restored_one(
                restored_tenant(t, recs),
                #[trigger] recs[i],
            ).0 == restored_tenant(t, recs),
    decreases recs.len(),
{
    let (t1, waiting) = restored_pass(t, recs);
    let done = restored_tenant(t, recs);
    lemma_restored_pass(t, recs);
    if waiting.len() == 0 || waiting.len() == recs.len() {
        assert forall|i: int| 0 <= i < recs.len() implies restored_one(done, #[trigger] recs[i]).0
            == done by {
            if waiting.len() == 0 {
                assert(inert(t1, recs[i]));
                assert(t1.timelines.take(t1.timelines.len() as int) =~= t1.timelines);
                lemma_inert_kept(t1, t1, recs[i]);
            }
        }
    } else {
        lemma_restored_tenant(t1, waiting);
        lemma_extends_transitive(t, t1, done);
        assert forall|i: int| 0 <= i < recs.len() implies restored_one(done, #[trigger] recs[i]).0
            == done by {
            if inert(t1, recs[i]) {
                lemma_inert_kept(t1, done, recs[i]);
            } else {
                let q = choose|q: int| 0 <= q < waiting.len() && waiting[q] == recs[i];
                assert(restored_one(done, waiting[q]).0 == done);
            }
        }
    }
}

proof fn lemma_nothing_to_restore(t: TenantV, recs: Seq<TimelineRecordV>)
    requires
        forall|i: int| 0 <= i < recs.len() ==> restored_one(t, #[trigger] recs[i]).0 == t,
    ensures
        restored_pass(t, recs).0 == t,
    decreases recs.len(),
{
    if recs.len() > 0 {
        let front = recs.drop_last();
        assert forall|i: int| 0 <= i < front.len() implies restored_one(t, #[trigger] front[i]).0
            == t by {
            assert(front[i] == recs[i]);
        }
        lemma_nothing_to_restore(t, front);
        assert(recs[recs.len() - 1] == recs.last());
    }
}

proof fn lemma_all_restored(t: TenantV, recs: Seq<TimelineRecordV>)
    requires
        forall|i: int| 0 <= i < recs.len() ==> restored_one(t, #[trigger] recs[i]).0 == t,
    ensures
        restored_tenant(t, recs) == t,
    decreases recs.len(),
{
    lemma_nothing_to_restore(t, recs);
    lemma_restored_pass(t, recs);
    let (t1, waiting) = restored_pass(t, recs);
    if !(waiting.len() == 0 || waiting.len() == recs.len()) {
        assert forall|i: int| 0 <= i < waiting.len() implies restored_one(
            t,
            #[trigger] waiting[i],
        ).0 == t by {
            let q = choose|q: int| 0 <= q < recs.len() && recs[q] == waiting[i];
            assert(restored_one(t, recs[q]).0 == t);
        }
        lemma_all_restored(t, waiting);
    }
}

/// Restoring a tenant's timelines a second time changes nothing.
pub proof fn restoring_a_tenant_is_idempotent(t: TenantV, recs: Seq<TimelineRecordV>)
    ensures
        restored_tenant(restored_tenant(t, recs), recs) == restored_tenant(t, recs),
{
    lemma_restored_tenant(t, recs);
    lemma_all_restored(restored_tenant(t, recs), recs);
}

/// No two records name the same tenant.
pub open spec fn different_tenants(recs: Seq<TenantRecordV>) -> bool {
    forall|i: int, j: int|
        0 <= i < j < recs.len() && tenant_id_named((#[trigger] recs[i]).id) is Some
            ==> tenant_id_named(recs[i].id) != tenant_id_named((#[trigger] recs[j]).id)
}

/// A record that changes nothing.
spec fn calm(m: ManagerV, rec: TenantRecordV) -> bool {
    match tenant_id_named(rec.id) {
        None => true,
        Some(id) => {
            let n = place_of(m.tenants, id);
            n >= 0 && restored_tenant(m.tenants[n].tenant, rec.timelines) == m.tenants[n].tenant
        },
    }
}

proof fn lemma_calm(m: ManagerV, rec: TenantRecordV)
    requires
        calm(m, rec),
    ensures
        restored_record(m, rec) == m,
{
    if let Some(id) = tenant_id_named(rec.id) {
        lemma_place_of(m.tenants, id);
        let n = place_of(m.tenants, id);
        assert(with_tenant(m, n, m.tenants[n].tenant).tenants =~= m.tenants);
    }
}

/// A record's tenant after the record, and the others.
proof fn lemma_restored_record(m: ManagerV, rec: TenantRecordV)
    ensures
        tenant_id_named(rec.id) matches Some(id) ==> {
            let p = provisioned(m, id);
            let n = place_of(p.tenants, id);
            let now = restored_record(m, rec);
            &&& place_of(now.tenants, id) == n
            &&& 0 <= n < now.tenants.len()
            &&& now.tenants[n].tenant == restored_tenant(p.tenants[n].tenant, rec.timelines)
        },
        restored_record(m, rec).freeze_threshold == m.freeze_threshold,
{
    if let Some(id) = tenant_id_named(rec.id) {
        let p = provisioned(m, id);
        provisioning_is_idempotent(m, id);
        lemma_place_of(p.tenants, id);
        let n = place_of(p.tenants, id);
        let now = restored_record(m, rec);
        assert forall|i: int| 0 <= i < n implies (#[trigger] now.tenants[i]).id != id by {
            assert(now.tenants[i] == p.tenants[i]);
        }
        lemma_place_at(now.tenants, id, n);
    }
}

proof fn lemma_calm_kept(m: ManagerV, rec: TenantRecordV, other: TenantRecordV)
    requires
        calm(m, rec),
        tenant_id_named(rec.id) is Some ==> tenant_id_named(rec.id) != tenant_id_named(other.id),
    ensures
        calm(restored_record(m, other), rec),
{
    if let Some(id) = tenant_id_named(rec.id) {
        if let Some(oid) = tenant_id_named(other.id) {
            let p = provisioned(m, oid);
            let n = place_of(p.tenants, oid);
            tenants_are_isolated(
                m,
                oid,
                restored_tenant(p.tenants[n].tenant, other.timelines),
                id,
            );
        }
    }
}

proof fn lemma_all_calm(m: ManagerV, recs: Seq<TenantRecordV>)
    requires
        different_tenants(recs),
    ensures
        forall|i: int| 0 <= i < recs.len() ==> calm(restored_catalog(m, recs), #[trigger] recs[i]),
    decreases recs.len(),
{
    if recs.len() > 0 {
        let front = recs.drop_last();
        let last = recs.last();
        assert forall|i: int, j: int|
            0 <= i < j < front.len() && tenant_id_named((#[trigger] front[i]).id) is Some implies tenant_id_named(
        front[i].id) != tenant_id_named((#[trigger] front[j]).id) by {
            assert(front[i] == recs[i] && front[j] == recs[j]);
        }
        lemma_all_calm(m, front);
        let before = restored_catalog(m, front);
        let now = restored_catalog(m, recs);
        lemma_restored_record(before, last);
        assert forall|i: int| 0 <= i < recs.len() implies calm(now, #[trigger] recs[i]) by {
            if i < front.len() {
                assert(front[i] == recs[i]);
                assert(recs[recs.len() - 1] == last);
                lemma_calm_kept(before, recs[i], last);
            } else if let Some(id) = tenant_id_named(last.id) {
                let p = provisioned(before, id);
                let n = place_of(p.tenants, id);
                restoring_a_tenant_is_idempotent(p.tenants[n].tenant, last.timelines);
            }
        }
    }
}

proof fn lemma_calm_catalog(m: ManagerV, recs: Seq<TenantRecordV>)
    requires
        forall|i: int| 0 <= i < recs.len() ==> calm(m, #[trigger] recs[i]),
    ensures
        restored_catalog(m, recs) == m,
    decreases recs.len(),
{
    if recs.len() > 0 {
        let front = recs.drop_last();
        assert forall|i: int| 0 <= i < front.len() implies calm(m, #[trigger] front[i]) by {
            assert(front[i] == recs[i]);
        }
        lemma_calm_catalog(m, front);
        assert(recs[recs.len() - 1] == recs.last());
        lemma_calm(m, recs.last());
    }
}

/// Restoring a catalog a second time changes nothing, where no tenant is
/// recorded twice.
pub proof fn restoring_is_idempotent(m: ManagerV, recs: Seq<TenantRecordV>)
    requires
        different_tenants(recs),
    ensures
        restored_catalog(restored_catalog(m, recs), recs) == restored_catalog(m, recs),
{
    lemma_all_calm(m, recs);
    lemma_calm_catalog(restored_catalog(m, recs), recs);
}

/// Timeline `i` of one family and timeline `j` of another are the same branch:
/// same id, same parent, same branch point.
pub open spec fn same_branch(a: Seq<TimelineV>, i: int, b: Seq<TimelineV>, j: int) -> bool {
    &&& a[i].id == b[j].id
    &&& match (a[i].ancestor, b[j].ancestor) {
        (None, None) => true,
        (Some(x), Some(y)) => x.lsn == y.lsn && a[x.number].id == b[y.number].id,
        _ => false,
    }
}

/// Every timeline of `a` is in `b` under its id, as the same branch.
pub open spec fn all_branches_in(a: Seq<TimelineV>, b: Seq<TimelineV>) -> bool {
    forall|k: int|
        0 <= k < a.len() ==> {
            let j = number_of(b, (#[trigger] a[k]).id);
            0 <= j < b.len() && same_branch(a, k, b, j)
        }
}

/// No timeline id occurs twice.
pub open spec fn different_timelines(tls: Seq<TimelineV>) -> bool {
    forall|i: int, j: int| 0 <= i < j < tls.len() ==> (#[trigger] tls[i]).id != (#[trigger] tls[j]).id
}

/// Which timeline of `a` the timeline is.
#[verifier::opaque]
spec fn from_family(a: Seq<TimelineV>, b: Seq<TimelineV>, j: int) -> bool {
    exists|k: int| 0 <= k < a.len() && #[trigger] same_branch(a, k, b, j)
}

/// Every timeline is one of `a`, and every ancestor stands before its branch.
spec fn faithful(a: Seq<TimelineV>, b: Seq<TimelineV>) -> bool {
    &&& rooted(b)
    &&& forall|j: int| 0 <= j < b.len() ==> #[trigger] from_family(a, b, j)
}

proof fn lemma_faithful_one(a: Seq<TimelineV>, t: TenantV, k: int)
    requires
        rooted(a),
        0 <= k < a.len(),
        faithful(a, t.timelines),
    ensures
        faithful(a, restored_one(t, record_of(a, k)).0.timelines),
{
    let rec = record_of(a, k);
    let now = restored_one(t, rec).0;
    lemma_restored_one(t, rec);
    lemma_timeline_id_of(a[k].id);
    let n = t.timelines.len() as int;
    let b = now.timelines;
    assert(a[k].ancestor matches Some(x) ==> 0 <= x.number < k);
    if let Some(x) = a[k].ancestor {
        lemma_timeline_id_of(a[x.number].id);
        lemma_number_of(t.timelines, a[x.number].id);
    }
    assert forall|j: int| 0 <= j < b.len() implies #[trigger] from_family(a, b, j) by {
        reveal(from_family);
        if j < n {
            assert(b.take(n)[j] == b[j]);
            assert(from_family(a, t.timelines, j));
            let q = choose|q: int| 0 <= q < a.len() && #[trigger] same_branch(a, q, t.timelines, j);
            if let Some(y) = b[j].ancestor {
                assert(0 <= y.number < j);
                assert(b.take(n)[y.number] == b[y.number]);
            }
            assert(same_branch(a, q, b, j));
        } else {
            assert(b.len() == n + 1);
            if let Some(y) = b[j].ancestor {
                assert(b.take(n)[y.number] == b[y.number]);
            }
            assert(same_branch(a, k, b, j));
        }
    }
    assert forall|j: int| 0 <= j < b.len() implies ((#[trigger] b[j]).ancestor matches Some(y)
        ==> 0 <= y.number < j) by {
        if j < n {
            assert(b.take(n)[j] == b[j]);
            assert(t.timelines[j] == b[j]);
        }
    }
}

proof fn lemma_faithful_pass(a: Seq<TimelineV>, t: TenantV, recs: Seq<TimelineRecordV>)
    requires
        rooted(a),
        faithful(a, t.timelines),
        forall|i: int|
            0 <= i < recs.len() ==> crate::pageserver::catalog::is_record(
                #[trigger] recs[i],
                a,
                a.len() as int,
            ),
    ensures
        faithful(a, restored_pass(t, recs).0.timelines),
    decreases recs.len(),
{
    if recs.len() > 0 {
        let front = recs.drop_last();
        assert forall|i: int| 0 <= i < front.len() implies crate::pageserver::catalog::is_record(
            #[trigger] front[i],
            a,
            a.len() as int,
        ) by {
            assert(front[i] == recs[i]);
        }
        lemma_faithful_pass(a, t, front);
        assert(recs[recs.len() - 1] == recs.last());
        let k = lemma_record_source(recs.last(), a, a.len() as int);
        lemma_faithful_one(a, restored_pass(t, front).0, k);
    }
}

proof fn lemma_faithful_tenant(a: Seq<TimelineV>, t: TenantV, recs: Seq<TimelineRecordV>)
    requires
        rooted(a),
        faithful(a, t.timelines),
        forall|i: int|
            0 <= i < recs.len() ==> crate::pageserver::catalog::is_record(
                #[trigger] recs[i],
                a,
                a.len() as int,
            ),
    ensures
        faithful(a, restored_tenant(t, recs).timelines),
    decreases recs.len(),
{
    lemma_faithful_pass(a, t, recs);
    lemma_restored_pass(t, recs);
    let (t1, waiting) = restored_pass(t, recs);
    if !(waiting.len() == 0 || waiting.len() == recs.len()) {
        assert forall|i: int| 0 <= i < waiting.len() implies crate::pageserver::catalog::is_record(
            #[trigger] waiting[i],
            a,
            a.len() as int,
        ) by {
            let q = choose|q: int| 0 <= q < recs.len() && recs[q] == waiting[i];
            assert(crate::pageserver::catalog::is_record(recs[q], a, a.len() as int));
        }
        lemma_faithful_tenant(a, t1, waiting);
    }
}

/// Where no record changes anything any more, every timeline exists.
proof fn lemma_complete(a: Seq<TimelineV>, t: TenantV, recs: Seq<TimelineRecordV>, k: int)
    requires
        rooted(a),
        0 <= k < a.len(),
        forall|i: int| 0 <= i < a.len() ==> recs.contains(#[trigger] record_of(a, i)),
        forall|i: int| 0 <= i < recs.len() ==> restored_one(t, #[trigger] recs[i]).0 == t,
    ensures
        number_of(t.timelines, a[k].id) >= 0,
    decreases k,
{
    let rec = record_of(a, k);
    assert(recs.contains(rec));
    let i = choose|i: int| 0 <= i < recs.len() && recs[i] == rec;
    assert(restored_one(t, recs[i]).0 == t);
    lemma_timeline_id_of(a[k].id);
    assert(a[k].ancestor matches Some(x) ==> 0 <= x.number < k);
    if let Some(x) = a[k].ancestor {
        lemma_timeline_id_of(a[x.number].id);
        lemma_complete(a, t, recs, x.number);
    }
    if number_of(t.timelines, a[k].id) < 0 {
        assert(restored_one(t, rec).0.timelines.len() == t.timelines.len() + 1);
    }
}

/// The records are those of the timelines, in any order.
pub open spec fn tells_timelines(recs: Seq<TimelineRecordV>, a: Seq<TimelineV>) -> bool {
    &&& forall|k: int| 0 <= k < a.len() ==> recs.contains(#[trigger] record_of(a, k))
    &&& forall|i: int|
        0 <= i < recs.len() ==> crate::pageserver::catalog::is_record(
            #[trigger] recs[i],
            a,
            a.len() as int,
        )
}

/// The timelines of `a` and `b` are the same branches: each under its id, with
/// its parent and its branch point, and no other.
pub open spec fn same_family(a: Seq<TimelineV>, b: Seq<TimelineV>) -> bool {
    &&& all_branches_in(a, b)
    &&& forall|j: int| 0 <= j < b.len() ==> number_of(a, (#[trigger] b[j]).id) >= 0
}

/// A tenant's timelines, written down in any order and restored into an empty
/// tenant, come back: each under its id, with its parent and its branch point,
/// and no other.
pub proof fn restored_timelines_are_the_recorded_ones(
    a: Seq<TimelineV>,
    recs: Seq<TimelineRecordV>,
    freeze_threshold: usize,
)
    requires
        rooted(a),
        different_timelines(a),
        tells_timelines(recs, a),
    ensures
        same_family(a, restored_tenant(empty_tenant(freeze_threshold), recs).timelines),
        rooted(restored_tenant(empty_tenant(freeze_threshold), recs).timelines),
{
    let e = empty_tenant(freeze_threshold);
    let t = restored_tenant(e, recs);
    let b = t.timelines;
    lemma_faithful_tenant(a, e, recs);
    lemma_restored_tenant(e, recs);
    assert forall|k: int| 0 <= k < a.len() implies ({
        let j = number_of(b, (#[trigger] a[k]).id);
        0 <= j < b.len() && same_branch(a, k, b, j)
    }) by {
        lemma_complete(a, t, recs, k);
        lemma_number_of(b, a[k].id);
        let j = number_of(b, a[k].id);
        assert(from_family(a, b, j));
        reveal(from_family);
        let q = choose|q: int| 0 <= q < a.len() && #[trigger] same_branch(a, q, b, j);
        assert(q < k ==> a[q].id != a[k].id);
        assert(k < q ==> a[k].id != a[q].id);
    }
    assert forall|j: int| 0 <= j < b.len() implies number_of(a, (#[trigger] b[j]).id) >= 0 by {
        assert(from_family(a, b, j));
        reveal(from_family);
        let q = choose|q: int| 0 <= q < a.len() && #[trigger] same_branch(a, q, b, j);
        lemma_number_of(a, b[j].id);
    }
}


/// What a record makes of a tenant in an empty manager.
spec fn as_recorded(m: ManagerV, rec: TenantRecordV, freeze_threshold: usize) -> bool {
    match tenant_id_named(rec.id) {
        None => true,
        Some(id) => {
            let n = place_of(m.tenants, id);
            0 <= n < m.tenants.len() && m.tenants[n].tenant == restored_tenant(
                empty_tenant(freeze_threshold),
                rec.timelines,
            )
        },
    }
}

/// A tenant that no record names is not provisioned.
proof fn lemma_unnamed(recs: Seq<TenantRecordV>, freeze_threshold: usize, id: TenantId)
    requires
        forall|i: int| 0 <= i < recs.len() ==> tenant_id_named((#[trigger] recs[i]).id) != Some(id),
    ensures
        place_of(
            restored_catalog(
                empty_manager(freeze_threshold),
                recs,
            ).tenants,
            id,
        ) < 0,
    decreases recs.len(),
{
    let e = empty_manager(freeze_threshold);
    if recs.len() > 0 {
        let front = recs.drop_last();
        assert forall|i: int| 0 <= i < front.len() implies tenant_id_named(
            (#[trigger] front[i]).id,
        ) != Some(id) by {
            assert(front[i] == recs[i]);
        }
        lemma_unnamed(front, freeze_threshold, id);
        let before = restored_catalog(e, front);
        let now = restored_catalog(e, recs);
        assert(tenant_id_named(recs[recs.len() - 1].id) != Some(id));
        lemma_place_of(now.tenants, id);
        lemma_place_of(before.tenants, id);
        if place_of(now.tenants, id) >= 0 {
            let n = place_of(now.tenants, id);
            if let Some(oid) = tenant_id_named(recs.last().id) {
                let p = provisioned(before, oid);
                provisioning_is_idempotent(before, oid);
                lemma_place_of(p.tenants, oid);
                assert(now.tenants[n].id == p.tenants[n].id);
                if n < before.tenants.len() {
                    assert(before.tenants[n].id != id);
                }
            }
        }
    }
}

proof fn lemma_as_recorded(recs: Seq<TenantRecordV>, freeze_threshold: usize)
    requires
        different_tenants(recs),
    ensures
        forall|i: int|
            0 <= i < recs.len() ==> as_recorded(
                restored_catalog(empty_manager(freeze_threshold), recs),
                #[trigger] recs[i],
                freeze_threshold,
            ),
        restored_catalog(
            empty_manager(freeze_threshold),
            recs,
        ).freeze_threshold == freeze_threshold,
    decreases recs.len(),
{
    let e = empty_manager(freeze_threshold);
    if recs.len() > 0 {
        let front = recs.drop_last();
        let last = recs.last();
        assert forall|i: int, j: int|
            0 <= i < j < front.len() && tenant_id_named((#[trigger] front[i]).id) is Some implies tenant_id_named(
        front[i].id) != tenant_id_named((#[trigger] front[j]).id) by {
            assert(front[i] == recs[i] && front[j] == recs[j]);
        }
        lemma_as_recorded(front, freeze_threshold);
        let before = restored_catalog(e, front);
        let now = restored_catalog(e, recs);
        lemma_restored_record(before, last);
        assert(recs[recs.len() - 1] == last);
        assert forall|i: int| 0 <= i < recs.len() implies as_recorded(
            now,
            #[trigger] recs[i],
            freeze_threshold,
        ) by {
            if i < front.len() {
                assert(front[i] == recs[i]);
                if let Some(id) = tenant_id_named(recs[i].id) {
                    if let Some(oid) = tenant_id_named(last.id) {
                        let p = provisioned(before, oid);
                        let n = place_of(p.tenants, oid);
                        lemma_place_of(now.tenants, id);
                        tenants_are_isolated(
                            before,
                            oid,
                            restored_tenant(p.tenants[n].tenant, last.timelines),
                            id,
                        );
                    }
                }
            } else if let Some(id) = tenant_id_named(last.id) {
                assert forall|q: int| 0 <= q < front.len() implies tenant_id_named(
                    (#[trigger] front[q]).id,
                ) != Some(id) by {
                    assert(front[q] == recs[q]);
                }
                lemma_unnamed(front, freeze_threshold, id);
                let p = provisioned(before, id);
                let n = before.tenants.len() as int;
                lemma_place_of(before.tenants, id);
                assert forall|q: int| 0 <= q < n implies (#[trigger] p.tenants[q]).id != id by {
                    assert(p.tenants[q] == before.tenants[q]);
                }
                lemma_place_at(p.tenants, id, n);
            }
        }
    }
}

/// No tenant id occurs twice, no timeline id occurs twice in a tenant, and every
/// ancestor stands before its branch.
pub open spec fn sound_topology(m: ManagerV) -> bool {
    &&& forall|i: int, j: int|
        0 <= i < j < m.tenants.len() ==> (#[trigger] m.tenants[i]).id != (#[trigger] m.tenants[j]).id
    &&& forall|i: int|
        0 <= i < m.tenants.len() ==> rooted((#[trigger] m.tenants[i]).tenant.timelines)
            && different_timelines(m.tenants[i].tenant.timelines)
}

/// The two managers host the same tenants, each with the same branches.
pub open spec fn same_topology(a: ManagerV, b: ManagerV) -> bool {
    &&& forall|k: int|
        0 <= k < a.tenants.len() ==> {
            let n = place_of(b.tenants, (#[trigger] a.tenants[k]).id);
            0 <= n < b.tenants.len() && same_family(
                a.tenants[k].tenant.timelines,
                b.tenants[n].tenant.timelines,
            )
        }
    &&& forall|j: int|
        0 <= j < b.tenants.len() ==> place_of(a.tenants, (#[trigger] b.tenants[j]).id) >= 0
}

/// Two ascending lists of the same texts are the same.
proof fn lemma_ascending_unique(x: Seq<Seq<char>>, y: Seq<Seq<char>>)
    requires
        ascending(x),
        ascending(y),
        forall|i: int| 0 <= i < x.len() ==> y.contains(#[trigger] x[i]),
        forall|i: int| 0 <= i < y.len() ==> x.contains(#[trigger] y[i]),
    ensures
        x == y,
    decreases x.len(),
{
    if x.len() == 0 {
        if y.len() > 0 {
            assert(x.contains(y[0]));
        }
        assert(x =~= y);
    } else {
        let n = x.len() - 1;
        assert(y.contains(x[n]));
        let p = choose|p: int| 0 <= p < y.len() && y[p] == x[n];
        let m = y.len() - 1;
        assert(x.contains(y[m]));
        let q = choose|q: int| 0 <= q < x.len() && x[q] == y[m];
        if p < m {
            assert(less(y[p], y[m]));
            less_is_total(x[n], y[m]);
            if q < n {
                assert(less(x[q], x[n]));
            }
        }
        let a = x.drop_last();
        let b = y.drop_last();
        assert forall|i: int| 0 <= i < a.len() implies b.contains(#[trigger] a[i]) by {
            assert(y.contains(x[i]));
            let r = choose|r: int| 0 <= r < y.len() && y[r] == x[i];
            assert(less(x[i], x[n]));
            less_is_total(x[i], x[n]);
            assert(b[r] == a[i]);
        }
        assert forall|i: int| 0 <= i < b.len() implies a.contains(#[trigger] b[i]) by {
            assert(x.contains(y[i]));
            let r = choose|r: int| 0 <= r < x.len() && x[r] == y[i];
            assert(less(y[i], y[m]));
            less_is_total(y[i], y[m]);
            assert(a[r] == b[i]);
        }
        assert forall|i: int, j: int| 0 <= i < j < a.len() implies less(#[trigger] a[i], #[trigger] a[j]) by {
            assert(a[i] == x[i] && a[j] == x[j]);
        }
        assert forall|i: int, j: int| 0 <= i < j < b.len() implies less(#[trigger] b[i], #[trigger] b[j]) by {
            assert(b[i] == y[i] && b[j] == y[j]);
        }
        lemma_ascending_unique(a, b);
        assert(x =~= a.push(x[n]));
        assert(y =~= b.push(y[m]));
    }
}

/// The number of a timeline of a family without duplicates.
proof fn lemma_number_at(tls: Seq<TimelineV>, k: int)
    requires
        different_timelines(tls),
        0 <= k < tls.len(),
    ensures
        number_of(tls, tls[k].id) == k,
{
    lemma_number_of(tls, tls[k].id);
    let n = number_of(tls, tls[k].id);
    if n < 0 || k < n {
        assert(tls[k].id != tls[k].id);
    } else if n < k {
        assert(tls[n].id != tls[k].id);
    }
}

/// Same branches, same record.
proof fn lemma_same_record(a: Seq<TimelineV>, b: Seq<TimelineV>, k: int, j: int)
    requires
        different_timelines(b),
        all_branches_in(a, b),
        0 <= k < a.len(),
        0 <= j < b.len(),
        a[k].id == b[j].id,
    ensures
        record_of(a, k) == record_of(b, j),
{
    lemma_number_at(b, j);
    assert(same_branch(a, k, b, number_of(b, a[k].id)));
}

/// Families of the same branches are written down alike.
proof fn lemma_same_records(
    a: Seq<TimelineV>,
    b: Seq<TimelineV>,
    r: Seq<TimelineRecordV>,
    q: Seq<TimelineRecordV>,
)
    requires
        different_timelines(a),
        different_timelines(b),
        same_family(a, b),
        lists_timelines(r, a, a.len() as int),
        lists_timelines(q, b, b.len() as int),
    ensures
        r == q,
{
    let x = record_ids(r);
    let y = record_ids(q);
    assert forall|i: int| 0 <= i < x.len() implies y.contains(#[trigger] x[i]) by {
        let k = lemma_record_source(r[i], a, a.len() as int);
        let j = number_of(b, a[k].id);
        lemma_number_of(b, a[k].id);
        assert(same_branch(a, k, b, j));
        assert(q.contains(record_of(b, j)));
        let p = choose|p: int| 0 <= p < q.len() && q[p] == record_of(b, j);
        assert(y[p] == x[i]);
    }
    assert forall|i: int| 0 <= i < y.len() implies x.contains(#[trigger] y[i]) by {
        let j = lemma_record_source(q[i], b, b.len() as int);
        let k = number_of(a, b[j].id);
        lemma_number_of(a, b[j].id);
        assert(r.contains(record_of(a, k)));
        let p = choose|p: int| 0 <= p < r.len() && r[p] == record_of(a, k);
        assert(x[p] == y[i]);
    }
    lemma_ascending_unique(x, y);
    assert forall|i: int| 0 <= i < r.len() implies r[i] == q[i] by {
        assert(x[i] == y[i]);
        let k = lemma_record_source(r[i], a, a.len() as int);
        let j = lemma_record_source(q[i], b, b.len() as int);
        crate::common::ids::id_text_injective(a[k].id@, b[j].id@);
        lemma_timeline_id_of(a[k].id);
        lemma_timeline_id_of(b[j].id);
        lemma_same_record(a, b, k, j);
    }
    assert(x.len() == r.len() && y.len() == q.len());
    assert(r =~= q);
}

proof fn lemma_hosted_at(m: ManagerV, k: int)
    requires
        sound_topology(m),
        0 <= k < m.tenants.len(),
    ensures
        place_of(m.tenants, m.tenants[k].id) == k,
{
    assert forall|i: int| 0 <= i < k implies (#[trigger] m.tenants[i]).id != m.tenants[k].id by {}
    lemma_place_at(m.tenants, m.tenants[k].id, k);
}

/// A snapshot is canonical: managers of the same topology are written down alike,
/// in whatever order their tenants and timelines came.
pub proof fn same_topologies_have_the_same_snapshot(
    m: ManagerV,
    n: ManagerV,
    c: CatalogV,
    d: CatalogV,
)
    requires
        sound_topology(m),
        sound_topology(n),
        same_topology(m, n),
        is_snapshot(c, m),
        is_snapshot(d, n),
    ensures
        c == d,
{
    let r = c.tenants;
    let q = d.tenants;
    let x = tenant_record_ids(r);
    let y = tenant_record_ids(q);
    assert forall|i: int| 0 <= i < x.len() implies y.contains(#[trigger] x[i]) by {
        let k = lemma_source(r[i], m.tenants, m.tenants.len() as int);
        lemma_lists_tenant(r[i], m.tenants[k]);
        let j = place_of(n.tenants, m.tenants[k].id);
        lemma_place_of(n.tenants, m.tenants[k].id);
        assert(lists_one(q, n.tenants[j]));
        let p = choose|p: int| 0 <= p < q.len() && lists_tenant(#[trigger] q[p], n.tenants[j]);
        lemma_lists_tenant(q[p], n.tenants[j]);
        assert(y[p] == x[i]);
    }
    assert forall|i: int| 0 <= i < y.len() implies x.contains(#[trigger] y[i]) by {
        let j = lemma_source(q[i], n.tenants, n.tenants.len() as int);
        lemma_lists_tenant(q[i], n.tenants[j]);
        let k = place_of(m.tenants, n.tenants[j].id);
        lemma_place_of(m.tenants, n.tenants[j].id);
        assert(lists_one(r, m.tenants[k]));
        let p = choose|p: int| 0 <= p < r.len() && lists_tenant(#[trigger] r[p], m.tenants[k]);
        lemma_lists_tenant(r[p], m.tenants[k]);
        assert(x[p] == y[i]);
    }
    lemma_ascending_unique(x, y);
    assert(x.len() == r.len() && y.len() == q.len());
    assert forall|i: int| 0 <= i < r.len() implies r[i] == q[i] by {
        assert(x[i] == y[i]);
        let k = lemma_source(r[i], m.tenants, m.tenants.len() as int);
        let j = lemma_source(q[i], n.tenants, n.tenants.len() as int);
        lemma_lists_tenant(r[i], m.tenants[k]);
        lemma_lists_tenant(q[i], n.tenants[j]);
        crate::common::ids::id_text_injective(m.tenants[k].id@, n.tenants[j].id@);
        lemma_tenant_id_of(m.tenants[k].id);
        lemma_tenant_id_of(n.tenants[j].id);
        lemma_hosted_at(n, j);
        lemma_same_records(
            m.tenants[k].tenant.timelines,
            n.tenants[j].tenant.timelines,
            r[i].timelines,
            q[i].timelines,
        );
    }
    assert(r =~= q);
}

/// What the records say, whatever their order and that of the timelines in each.
pub open spec fn unordered(recs: Seq<TenantRecordV>) -> Multiset<
    (Seq<char>, Multiset<TimelineRecordV>),
> {
    told(recs).to_multiset()
}

/// Each record's id, and its timelines in no order.
pub open spec fn told(recs: Seq<TenantRecordV>) -> Seq<(Seq<char>, Multiset<TimelineRecordV>)> {
    Seq::new(recs.len(), |i: int| (recs[i].id, recs[i].timelines.to_multiset()))
}

/// What one list of records tells, every list of them in another order tells.
proof fn lemma_reordered(a: Seq<TenantRecordV>, b: Seq<TenantRecordV>, i: int) -> (j: int)
    requires
        unordered(a) == unordered(b),
        0 <= i < a.len(),
    ensures
        0 <= j < b.len(),
        b[j].id == a[i].id,
        b[j].timelines.to_multiset() == a[i].timelines.to_multiset(),
{
    broadcast use vstd::seq_lib::group_to_multiset_ensures;

    let x = told(a)[i];
    assert(told(a).contains(x));
    assert(told(a).to_multiset().count(x) > 0);
    assert(told(b).contains(x));
    choose|j: int| 0 <= j < told(b).len() && told(b)[j] == x
}

/// The records of different tenants, reordered, are of different tenants.
proof fn lemma_reordered_tenants(m: ManagerV, c: CatalogV, recs: Seq<TenantRecordV>)
    requires
        is_snapshot(c, m),
        unordered(recs) == unordered(c.tenants),
    ensures
        different_tenants(recs),
{
    let r = c.tenants;
    let ids = tenant_record_ids(r);
    assert(told(r).no_duplicates()) by {
        assert forall|i: int, j: int| 0 <= i < r.len() && 0 <= j < r.len() && i != j implies told(
            r,
        )[i] != told(r)[j] by {
            less_is_total(ids[i], ids[j]);
            if i < j {
                assert(less(ids[i], ids[j]));
            } else {
                assert(less(ids[j], ids[i]));
            }
        }
    }
    told(r).lemma_multiset_has_no_duplicates();
    told(recs).lemma_multiset_has_no_duplicates_conv();
    assert forall|i: int, j: int|
        0 <= i < j < recs.len() && tenant_id_named((#[trigger] recs[i]).id) is Some implies tenant_id_named(
    recs[i].id) != tenant_id_named((#[trigger] recs[j]).id) by {
        let p = lemma_reordered(recs, r, i);
        let q = lemma_reordered(recs, r, j);
        let k = lemma_source(r[p], m.tenants, m.tenants.len() as int);
        let l = lemma_source(r[q], m.tenants, m.tenants.len() as int);
        lemma_lists_tenant(r[p], m.tenants[k]);
        lemma_lists_tenant(r[q], m.tenants[l]);
        lemma_tenant_id_of(m.tenants[k].id);
        lemma_tenant_id_of(m.tenants[l].id);
        if tenant_id_named(recs[i].id) == tenant_id_named(recs[j].id) {
            assert(r[p].id == r[q].id);
            less_is_total(ids[p], ids[q]);
            if p < q {
                assert(less(ids[p], ids[q]));
            } else if q < p {
                assert(less(ids[q], ids[p]));
            }
            assert(told(recs)[i] == told(recs)[j]);
        }
    }
}

/// Timelines' records in another order are still their records.
proof fn lemma_reordered_timelines(
    r: Seq<TimelineRecordV>,
    q: Seq<TimelineRecordV>,
    a: Seq<TimelineV>,
)
    requires
        lists_timelines(r, a, a.len() as int),
        q.to_multiset() == r.to_multiset(),
    ensures
        tells_timelines(q, a),
{
    broadcast use vstd::seq_lib::group_to_multiset_ensures;

    assert forall|k: int| 0 <= k < a.len() implies q.contains(#[trigger] record_of(a, k)) by {
        assert(r.contains(record_of(a, k)));
        assert(r.to_multiset().count(record_of(a, k)) > 0);
    }
    assert forall|i: int| 0 <= i < q.len() implies crate::pageserver::catalog::is_record(
        #[trigger] q[i],
        a,
        a.len() as int,
    ) by {
        assert(q.contains(q[i]));
        assert(q.to_multiset().count(q[i]) > 0);
        assert(r.contains(q[i]));
        let p = choose|p: int| 0 <= p < r.len() && r[p] == q[i];
        assert(crate::pageserver::catalog::is_record(r[p], a, a.len() as int));
    }
}

/// Restoring keeps the timelines' ids apart.
proof fn lemma_different_kept(t: TenantV, recs: Seq<TimelineRecordV>)
    requires
        different_timelines(t.timelines),
    ensures
        different_timelines(restored_pass(t, recs).0.timelines),
    decreases recs.len(),
{
    if recs.len() > 0 {
        lemma_different_kept(t, recs.drop_last());
        let t1 = restored_pass(t, recs.drop_last()).0;
        if let Some(id) = timeline_id_named(recs.last().id) {
            lemma_number_of(t1.timelines, id);
        }
    }
}

proof fn lemma_different_restored(t: TenantV, recs: Seq<TimelineRecordV>)
    requires
        different_timelines(t.timelines),
    ensures
        different_timelines(restored_tenant(t, recs).timelines),
    decreases recs.len(),
{
    lemma_different_kept(t, recs);
    lemma_restored_pass(t, recs);
    let (t1, waiting) = restored_pass(t, recs);
    if !(waiting.len() == 0 || waiting.len() == recs.len()) {
        lemma_different_restored(t1, waiting);
    }
}

/// Restoring keeps the tenants' ids apart.
proof fn lemma_tenants_kept_apart(m: ManagerV, recs: Seq<TenantRecordV>)
    requires
        forall|i: int, j: int|
            0 <= i < j < m.tenants.len() ==> (#[trigger] m.tenants[i]).id != (
            #[trigger] m.tenants[j]).id,
    ensures
        ({
            let now = restored_catalog(m, recs);
            forall|i: int, j: int|
                0 <= i < j < now.tenants.len() ==> (#[trigger] now.tenants[i]).id != (
                #[trigger] now.tenants[j]).id
        }),
    decreases recs.len(),
{
    if recs.len() > 0 {
        lemma_tenants_kept_apart(m, recs.drop_last());
        let before = restored_catalog(m, recs.drop_last());
        if let Some(id) = tenant_id_named(recs.last().id) {
            lemma_place_of(before.tenants, id);
            let p = provisioned(before, id);
            provisioning_is_idempotent(before, id);
            lemma_place_of(p.tenants, id);
        }
    }
}

/// A topology survives a restart: a manager's topology, written down and
/// restored into an empty manager from the records in any order, is the same:
/// every tenant, each with exactly its timelines, every branch with its parent
/// and branch point, and no other tenant. It is written down as before, and
/// restoring it once more changes nothing.
pub proof fn topology_survives_a_restart(
    m: ManagerV,
    c: CatalogV,
    recs: Seq<TenantRecordV>,
    freeze_threshold: usize,
)
    requires
        sound_topology(m),
        is_snapshot(c, m),
        unordered(recs) == unordered(c.tenants),
    ensures
        ({
            let now = restored_catalog(
                empty_manager(freeze_threshold),
                recs,
            );
            &&& sound_topology(now)
            &&& same_topology(m, now)
            &&& forall|d: CatalogV| #[trigger] is_snapshot(d, now) ==> d == c
            &&& restored_catalog(now, recs) == now
        }),
{
    let e = empty_manager(freeze_threshold);
    let r = c.tenants;
    let now = restored_catalog(e, recs);
    lemma_reordered_tenants(m, c, recs);
    lemma_as_recorded(recs, freeze_threshold);
    lemma_tenants_kept_apart(e, recs);
    restoring_is_idempotent(e, recs);
    assert forall|k: int| 0 <= k < m.tenants.len() implies ({
        let n = place_of(now.tenants, (#[trigger] m.tenants[k]).id);
        let b = now.tenants[n].tenant.timelines;
        &&& 0 <= n < now.tenants.len()
        &&& same_family(m.tenants[k].tenant.timelines, b)
        &&& rooted(b)
        &&& different_timelines(b)
    }) by {
        let a = m.tenants[k].tenant.timelines;
        assert(lists_one(r, m.tenants[k]));
        let i = choose|i: int| 0 <= i < r.len() && lists_tenant(#[trigger] r[i], m.tenants[k]);
        lemma_lists_tenant(r[i], m.tenants[k]);
        lemma_tenant_id_of(m.tenants[k].id);
        let j = lemma_reordered(r, recs, i);
        assert(as_recorded(now, recs[j], freeze_threshold));
        lemma_reordered_timelines(r[i].timelines, recs[j].timelines, a);
        restored_timelines_are_the_recorded_ones(a, recs[j].timelines, freeze_threshold);
        lemma_different_restored(empty_tenant(freeze_threshold), recs[j].timelines);
    }
    assert forall|j: int| 0 <= j < now.tenants.len() implies place_of(
        m.tenants,
        (#[trigger] now.tenants[j]).id,
    ) >= 0 by {
        let id = now.tenants[j].id;
        lemma_place_of(now.tenants, id);
        if forall|i: int| 0 <= i < recs.len() ==> tenant_id_named((#[trigger] recs[i]).id) != Some(
            id,
        ) {
            lemma_unnamed(recs, freeze_threshold, id);
            assert(false);
        }
        let i = choose|i: int|
            0 <= i < recs.len() && tenant_id_named((#[trigger] recs[i]).id) == Some(id);
        let q = lemma_reordered(recs, r, i);
        let k = lemma_source(r[q], m.tenants, m.tenants.len() as int);
        lemma_lists_tenant(r[q], m.tenants[k]);
        lemma_tenant_id_of(m.tenants[k].id);
        lemma_place_of(m.tenants, id);
        assert(m.tenants[k].id == id);
    }
    assert forall|j: int| 0 <= j < now.tenants.len() implies rooted(
        (#[trigger] now.tenants[j]).tenant.timelines,
    ) && different_timelines(now.tenants[j].tenant.timelines) by {
        let id = now.tenants[j].id;
        let k = place_of(m.tenants, id);
        lemma_place_of(m.tenants, id);
        assert(m.tenants[k].id == id);
        lemma_place_of(now.tenants, id);
        let n = place_of(now.tenants, id);
        if n < j {
            assert(now.tenants[n].id != now.tenants[j].id);
        }
    }
    assert forall|d: CatalogV| #[trigger] is_snapshot(d, now) implies d == c by {
        same_topologies_have_the_same_snapshot(m, now, c, d);
    }
}

/// A recorded branch without a position starts at position 0, one with a position there. A
/// record whose id, or whose parent's, cannot be read adds nothing; nor does one of a
/// timeline that is there.
pub proof fn records_are_taken_at_their_word(
    t: TenantV,
    id: TimelineId,
    parent: TimelineId,
    at: Option<u64>,
    junk: Seq<char>,
)
    requires
        timeline_id_named(junk) is None,
        number_of(t.timelines, id) < 0,
        number_of(t.timelines, parent) >= 0,
    ensures
        restored_one(
            t,
            TimelineRecordV {
                id: id_text(id@),
                ancestor: Some(id_text(parent@)),
                ancestor_lsn: at,
            },
        ).0 == branched(
            t,
            id,
            parent,
            match at {
                Some(l) => Lsn(l),
                None => Lsn(0),
            },
        )->Ok_0,
        restored_one(
            t,
            TimelineRecordV { id: id_text(id@), ancestor: None, ancestor_lsn: at },
        ).0 == created(t, id)->Ok_0,
        restored_one(t, TimelineRecordV { id: junk, ancestor: None, ancestor_lsn: at }).0 == t,
        restored_one(
            t,
            TimelineRecordV { id: id_text(id@), ancestor: Some(junk), ancestor_lsn: at },
        ).0 == t,
        restored_one(
            t,
            TimelineRecordV { id: id_text(parent@), ancestor: None, ancestor_lsn: at },
        ).0 == t,
{
    lemma_timeline_id_of(id);
    lemma_timeline_id_of(parent);
}

} // verus!
