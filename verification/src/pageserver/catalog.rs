//! The durable tenant and timeline *catalog*: the topology.
//!
//! Which tenants exist, which timelines each has, and each branch's ancestry are
//! written down as a [`Catalog`] and rebuilt from it at startup. Restoring goes
//! in the order of ancestry: roots first, then each branch once its parent
//! exists. Only the structure is restored, not the pages.

use vstd::prelude::*;

use crate::common::ids::{
    id_text, lemma_tenant_id_of, lemma_timeline_id_of, tenant_id_named, timeline_id_named, TenantId,
    TimelineId,
};
use crate::common::lsn::Lsn;
use crate::pageserver::tenant::{branched, created, number_of, Tenant, TenantV};
use crate::pageserver::tenant_manager::{
    place_of, provisioned, with_tenant, HostedV, ManagerV, TenantManager,
};
use crate::pageserver::timeline::TimelineV;
use crate::pageserver::walredo::WalRedoManager;
use crate::text::{ascending, ascending_insert, is_less, less, less_is_total, less_is_transitive};

verus! {

/// Object key under which the catalog is stored.
pub const CATALOG_KEY: &'static str = "catalog/topology.json";

/// One timeline's record: its id and, for a branch, its ancestry.
#[derive(Debug, Clone, PartialEq, Eq)]
pub struct TimelineRecord {
    /// Timeline id (32 hex characters).
    pub id: String,
    /// Parent timeline id for a branch.
    pub ancestor: Option<String>,
    /// The position at which the branch diverged from its parent.
    pub ancestor_lsn: Option<u64>,
}

/// One tenant's record: its id and its timelines.
#[derive(Debug, Clone, PartialEq, Eq)]
pub struct TenantRecord {
    /// Tenant id (32 hex characters).
    pub id: String,
    /// The tenant's timelines.
    pub timelines: Vec<TimelineRecord>,
}

/// The whole topology: every tenant and its timelines.
#[derive(Debug, Clone, PartialEq, Eq)]
pub struct Catalog {
    /// Schema version.
    pub version: u32,
    /// Every provisioned tenant.
    pub tenants: Vec<TenantRecord>,
}

impl Default for Catalog {
    /// A catalog of nothing.
    fn default() -> (r: Catalog)
        ensures
            r.version == 0,
            r.tenants@.len() == 0,
    {
        Catalog { version: 0, tenants: Vec::new() }
    }
}

/// What a [`TimelineRecord`] says.
pub struct TimelineRecordV {
    pub id: Seq<char>,
    pub ancestor: Option<Seq<char>>,
    pub ancestor_lsn: Option<u64>,
}

/// What a [`TenantRecord`] says.
pub struct TenantRecordV {
    pub id: Seq<char>,
    pub timelines: Seq<TimelineRecordV>,
}

/// What a [`Catalog`] says.
pub struct CatalogV {
    pub version: u32,
    pub tenants: Seq<TenantRecordV>,
}

impl View for TimelineRecord {
    type V = TimelineRecordV;

    open spec fn view(&self) -> TimelineRecordV {
        TimelineRecordV {
            id: self.id@,
            ancestor: match self.ancestor {
                Some(a) => Some(a@),
                None => None,
            },
            ancestor_lsn: self.ancestor_lsn,
        }
    }
}

/// What each record of a list says.
pub open spec fn records_view(r: Seq<TimelineRecord>) -> Seq<TimelineRecordV> {
    Seq::new(r.len(), |i: int| r[i]@)
}

impl View for TenantRecord {
    type V = TenantRecordV;

    open spec fn view(&self) -> TenantRecordV {
        TenantRecordV { id: self.id@, timelines: records_view(self.timelines@) }
    }
}

/// What each record of a list says.
pub open spec fn tenant_records_view(r: Seq<TenantRecord>) -> Seq<TenantRecordV> {
    Seq::new(r.len(), |i: int| r[i]@)
}

impl View for Catalog {
    type V = CatalogV;

    open spec fn view(&self) -> CatalogV {
        CatalogV { version: self.version, tenants: tenant_records_view(self.tenants@) }
    }
}

// ---------------------------------------------------------------------------
// Taking a snapshot
// ---------------------------------------------------------------------------

/// The record of timeline number `i`.
pub open spec fn record_of(tls: Seq<TimelineV>, i: int) -> TimelineRecordV {
    TimelineRecordV {
        id: id_text(tls[i].id@),
        ancestor: match tls[i].ancestor {
            Some(a) => Some(id_text(tls[a.number].id@)),
            None => None,
        },
        ancestor_lsn: match tls[i].ancestor {
            Some(a) => Some(a.lsn.0),
            None => None,
        },
    }
}

/// The ids of the records.
pub open spec fn record_ids(r: Seq<TimelineRecordV>) -> Seq<Seq<char>> {
    Seq::new(r.len(), |i: int| r[i].id)
}

/// The ids of the records.
pub open spec fn tenant_record_ids(r: Seq<TenantRecordV>) -> Seq<Seq<char>> {
    Seq::new(r.len(), |i: int| r[i].id)
}

/// The record is that of one of the first `n` timelines.
#[verifier::opaque]
pub open spec fn is_record(r: TimelineRecordV, tls: Seq<TimelineV>, n: int) -> bool {
    exists|k: int| 0 <= k < n && r == #[trigger] record_of(tls, k)
}

/// The records of the first `n` timelines, in order of their ids.
pub open spec fn lists_timelines(r: Seq<TimelineRecordV>, tls: Seq<TimelineV>, n: int) -> bool {
    &&& r.len() == n
    &&& ascending(record_ids(r))
    &&& forall|k: int| 0 <= k < n ==> r.contains(#[trigger] record_of(tls, k))
    &&& forall|i: int| 0 <= i < n ==> is_record(#[trigger] r[i], tls, n)
}

/// Which timeline the record is of.
pub proof fn lemma_record_source(r: TimelineRecordV, tls: Seq<TimelineV>, n: int) -> (k: int)
    requires
        is_record(r, tls, n),
    ensures
        0 <= k < n,
        r == record_of(tls, k),
{
    reveal(is_record);
    choose|k: int| 0 <= k < n && r == #[trigger] record_of(tls, k)
}

proof fn lemma_is_record(r: TimelineRecordV, tls: Seq<TimelineV>, n: int, k: int)
    requires
        0 <= k < n,
        r == record_of(tls, k),
    ensures
        is_record(r, tls, n),
{
    reveal(is_record);
}

/// The record of a tenant.
#[verifier::opaque]
pub open spec fn lists_tenant(r: TenantRecordV, t: HostedV) -> bool {
    &&& r.id == id_text(t.id@)
    &&& lists_timelines(r.timelines, t.tenant.timelines, t.tenant.timelines.len() as int)
}

/// One of the records is the tenant's.
pub open spec fn lists_one(r: Seq<TenantRecordV>, t: HostedV) -> bool {
    exists|i: int| 0 <= i < r.len() && lists_tenant(#[trigger] r[i], t)
}

/// The records of the first `n` tenants, in order of their ids.
pub open spec fn lists_tenants(r: Seq<TenantRecordV>, tenants: Seq<HostedV>, n: int) -> bool {
    &&& r.len() == n
    &&& ascending(tenant_record_ids(r))
    &&& forall|k: int| 0 <= k < n ==> lists_one(r, #[trigger] tenants[k])
    &&& forall|i: int| 0 <= i < n ==> comes_from(#[trigger] r[i], tenants, n)
}

/// The record is that of one of the first `n` tenants.
#[verifier::opaque]
pub open spec fn comes_from(r: TenantRecordV, ts: Seq<HostedV>, n: int) -> bool {
    exists|j: int| 0 <= j < n && #[trigger] lists_tenant(r, ts[j])
}

/// `c` is the topology of `m`.
pub open spec fn is_snapshot(c: CatalogV, m: ManagerV) -> bool {
    c.version == 1 && lists_tenants(c.tenants, m.tenants, m.tenants.len() as int)
}

/// Two identifiers of one length write different texts.
proof fn lemma_texts_differ(a: Seq<u8>, b: Seq<u8>)
    requires
        a.len() == 16,
        b.len() == 16,
        a != b,
    ensures
        id_text(a) != id_text(b),
{
    if id_text(a) == id_text(b) {
        crate::common::ids::id_text_injective(a, b);
    }
}

fn snapshot_timeline<R: WalRedoManager>(tenant: &Tenant<R>, i: usize) -> (r: TimelineRecord)
    requires
        tenant.wf(),
        i < tenant@.timelines.len(),
    ensures
        r@ == record_of(tenant@.timelines, i as int),
{
    let t = tenant.timeline_at(i);
    proof {
        tenant.lemma_holds(*t);
    }
    TimelineRecord {
        id: t.id().to_string(),
        ancestor: match t.ancestor_timeline() {
            Some(a) => Some(a.to_string()),
            None => None,
        },
        ancestor_lsn: match t.ancestor_lsn() {
            Some(l) => Some(l.0),
            None => None,
        },
    }
}

/// Putting the record of timeline number `n` in its place.
proof fn lemma_put_timeline(
    before: Seq<TimelineRecordV>,
    x: TimelineRecordV,
    p: int,
    tls: Seq<TimelineV>,
    n: int,
)
    requires
        0 <= n < tls.len(),
        0 <= p <= before.len(),
        lists_timelines(before, tls, n),
        forall|a: int, b: int|
            0 <= a < b < tls.len() ==> (#[trigger] tls[a]).id != (#[trigger] tls[b]).id,
        x == record_of(tls, n),
        p > 0 ==> !less(x.id, before[p - 1].id),
        p < before.len() ==> less(x.id, before[p].id),
    ensures
        lists_timelines(before.insert(p, x), tls, n + 1),
{
    let ids = record_ids(before);
    let now = before.insert(p, x);
    if p > 0 {
        let j = lemma_record_source(before[p - 1], tls, n);
        assert(tls[j].id != tls[n].id);
        lemma_ids_differ(tls[j].id, tls[n].id);
        lemma_texts_differ(tls[j].id@, tls[n].id@);
        less_is_total(x.id, before[p - 1].id);
        assert forall|k: int| 0 <= k < p implies less(#[trigger] ids[k], x.id) by {
            if k < p - 1 {
                assert(less(ids[k], ids[p - 1]));
                less_is_transitive(ids[k], ids[p - 1], x.id);
            }
        }
    }
    ascending_insert(ids, p, x.id);
    assert(record_ids(now) =~= ids.insert(p, x.id));
    assert forall|k: int| 0 <= k < n + 1 implies now.contains(#[trigger] record_of(tls, k)) by {
        if k == n {
            assert(now[p] == x);
        } else {
            assert(before.contains(record_of(tls, k)));
            let q = choose|q: int| 0 <= q < before.len() && before[q] == record_of(tls, k);
            assert(now[if q < p {
                q
            } else {
                q + 1
            }] == record_of(tls, k));
        }
    }
    assert forall|k: int| 0 <= k < now.len() implies is_record(#[trigger] now[k], tls, n + 1) by {
        if k == p {
            lemma_is_record(now[k], tls, n + 1, n);
        } else {
            let q = if k < p {
                k
            } else {
                k - 1
            };
            assert(now[k] == before[q]);
            let j = lemma_record_source(before[q], tls, n);
            lemma_is_record(now[k], tls, n + 1, j);
        }
    }
}

fn snapshot_tenant<R: WalRedoManager>(id: TenantId, tenant: &Tenant<R>) -> (r: TenantRecord)
    requires
        tenant.wf(),
    ensures
        lists_tenant(r@, HostedV { id, tenant: tenant@ }),
{
    let mut out: Vec<TimelineRecord> = Vec::new();
    let n: usize = tenant.timeline_count();
    let ghost tls = tenant@.timelines;
    proof {
        tenant.lemma_family();
    }
    let mut i: usize = 0;
    while i < n
        invariant
            tenant.wf(),
            n == tenant@.timelines.len(),
            tls == tenant@.timelines,
            i <= n,
            lists_timelines(records_view(out@), tls, i as int),
            forall|a: int, b: int|
                0 <= a < b < tls.len() ==> (#[trigger] tls[a]).id != (#[trigger] tls[b]).id,
        decreases n - i,
    {
        let rec = snapshot_timeline(tenant, i);
        let ghost x = rec@;
        let ghost before = records_view(out@);
        let mut p: usize = out.len();
        while p > 0 && is_less(rec.id.as_str(), out[p - 1].id.as_str())
            invariant
                p <= out@.len(),
                before == records_view(out@),
                x == rec@,
                p < out@.len() ==> less(x.id, before[p as int].id),
            decreases p,
        {
            p -= 1;
        }
        assert(p > 0 ==> before[p - 1].id == out@[p - 1].id@);
        proof {
            lemma_put_timeline(before, x, p as int, tls, i as int);
        }
        out.insert(p, rec);
        assert(records_view(out@) =~= before.insert(p as int, x));
        i += 1;
    }
    proof {
        reveal(lists_tenant);
    }
    TenantRecord { id: id.to_string(), timelines: out }
}

/// Different identifiers have different bytes.
proof fn lemma_ids_differ(a: TimelineId, b: TimelineId)
    requires
        a != b,
    ensures
        a@ != b@,
{
    lemma_timeline_id_of(a);
    lemma_timeline_id_of(b);
}

/// A tenant's record carries its id.
pub proof fn lemma_lists_tenant(r: TenantRecordV, t: HostedV)
    requires
        lists_tenant(r, t),
    ensures
        r.id == id_text(t.id@),
        lists_timelines(r.timelines, t.tenant.timelines, t.tenant.timelines.len() as int),
{
    reveal(lists_tenant);
}

/// Which tenant the record is of.
pub proof fn lemma_source(r: TenantRecordV, ts: Seq<HostedV>, n: int) -> (j: int)
    requires
        comes_from(r, ts, n),
    ensures
        0 <= j < n,
        lists_tenant(r, ts[j]),
{
    reveal(comes_from);
    choose|j: int| 0 <= j < n && #[trigger] lists_tenant(r, ts[j])
}

proof fn lemma_comes_from(r: TenantRecordV, ts: Seq<HostedV>, n: int, j: int)
    requires
        0 <= j < n,
        lists_tenant(r, ts[j]),
    ensures
        comes_from(r, ts, n),
{
    reveal(comes_from);
}

/// Putting the record of tenant number `n` in its place.
proof fn lemma_put_tenant(
    before: Seq<TenantRecordV>,
    x: TenantRecordV,
    p: int,
    ts: Seq<HostedV>,
    n: int,
)
    requires
        0 <= n < ts.len(),
        0 <= p <= before.len(),
        lists_tenants(before, ts, n),
        forall|a: int, b: int|
            0 <= a < b < ts.len() ==> (#[trigger] ts[a]).id != (#[trigger] ts[b]).id,
        lists_tenant(x, ts[n]),
        p > 0 ==> !less(x.id, before[p - 1].id),
        p < before.len() ==> less(x.id, before[p].id),
    ensures
        lists_tenants(before.insert(p, x), ts, n + 1),
{
    let ids = tenant_record_ids(before);
    let now = before.insert(p, x);
    if p > 0 {
        let j = lemma_source(before[p - 1], ts, n);
        assert(ts[j].id != ts[n].id);
        lemma_tenant_id_of(ts[j].id);
        lemma_tenant_id_of(ts[n].id);
        lemma_texts_differ(ts[j].id@, ts[n].id@);
        lemma_lists_tenant(x, ts[n]);
        lemma_lists_tenant(before[p - 1], ts[j]);
        less_is_total(x.id, before[p - 1].id);
        assert forall|k: int| 0 <= k < p implies less(#[trigger] ids[k], x.id) by {
            if k < p - 1 {
                assert(less(ids[k], ids[p - 1]));
                less_is_transitive(ids[k], ids[p - 1], x.id);
            }
        }
    }
    ascending_insert(ids, p, x.id);
    assert(tenant_record_ids(now) =~= ids.insert(p, x.id));
    assert forall|k: int| 0 <= k < n + 1 implies lists_one(now, #[trigger] ts[k]) by {
        if k == n {
            assert(now[p] == x);
        } else {
            assert(lists_one(before, ts[k]));
            let q = choose|q: int| 0 <= q < before.len() && lists_tenant(#[trigger] before[q], ts[k]);
            assert(now[if q < p {
                q
            } else {
                q + 1
            }] == before[q]);
        }
    }
    assert forall|k: int| 0 <= k < now.len() implies comes_from(#[trigger] now[k], ts, n + 1) by {
        if k == p {
            lemma_comes_from(now[k], ts, n + 1, n);
        } else {
            let q = if k < p {
                k
            } else {
                k - 1
            };
            assert(now[k] == before[q]);
            let j = lemma_source(before[q], ts, n);
            lemma_comes_from(now[k], ts, n + 1, j);
        }
    }
}

/// Capture the manager's current topology, in order of the ids.
pub fn snapshot<R: WalRedoManager>(manager: &TenantManager<R>) -> (c: Catalog)
    requires
        manager.wf(),
    ensures
        is_snapshot(c@, manager@),
{
    let all = manager.tenants();
    let ghost ts = manager@.tenants;
    proof {
        manager.lemma_ids();
    }
    let mut out: Vec<TenantRecord> = Vec::new();
    let mut i: usize = 0;
    while i < all.len()
        invariant
            all@.len() == ts.len(),
            forall|k: int|
                0 <= k < all@.len() ==> (#[trigger] all@[k]).0 == ts[k].id && all@[k].1@
                    == ts[k].tenant && all@[k].1.wf(),
            i <= all@.len(),
            lists_tenants(tenant_records_view(out@), ts, i as int),
            forall|a: int, b: int|
                0 <= a < b < ts.len() ==> (#[trigger] ts[a]).id != (#[trigger] ts[b]).id,
        decreases all@.len() - i,
    {
        let (id, tenant) = all[i];
        let rec = snapshot_tenant(id, tenant);
        let ghost x = rec@;
        let ghost before = tenant_records_view(out@);
        assert(lists_tenant(x, ts[i as int]));
        let mut p: usize = out.len();
        while p > 0 && is_less(rec.id.as_str(), out[p - 1].id.as_str())
            invariant
                p <= out@.len(),
                before == tenant_records_view(out@),
                x == rec@,
                p < out@.len() ==> less(x.id, before[p as int].id),
            decreases p,
        {
            p -= 1;
        }
        assert(p > 0 ==> before[p - 1].id == out@[p - 1].id@);
        proof {
            lemma_put_tenant(before, x, p as int, ts, i as int);
        }
        out.insert(p, rec);
        assert(tenant_records_view(out@) =~= before.insert(p as int, x));
        i += 1;
    }
    Catalog { version: 1, tenants: out }
}


// ---------------------------------------------------------------------------
// Restoring
// ---------------------------------------------------------------------------

/// The tenant after one record, and whether the record has to wait. A timeline
/// that exists, or a record that names no timeline, changes nothing; a root is
/// created; a branch is created if its parent exists, and waits if not.
pub open spec fn restored_one(t: TenantV, rec: TimelineRecordV) -> (TenantV, bool) {
    match timeline_id_named(rec.id) {
        None => (t, false),
        Some(id) => if number_of(t.timelines, id) >= 0 {
            (t, false)
        } else {
            match rec.ancestor {
                None => (created(t, id)->Ok_0, false),
                Some(text) => match timeline_id_named(text) {
                    None => (t, false),
                    Some(parent) => if number_of(t.timelines, parent) >= 0 {
                        (
                            branched(
                                t,
                                id,
                                parent,
                                Lsn(
                                    match rec.ancestor_lsn {
                                        Some(l) => l,
                                        None => 0,
                                    },
                                ),
                            )->Ok_0,
                            false,
                        )
                    } else {
                        (t, true)
                    },
                },
            }
        },
    }
}

/// The tenant after one pass over the records, and those that have to wait.
pub open spec fn restored_pass(t: TenantV, recs: Seq<TimelineRecordV>) -> (
    TenantV,
    Seq<TimelineRecordV>,
)
    decreases recs.len(),
{
    if recs.len() == 0 {
        (t, Seq::empty())
    } else {
        let (t1, waiting) = restored_pass(t, recs.drop_last());
        let (t2, waits) = restored_one(t1, recs.last());
        (
            t2,
            if waits {
                waiting.push(recs.last())
            } else {
                waiting
            },
        )
    }
}

/// The tenant after pass upon pass, until none waits or a pass changes nothing.
pub open spec fn restored_tenant(t: TenantV, recs: Seq<TimelineRecordV>) -> TenantV
    decreases recs.len(),
    via restored_tenant_decreases
{
    let (t1, waiting) = restored_pass(t, recs);
    if waiting.len() == 0 || waiting.len() == recs.len() {
        t1
    } else {
        restored_tenant(t1, waiting)
    }
}

pub proof fn lemma_waiting(t: TenantV, recs: Seq<TimelineRecordV>)
    ensures
        restored_pass(t, recs).1.len() <= recs.len(),
    decreases recs.len(),
{
    if recs.len() > 0 {
        lemma_waiting(t, recs.drop_last());
    }
}

#[via_fn]
proof fn restored_tenant_decreases(t: TenantV, recs: Seq<TimelineRecordV>) {
    lemma_waiting(t, recs);
}

/// The manager after one tenant's record; a record that names no tenant changes
/// nothing.
pub open spec fn restored_record(m: ManagerV, rec: TenantRecordV) -> ManagerV {
    match tenant_id_named(rec.id) {
        None => m,
        Some(id) => {
            let p = provisioned(m, id);
            let n = place_of(p.tenants, id);
            with_tenant(p, n, restored_tenant(p.tenants[n].tenant, rec.timelines))
        },
    }
}

/// The manager after the records, in order.
pub open spec fn restored_catalog(m: ManagerV, recs: Seq<TenantRecordV>) -> ManagerV
    decreases recs.len(),
{
    if recs.len() == 0 {
        m
    } else {
        restored_record(restored_catalog(m, recs.drop_last()), recs.last())
    }
}

fn restore_timeline<R: WalRedoManager>(tenant: &mut Tenant<R>, rec: &TimelineRecord) -> (waits: bool)
    requires
        old(tenant).wf(),
    ensures
        final(tenant).wf(),
        final(tenant).backend() == old(tenant).backend(),
        restored_one(old(tenant)@, rec@) == (final(tenant)@, waits),
{
    let id = match TimelineId::from_str(rec.id.as_str()) {
        Ok(id) => id,
        Err(_) => return false,
    };
    if tenant.get_timeline(id).is_some() {
        return false;
    }
    match &rec.ancestor {
        None => {
            let made = tenant.create_timeline(id);
            assert(made is Ok);
            false
        },
        Some(text) => {
            let parent = match TimelineId::from_str(text.as_str()) {
                Ok(p) => p,
                Err(_) => return false,
            };
            if tenant.get_timeline(parent).is_some() {
                let lsn: u64 = match rec.ancestor_lsn {
                    Some(l) => l,
                    None => 0,
                };
                let made = tenant.branch_timeline(id, parent, Lsn(lsn));
                assert(made is Ok);
                false
            } else {
                true
            }
        },
    }
}

/// The records at the given numbers.
spec fn at_numbers(recs: Seq<TimelineRecordV>, numbers: Seq<usize>) -> Seq<TimelineRecordV> {
    Seq::new(numbers.len(), |i: int| recs[numbers[i] as int])
}

fn restore_pass<R: WalRedoManager>(
    tenant: &mut Tenant<R>,
    recs: &Vec<TimelineRecord>,
    pending: &Vec<usize>,
) -> (waiting: Vec<usize>)
    requires
        old(tenant).wf(),
        forall|i: int| 0 <= i < pending@.len() ==> (#[trigger] pending@[i]) < recs@.len(),
    ensures
        final(tenant).wf(),
        final(tenant).backend() == old(tenant).backend(),
        forall|i: int| 0 <= i < waiting@.len() ==> (#[trigger] waiting@[i]) < recs@.len(),
        restored_pass(old(tenant)@, at_numbers(records_view(recs@), pending@)) == (
            final(tenant)@,
            at_numbers(records_view(recs@), waiting@),
        ),
{
    let ghost rv = records_view(recs@);
    let ghost all = at_numbers(rv, pending@);
    let mut waiting: Vec<usize> = Vec::new();
    let mut i: usize = 0;
    assert(all.take(0) =~= Seq::empty());
    assert(at_numbers(rv, waiting@) =~= Seq::empty());
    while i < pending.len()
        invariant
            tenant.wf(),
            tenant.backend() == old(tenant).backend(),
            i <= pending@.len(),
            rv == records_view(recs@),
            all == at_numbers(rv, pending@),
            forall|i: int| 0 <= i < pending@.len() ==> (#[trigger] pending@[i]) < recs@.len(),
            forall|i: int| 0 <= i < waiting@.len() ==> (#[trigger] waiting@[i]) < recs@.len(),
            restored_pass(old(tenant)@, all.take(i as int)) == (
                tenant@,
                at_numbers(rv, waiting@),
            ),
        decreases pending@.len() - i,
    {
        let k: usize = pending[i];
        let ghost before = at_numbers(rv, waiting@);
        let waits = restore_timeline(tenant, &recs[k]);
        proof {
            assert(all.take(i + 1).drop_last() =~= all.take(i as int));
            assert(all.take(i + 1).last() == rv[k as int]);
        }
        if waits {
            waiting.push(k);
            assert(at_numbers(rv, waiting@) =~= before.push(rv[k as int]));
        }
        i += 1;
    }
    assert(all.take(i as int) =~= all);
    waiting
}

/// Rebuild a tenant's timelines from their records, roots first, then branches
/// whose parent exists, until no further progress.
fn restore_timelines<R: WalRedoManager>(tenant: &mut Tenant<R>, recs: &Vec<TimelineRecord>)
    requires
        old(tenant).wf(),
    ensures
        final(tenant).wf(),
        final(tenant).backend() == old(tenant).backend(),
        final(tenant)@ == restored_tenant(old(tenant)@, records_view(recs@)),
{
    let ghost rv = records_view(recs@);
    let mut pending: Vec<usize> = Vec::new();
    let mut i: usize = 0;
    while i < recs.len()
        invariant
            i <= recs@.len(),
            pending@.len() == i,
            forall|k: int| 0 <= k < i ==> #[trigger] pending@[k] == k,
        decreases recs@.len() - i,
    {
        pending.push(i);
        i += 1;
    }
    assert(at_numbers(rv, pending@) =~= rv);
    loop
        invariant
            tenant.wf(),
            tenant.backend() == old(tenant).backend(),
            rv == records_view(recs@),
            forall|i: int| 0 <= i < pending@.len() ==> (#[trigger] pending@[i]) < recs@.len(),
            restored_tenant(tenant@, at_numbers(rv, pending@)) == restored_tenant(
                old(tenant)@,
                rv,
            ),
        decreases pending@.len(),
    {
        let ghost t = tenant@;
        let waiting = restore_pass(tenant, recs, &pending);
        proof {
            lemma_waiting(t, at_numbers(rv, pending@));
        }
        if waiting.len() == 0 || waiting.len() == pending.len() {
            return ;
        }
        pending = waiting;
    }
}

/// Rebuild the manager's tenants and timelines from a [`Catalog`]. Timelines
/// that exist already are left as they are.
pub fn restore<R: WalRedoManager>(manager: &mut TenantManager<R>, catalog: &Catalog)
    requires
        old(manager).wf(),
    ensures
        final(manager).wf(),
        final(manager).backend() == old(manager).backend(),
        final(manager)@ == restored_catalog(old(manager)@, catalog@.tenants),
{
    let ghost recs = catalog@.tenants;
    let mut i: usize = 0;
    assert(recs.take(0) =~= Seq::empty());
    while i < catalog.tenants.len()
        invariant
            manager.wf(),
            manager.backend() == old(manager).backend(),
            i <= catalog.tenants@.len(),
            recs == catalog@.tenants,
            manager@ == restored_catalog(old(manager)@, recs.take(i as int)),
        decreases catalog.tenants@.len() - i,
    {
        let rec = &catalog.tenants[i];
        proof {
            assert(recs.take(i + 1).drop_last() =~= recs.take(i as int));
            assert(recs.take(i + 1).last() == rec@);
        }
        if let Ok(id) = TenantId::from_str(rec.id.as_str()) {
            let tenant = manager.get_or_create(id);
            restore_timelines(tenant, &rec.timelines);
        }
        i += 1;
    }
    assert(recs.take(i as int) =~= recs);
}

} // verus!
