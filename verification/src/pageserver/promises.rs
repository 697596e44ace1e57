//! What the page store gives back, in terms of what was written to it: histories,
//! pages, sizes, compaction, collection, and the families of timelines.

use vstd::prelude::*;

use crate::common::ids::{TenantId, TimelineId};
use crate::common::lsn::Lsn;
use crate::common::page::PageKey;
use crate::pageserver::batches::{different_places, lemma_stepped, stepped, writes_of, StepV};
use crate::pageserver::branches::lemma_pins;
use crate::pageserver::control::{layers_replaced, reported_drops, versions_dropped};
use crate::pageserver::layer::LayerId;
use crate::pageserver::lsnmap::{all_positions, column, interleaved, stacked, woven};
use crate::pageserver::page::{ModV, PageErrorV, VersionV};
use crate::pageserver::reads::{
    all_versions, finite_layers, history_depends_on_all_versions, layers_apart,
    lemma_compacted_layers, lemma_nothing_above, memtable_apart, with_mods,
};
use crate::pageserver::repository::{
    base_columns, compacted, compaction_leaves_one_layer, compaction_report, empty_repo,
    filled_layers, history, ingested_one, layer_columns, layer_ids, merged, native_page,
    CompactionStats, RepoV,
};
use crate::pageserver::tenant::{
    branched, collected, collection_report, created, horizon_of, lemma_number_of, lowest_pin,
    TenantError, TenantV,
};
use crate::pageserver::tenant_manager::{
    all_timelines, collection_of_all_report, every_timeline_is_reported_once, ManagerV,
};
use crate::pageserver::walredo::{lemma_last_base, natively, redo_error_text, RedoErrorV};

verus! {

// ---------------------------------------------------------------------------
// Histories
// ---------------------------------------------------------------------------

/// One column, by position.
proof fn lemma_one_column(col: Map<u64, VersionV>, n: nat)
    requires
        n <= all_positions(),
    ensures
        ({
            let s = interleaved(seq![col], n);
            &&& forall|i: int| 0 <= i < s.len() ==> (#[trigger] s[i]).0.0 < n
            &&& forall|i: int, j: int|
                0 <= i < j < s.len() ==> (#[trigger] s[i]).0.0 < (#[trigger] s[j]).0.0
            &&& forall|i: int|
                0 <= i < s.len() ==> col.contains_key((#[trigger] s[i]).0.0) && col[s[i].0.0]
                    == s[i].1
            &&& forall|l: u64|
                l < n && #[trigger] col.contains_key(l) ==> s.contains((Lsn(l), col[l]))
        }),
    decreases n,
{
    if n > 0 {
        let l = (n - 1) as u64;
        lemma_one_column(col, (n - 1) as nat);
        let before = interleaved(seq![col], (n - 1) as nat);
        let s = interleaved(seq![col], n);
        assert(seq![col].drop_last() =~= Seq::empty());
        assert(stacked(seq![col].drop_last(), l) =~= Seq::empty());
        if col.contains_key(l) {
            assert(stacked(seq![col], l) =~= seq![(Lsn(l), col[l])]);
            assert(s =~= before.push((Lsn(l), col[l])));
        } else {
            assert(stacked(seq![col], l) =~= Seq::empty());
            assert(s =~= before);
        }
        assert forall|k: u64| k < n && #[trigger] col.contains_key(k) implies s.contains(
            (Lsn(k), col[k]),
        ) by {
            if k < l {
                assert(before.contains((Lsn(k), col[k])));
                let i = choose|i: int| 0 <= i < before.len() && before[i] == (Lsn(k), col[k]);
                assert(s[i] == before[i]);
            } else {
                assert(s[s.len() - 1] == (Lsn(k), col[k]));
            }
        }
    }
}

/// What the writes to a page leave is its history: however the writes were batched and
/// frozen, the history of a page as of a position holds exactly the versions that were
/// written to it up to the position, each once and in the order of their positions.
pub proof fn history_is_what_was_written(
    threshold: usize,
    steps: Seq<StepV>,
    key: PageKey,
    lsn: Lsn,
)
    requires
        different_places(writes_of(steps)),
    ensures
        ({
            let h = history(stepped(empty_repo(threshold), steps), key, lsn, None);
            let ws = writes_of(steps);
            &&& forall|i: int, j: int|
                0 <= i < j < h.len() ==> (#[trigger] h[i]).0.0 < (#[trigger] h[j]).0.0
            &&& forall|i: int|
                0 <= i < h.len() ==> (#[trigger] h[i]).0.0 <= lsn.0 && exists|k: int|
                    0 <= k < ws.len() && #[trigger] ws[k] == (ModV {
                        key,
                        lsn: h[i].0,
                        version: h[i].1,
                    })
            &&& forall|k: int|
                0 <= k < ws.len() && (#[trigger] ws[k]).key == key && ws[k].lsn.0 <= lsn.0
                    ==> h.contains((ws[k].lsn, ws[k].version))
        }),
{
    let v = stepped(empty_repo(threshold), steps);
    let ws = writes_of(steps);
    lemma_stepped(threshold, steps);
    assert(layers_apart(v.layers, key, lsn) && memtable_apart(v, key, lsn));
    history_depends_on_all_versions(v, key, lsn, None);
    let m = all_versions(v);
    let col = column(m, key, lsn);
    assert(base_columns(None).push(col) =~= seq![col]);
    lemma_one_column(col, all_positions());
    let h = history(v, key, lsn, None);
    assert forall|i: int| 0 <= i < h.len() implies (#[trigger] h[i]).0.0 <= lsn.0 && exists|k: int|
        0 <= k < ws.len() && #[trigger] ws[k] == (ModV { key, lsn: h[i].0, version: h[i].1 }) by {
        assert(col.contains_key(h[i].0.0));
        lemma_filed(ws, (key, h[i].0));
    }
    assert forall|k: int|
        0 <= k < ws.len() && (#[trigger] ws[k]).key == key && ws[k].lsn.0 <= lsn.0 implies h.contains(
        (ws[k].lsn, ws[k].version),
    ) by {
        lemma_filed_all(ws, k);
        assert(col.contains_key(ws[k].lsn.0));
    }
}

/// What is filed was written.
proof fn lemma_filed(ws: Seq<ModV>, k: (PageKey, Lsn))
    requires
        with_mods(Map::empty(), ws).contains_key(k),
    ensures
        exists|i: int|
            0 <= i < ws.len() && #[trigger] ws[i] == (ModV {
                key: k.0,
                lsn: k.1,
                version: with_mods(Map::empty(), ws)[k],
            }),
    decreases ws.len(),
{
    if ws.len() > 0 {
        let m = ws.last();
        if (m.key, m.lsn) == k {
            assert(ws[ws.len() - 1] == m);
        } else {
            lemma_filed(ws.drop_last(), k);
            let i = choose|i: int|
                0 <= i < ws.drop_last().len() && #[trigger] ws.drop_last()[i] == (ModV {
                    key: k.0,
                    lsn: k.1,
                    version: with_mods(Map::empty(), ws.drop_last())[k],
                });
            assert(ws[i] == ws.drop_last()[i]);
        }
    }
}

/// What was written at a place of its own is filed.
proof fn lemma_filed_all(ws: Seq<ModV>, i: int)
    requires
        0 <= i < ws.len(),
        different_places(ws),
    ensures
        with_mods(Map::empty(), ws).contains_key((ws[i].key, ws[i].lsn)),
        with_mods(Map::empty(), ws)[(ws[i].key, ws[i].lsn)] == ws[i].version,
    decreases ws.len(),
{
    let front = ws.drop_last();
    if i < ws.len() - 1 {
        assert(different_places(front)) by {
            assert forall|a: int, b: int| 0 <= a < b < front.len() implies (
            (#[trigger] front[a]).key,
            front[a].lsn,
        ) != ((#[trigger] front[b]).key, front[b].lsn) by {
                assert(ws[a] == front[a] && ws[b] == front[b]);
            }
        }
        assert(front[i] == ws[i]);
        lemma_filed_all(front, i);
        assert(ws[ws.len() - 1] == ws.last());
    }
}

/// A page is unknown exactly where nothing in its history can start it: no image, and no
/// record that re-initializes the page.
pub proof fn pages_are_unknown_without_a_start(s: Seq<(Lsn, VersionV)>)
    ensures
        natively(s) == (Ok::<Option<Seq<u8>>, RedoErrorV>(None)) <==> forall|i: int|
            0 <= i < s.len() ==> match (#[trigger] s[i]).1 {
                VersionV::Image(_) => false,
                VersionV::Delta(_) => true,
                VersionV::WalRecord { will_init, rec } => !will_init,
            },
{
    lemma_last_base(s);
}

// ---------------------------------------------------------------------------
// Compaction and collection
// ---------------------------------------------------------------------------

/// A version can start a page: an image, or a record that re-initializes the page.
pub open spec fn starts_a_page(x: VersionV) -> bool {
    match x {
        VersionV::Image(_) => true,
        VersionV::Delta(_) => false,
        VersionV::WalRecord { will_init, rec } => will_init,
    }
}

/// Compaction keeps a frozen version exactly where no version of the same page behind it,
/// up to the horizon, can start the page; what it keeps is unchanged, and nothing is
/// added. What is not frozen yet stays.
pub proof fn compaction_keeps_what_is_not_restarted(
    v: RepoV,
    horizon: Lsn,
    k: (PageKey, Lsn),
)
    requires
        finite_layers(v.layers),
    ensures
        ({
            let w = compacted(v, horizon);
            let was = merged(v.layers);
            let is = merged(w.layers);
            &&& is.contains_key(k) <==> was.contains_key(k) && !(exists|b: u64|
                k.1.0 < b <= horizon.0 && #[trigger] was.contains_key((k.0, Lsn(b)))
                    && starts_a_page(was[(k.0, Lsn(b))]))
            &&& is.contains_key(k) ==> is[k] == was[k]
            &&& w.memtable == v.memtable
            &&& w.rel_sizes == v.rel_sizes
        }),
{
    if v.layers.len() > 0 {
        lemma_compacted_layers(v, horizon);
    } else {
        assert(merged(v.layers) =~= Map::empty());
    }
}

/// Timeline `i` is collected down to the requested position, or to the lowest of its
/// branch points where one lies below: not less far, and not further.
pub proof fn collection_goes_down_to_the_lowest_branch_point(
    t: TenantV,
    requested: Lsn,
    i: int,
)
    requires
        0 <= i < t.timelines.len(),
    ensures
        ({
            let tls = t.timelines;
            let h = horizon_of(tls, i, requested);
            &&& h.0 <= requested.0
            &&& forall|j: int|
                0 <= j < tls.len() ==> ((#[trigger] tls[j]).ancestor matches Some(a) ==> a.number
                    == i ==> h.0 <= a.lsn.0)
            &&& h == requested || exists|j: int|
                0 <= j < tls.len() && ((#[trigger] tls[j]).ancestor matches Some(a) && a.number == i
                    && a.lsn == h)
            &&& collected(t, requested).timelines.len() == tls.len()
            &&& collected(t, requested).timelines[i].id == tls[i].id
            &&& collected(t, requested).timelines[i].ancestor == tls[i].ancestor
            &&& collected(t, requested).timelines[i].repo == compacted(tls[i].repo, h)
        }),
{
    let tls = t.timelines;
    assert forall|j: int| 0 <= j < tls.len() implies ((
    #[trigger] tls[j]).ancestor matches Some(a) ==> a.number == i ==> horizon_of(
        tls,
        i,
        requested,
    ).0 <= a.lsn.0) by {
        if let Some(a) = tls[j].ancestor {
            if a.number == i {
                lemma_pins(tls, i, tls.len() as int, j);
            }
        }
    }
    lemma_lowest_pin(t, i, tls.len() as int);
}

/// The lowest pin is a branch point, where there is any.
proof fn lemma_lowest_pin(t: TenantV, i: int, n: int)
    requires
        0 <= n <= t.timelines.len(),
    ensures
        lowest_pin(t.timelines, i, n) == u64::MAX || exists|j: int|
            0 <= j < n && ((#[trigger] t.timelines[j]).ancestor matches Some(a) && a.number == i
                && a.lsn.0 == lowest_pin(t.timelines, i, n)),
    decreases n,
{
    if n > 0 {
        lemma_lowest_pin(t, i, n - 1);
        let x = t.timelines[n - 1];
    }
}

// ---------------------------------------------------------------------------
// Families of timelines
// ---------------------------------------------------------------------------

/// A root timeline can be created exactly where none has the id. The tenant then has one
/// timeline more, which is empty and has no ancestor; the others are as they were.
pub proof fn creating_adds_an_empty_root(t: TenantV, id: TimelineId)
    ensures
        match created(t, id) {
            Ok(now) => {
                let n = t.timelines.len() as int;
                &&& forall|i: int| 0 <= i < n ==> (#[trigger] t.timelines[i]).id != id
                &&& now.timelines.len() == n + 1
                &&& forall|i: int| 0 <= i < n ==> now.timelines[i] == #[trigger] t.timelines[i]
                &&& now.timelines[n].id == id
                &&& now.timelines[n].ancestor is None
                &&& now.timelines[n].repo == empty_repo(t.freeze_threshold)
                &&& now.freeze_threshold == t.freeze_threshold
            },
            Err(e) => e == TenantError::AlreadyExists(id) && exists|i: int|
                0 <= i < t.timelines.len() && (#[trigger] t.timelines[i]).id == id,
        },
{
    lemma_number_of(t.timelines, id);
}

/// A branch can be made exactly where no timeline has its id and one has the parent's. The
/// tenant then has one timeline more, which is empty and goes back to the first timeline of
/// the parent's id at the position; the others are as they were.
pub proof fn branching_adds_an_empty_branch(
    t: TenantV,
    id: TimelineId,
    parent: TimelineId,
    lsn: Lsn,
)
    ensures
        ({
            let n = t.timelines.len() as int;
            match branched(t, id, parent, lsn) {
                Ok(now) => {
                    &&& forall|i: int| 0 <= i < n ==> (#[trigger] t.timelines[i]).id != id
                    &&& now.timelines.len() == n + 1
                    &&& forall|i: int| 0 <= i < n ==> now.timelines[i] == #[trigger] t.timelines[i]
                    &&& now.timelines[n].id == id
                    &&& now.timelines[n].repo == empty_repo(t.freeze_threshold)
                    &&& now.timelines[n].ancestor matches Some(a) && a.lsn == lsn && 0 <= a.number
                        < n && t.timelines[a.number].id == parent && (forall|i: int|
                        0 <= i < a.number ==> (#[trigger] t.timelines[i]).id != parent)
                    &&& now.freeze_threshold == t.freeze_threshold
                },
                Err(TenantError::AlreadyExists(x)) => x == id && exists|i: int|
                    0 <= i < n && (#[trigger] t.timelines[i]).id == id,
                Err(TenantError::NoSuchParent(x)) => x == parent && (forall|i: int|
                    0 <= i < n ==> (#[trigger] t.timelines[i]).id != parent && t.timelines[i].id
                        != id),
            }
        }),
{
    lemma_number_of(t.timelines, id);
    lemma_number_of(t.timelines, parent);
}

// ---------------------------------------------------------------------------
// Layers
// ---------------------------------------------------------------------------

/// A write goes into the memtable. Once that holds as many versions as the threshold says,
/// all of them are a new layer behind the others and the memtable is empty; before that
/// the layers stay as they are.
pub proof fn a_full_memtable_becomes_the_last_layer(v: RepoV, m: ModV)
    requires
        v.memtable.dom().finite(),
    ensures
        ({
            let w = ingested_one(v, m);
            let all = v.memtable.insert((m.key, m.lsn), m.version);
            let n = v.layers.len() as int;
            &&& all.dom().len() < v.freeze_threshold ==> w.memtable == all && w.layers == v.layers
                && w.next_layer_id == v.next_layer_id
            &&& all.dom().len() >= v.freeze_threshold ==> {
                &&& w.memtable.dom().len() == 0
                &&& w.layers.len() == n + 1
                &&& w.layers[n].entries == all
                &&& w.layers[n].id == v.next_layer_id
                &&& forall|i: int| 0 <= i < n ==> w.layers[i] == #[trigger] v.layers[i]
            }
            &&& w.uploaded == v.uploaded
            &&& w.freeze_threshold == v.freeze_threshold
        }),
{
    let all = v.memtable.insert((m.key, m.lsn), m.version);
    assert(all.dom() =~= v.memtable.dom().insert((m.key, m.lsn)));
    assert(all.dom().contains((m.key, m.lsn)));
    if all.dom().len() == 0 {
        assert(all.dom() =~= Set::empty());
    }
}

/// What a compaction reports: how many layers there were, the id of each of them, in
/// order, and that one is left where there was any. None of these ids counts as uploaded
/// from then on; every other that did still does.
pub proof fn compactions_name_the_replaced_layers(v: RepoV, horizon: Lsn, s: CompactionStats)
    requires
        filled_layers(v.layers),
        finite_layers(v.layers),
        compaction_report(s, v, horizon),
    ensures
        s.layers_before == v.layers.len(),
        s.layers_after == (if v.layers.len() == 0 {
            0
        } else {
            1int
        }),
        s.removed_layer_ids@.len() == v.layers.len(),
        forall|i: int|
            0 <= i < v.layers.len() ==> s.removed_layer_ids@[i] == (#[trigger] v.layers[i]).id,
        forall|id: LayerId| #[trigger]
            compacted(v, horizon).uploaded.contains(id) <==> v.uploaded.contains(id) && !(exists|
                i: int,
            | 0 <= i < v.layers.len() && (#[trigger] v.layers[i]).id == id),
{
    if v.layers.len() > 0 {
        compaction_leaves_one_layer(v, horizon);
        let ids = layer_ids(v.layers);
        assert forall|id: LayerId| #[trigger] compacted(v, horizon).uploaded.contains(id) implies
            v.uploaded.contains(id) && !(exists|i: int|
                0 <= i < v.layers.len() && (#[trigger] v.layers[i]).id == id) by {
            if exists|i: int| 0 <= i < v.layers.len() && (#[trigger] v.layers[i]).id == id {
                let i = choose|i: int| 0 <= i < v.layers.len() && (#[trigger] v.layers[i]).id == id;
                assert(ids[i] == id);
                assert(ids.to_set().contains(id));
            }
        }
        assert forall|id: LayerId|
            v.uploaded.contains(id) && !(exists|i: int|
                0 <= i < v.layers.len() && (#[trigger] v.layers[i]).id == id) implies #[trigger] compacted(
            v,
            horizon,
        ).uploaded.contains(id) by {
            if ids.to_set().contains(id) {
                let i = choose|i: int| 0 <= i < ids.len() && ids[i] == id;
                assert(v.layers[i].id == id);
            }
        }
    }
}

/// What a collection tells of the tenant is what it reports of the timelines: the versions
/// dropped of all of them together, and the layers replaced of one behind those of the
/// other.
pub proof fn collections_add_the_timelines_up(
    t: TenantV,
    requested: Lsn,
    r: Seq<(TimelineId, CompactionStats)>,
)
    requires
        collection_report(r, t, requested),
    ensures
        reported_drops(t, requested) == r.fold_left(
            0int,
            |sum: int, e: (TimelineId, CompactionStats)| sum + e.1.versions_removed,
        ) % 0x1_0000_0000_0000_0000,
        layers_replaced(t.timelines, t.timelines.len() as int) == r.fold_left(
            Seq::<LayerId>::empty(),
            |all: Seq<LayerId>, e: (TimelineId, CompactionStats)| all + e.1.removed_layer_ids@,
        ),
{
    lemma_added_up(t, requested, r, r.len() as int);
    assert(r.take(r.len() as int) =~= r);
}

proof fn lemma_added_up(
    t: TenantV,
    requested: Lsn,
    r: Seq<(TimelineId, CompactionStats)>,
    n: int,
)
    requires
        collection_report(r, t, requested),
        0 <= n <= r.len(),
    ensures
        versions_dropped(t.timelines, requested, n) >= 0,
        versions_dropped(t.timelines, requested, n) == r.take(n).fold_left(
            0int,
            |sum: int, e: (TimelineId, CompactionStats)| sum + e.1.versions_removed,
        ),
        layers_replaced(t.timelines, n) == r.take(n).fold_left(
            Seq::<LayerId>::empty(),
            |all: Seq<LayerId>, e: (TimelineId, CompactionStats)| all + e.1.removed_layer_ids@,
        ),
    decreases n,
{
    if n > 0 {
        lemma_added_up(t, requested, r, n - 1);
        assert(r.take(n).drop_last() =~= r.take(n - 1));
        assert(r.take(n).last() == r[n - 1]);
        assert(r[n - 1].0 == t.timelines[n - 1].id);
    }
}

/// A collection of everything reports each timeline of each tenant, under both their ids,
/// as that timeline's compaction down to where its branches let it.
pub proof fn every_timeline_is_collected_and_reported(
    r: Seq<(TenantId, TimelineId, CompactionStats)>,
    m: ManagerV,
    horizon: Lsn,
    j: int,
    i: int,
)
    requires
        collection_of_all_report(r, m, horizon),
        0 <= j < m.tenants.len(),
        0 <= i < m.tenants[j].tenant.timelines.len(),
    ensures
        exists|k: int| #![trigger r[k]]
            0 <= k < r.len() && r[k].0 == m.tenants[j].id && r[k].1
                == m.tenants[j].tenant.timelines[i].id && compaction_report(
                r[k].2,
                m.tenants[j].tenant.timelines[i].repo,
                horizon_of(m.tenants[j].tenant.timelines, i, horizon),
            ),
{
    every_timeline_is_reported_once(m.tenants);
    let all = all_timelines(m.tenants);
    assert(all.contains((j, i)));
    let k = choose|k: int| 0 <= k < all.len() && all[k] == (j, i);
    assert(r[k].0 == m.tenants[j].id);
}

// ---------------------------------------------------------------------------
// Several versions at one position
// ---------------------------------------------------------------------------

proof fn lemma_stacked_push(cols: Seq<Map<u64, VersionV>>, col: Map<u64, VersionV>, p: u64)
    ensures
        stacked(cols.push(col), p) == (if col.contains_key(p) {
            stacked(cols, p).push((Lsn(p), col[p]))
        } else {
            stacked(cols, p)
        }),
{
    assert(cols.push(col).drop_last() =~= cols);
}

proof fn lemma_one_position(cols: Seq<Map<u64, VersionV>>, l: u64)
    requires
        forall|p: u64| p != l ==> #[trigger] stacked(cols, p) == Seq::<(Lsn, VersionV)>::empty(),
    ensures
        woven(cols) == stacked(cols, l),
{
    lemma_nothing_above(cols, 0, l as nat);
    lemma_nothing_above(cols, l as nat + 1, all_positions());
    assert(interleaved(cols, l as nat + 1) =~= stacked(cols, l));
}

/// Where a page has several versions at one position, they come in this order: the image
/// from outside, the memtable's, and those of the layers from the oldest to the newest.
pub proof fn one_position_is_read_from_the_base_to_the_newest_layer(
    v: RepoV,
    key: PageKey,
    lsn: Lsn,
    l: u64,
    img: Seq<u8>,
)
    requires
        l <= lsn.0,
        v.layers.len() == 2,
        v.memtable.contains_key((key, Lsn(l))),
        v.layers[0].entries.contains_key((key, Lsn(l))),
        v.layers[1].entries.contains_key((key, Lsn(l))),
        forall|p: u64|
            p != l ==> !v.memtable.contains_key((key, Lsn(p))) && !v.layers[0].entries.contains_key(
                (key, Lsn(p)),
            ) && !#[trigger] v.layers[1].entries.contains_key((key, Lsn(p))),
    ensures
        ({
            let k = (key, Lsn(l));
            let held = seq![
                (Lsn(l), v.memtable[k]),
                (Lsn(l), v.layers[0].entries[k]),
                (Lsn(l), v.layers[1].entries[k]),
            ];
            &&& history(v, key, lsn, None) == held
            &&& history(v, key, lsn, Some((Lsn(l), img))) == seq![(Lsn(l), VersionV::Image(img))]
                + held
        }),
{
    let k = (key, Lsn(l));
    let mem = column(v.memtable, key, lsn);
    let c0 = column(v.layers[0].entries, key, lsn);
    let c1 = column(v.layers[1].entries, key, lsn);
    let held = seq![
        (Lsn(l), v.memtable[k]),
        (Lsn(l), v.layers[0].entries[k]),
        (Lsn(l), v.layers[1].entries[k]),
    ];
    let none = base_columns(None);
    let some = base_columns(Some((Lsn(l), img)));
    let a = none.push(mem).push(c0).push(c1);
    let b = some.push(mem).push(c0).push(c1);
    assert(none.push(mem) + layer_columns(v.layers, key, lsn) =~= a);
    assert(some.push(mem) + layer_columns(v.layers, key, lsn) =~= b);
    assert(stacked(none, l) == Seq::<(Lsn, VersionV)>::empty());
    let image = Map::empty().insert(l, VersionV::Image(img));
    assert(some =~= none.push(image));
    assert forall|p: u64| p != l implies #[trigger] stacked(a, p) == Seq::<(Lsn, VersionV)>::empty()
        && stacked(b, p) == Seq::<(Lsn, VersionV)>::empty() by {
        assert(!v.layers[1].entries.contains_key((key, Lsn(p))));
        lemma_stacked_push(none.push(mem).push(c0), c1, p);
        lemma_stacked_push(none.push(mem), c0, p);
        lemma_stacked_push(none, mem, p);
        lemma_stacked_push(some.push(mem).push(c0), c1, p);
        lemma_stacked_push(some.push(mem), c0, p);
        lemma_stacked_push(some, mem, p);
        lemma_stacked_push(none, image, p);
    }
    lemma_stacked_push(none.push(mem).push(c0), c1, l);
    lemma_stacked_push(none.push(mem), c0, l);
    lemma_stacked_push(none, mem, l);
    lemma_stacked_push(some.push(mem).push(c0), c1, l);
    lemma_stacked_push(some.push(mem), c0, l);
    lemma_stacked_push(some, mem, l);
    lemma_stacked_push(none, image, l);
    assert forall|p: u64| p != l implies #[trigger] stacked(b, p) == Seq::<(Lsn, VersionV)>::empty() by {
        assert(stacked(a, p) == Seq::<(Lsn, VersionV)>::empty());
    }
    lemma_one_position(a, l);
    lemma_one_position(b, l);
    assert(stacked(a, l) =~= held);
    assert(stacked(b, l) =~= seq![(Lsn(l), VersionV::Image(img))] + held);
}

/// What a read gives is what rebuilding the history gives: the page, or that there is none;
/// a version that cannot be applied is told as it is, and any other failure in words.
pub proof fn reads_give_what_rebuilding_gives(v: RepoV, key: PageKey, lsn: Lsn)
    ensures
        match natively(history(v, key, lsn, None)) {
            Ok(p) => native_page(v, key, lsn, None) == Ok::<Option<Seq<u8>>, PageErrorV>(p),
            Err(RedoErrorV::Apply(e)) => native_page(v, key, lsn, None) == Err::<
                Option<Seq<u8>>,
                PageErrorV,
            >(e),
            Err(e) => native_page(v, key, lsn, None) == Err::<Option<Seq<u8>>, PageErrorV>(
                PageErrorV::Redo(redo_error_text(e)),
            ),
        },
{
}

} // verus!
