//! What branches keep: inheritance, isolation, and collection under pins.

use vstd::prelude::*;

use crate::common::ids::TimelineId;
use crate::common::lsn::Lsn;
use crate::common::page::{PageKey, RelTag, PAGE_SIZE};
use crate::pageserver::batches::{
    blocks_written, blocks_written_is_the_maximum, in_sequence, size_is_the_highest_block_written,
};
use crate::pageserver::layer::VersionsV;
use crate::pageserver::lsnmap::{
    all_positions, column, interleaved, lemma_empty_column, lemma_interleaved_same,
    lemma_woven_none, lemma_woven_single, newest, stacked, woven,
};
use crate::pageserver::page::{ModV, PageErrorV, VersionV};
use crate::pageserver::reads::{
    all_versions, compaction_keeps_reads_from_the_horizon, finite_layers,
    history_depends_on_all_versions, later_writes_are_invisible, later_writes_leave_sizes,
    layers_apart, lemma_nothing_above, memtable_apart,
};
use crate::pageserver::repository::{
    base_columns, empty_repo, history, ingested, layer_columns, native_page, rel_size, size_key,
    RepoV,
};
use crate::pageserver::tenant::{
    branched, collected, horizon_of, lemma_number_of, lowest_pin, number_of, TenantV,
};
use crate::pageserver::timeline::{branch_page, branch_size, rooted, TimelineV};
use crate::pageserver::walredo::{
    base_decides_or_goes_on, latest_image_is_the_page, lemma_native_len,
};

verus! {

/// Whether timeline `j` is `i` or one of its ancestors.
pub open spec fn is_ancestor(tls: Seq<TimelineV>, i: int, j: int) -> bool
    decreases i,
{
    i == j || (match tls[i].ancestor {
        Some(a) => 0 <= a.number < i && is_ancestor(tls, a.number, j),
        None => false,
    })
}

/// The tenant with the store of timeline `j` replaced.
pub open spec fn with_repo(t: TenantV, j: int, repo: RepoV) -> TenantV {
    TenantV { timelines: t.timelines.update(j, TimelineV { repo, ..t.timelines[j] }), ..t }
}

/// Writing to a timeline affects no timeline but itself and its descendants:
/// the parent of a branch, and every unrelated timeline, reads as before.
pub proof fn writes_stay_on_the_branch(
    t: TenantV,
    j: int,
    repo: RepoV,
    i: int,
    key: PageKey,
    rel: RelTag,
    lsn: Lsn,
)
    requires
        rooted(t.timelines),
        0 <= i < t.timelines.len(),
        0 <= j < t.timelines.len(),
        !is_ancestor(t.timelines, i, j),
    ensures
        branch_page(with_repo(t, j, repo).timelines, i, key, lsn) == branch_page(
            t.timelines,
            i,
            key,
            lsn,
        ),
        branch_size(with_repo(t, j, repo).timelines, i, rel, lsn) == branch_size(
            t.timelines,
            i,
            rel,
            lsn,
        ),
    decreases i,
{
    if let Some(a) = t.timelines[i].ancestor {
        assert(0 <= a.number < i);
        writes_stay_on_the_branch(t, j, repo, a.number, key, rel, a.lsn);
    }
}

/// The position up to which timeline `i` inherits from its ancestor `p`: the
/// branch point at which the way up from `i` comes to `p`.
pub open spec fn branch_point(tls: Seq<TimelineV>, i: int, p: int) -> Option<Lsn>
    decreases i,
{
    match tls[i].ancestor {
        Some(a) => if a.number == p {
            Some(a.lsn)
        } else if 0 <= a.number < i {
            branch_point(tls, a.number, p)
        } else {
            None
        },
        None => None,
    }
}

/// A descendant comes after its ancestors.
proof fn lemma_branch_point(tls: Seq<TimelineV>, i: int, p: int)
    requires
        rooted(tls),
        0 <= i < tls.len(),
        branch_point(tls, i, p) is Some,
    ensures
        0 <= p < i,
    decreases i,
{
    let a = tls[i].ancestor->0;
    assert(0 <= a.number < i);
    if a.number != p {
        lemma_branch_point(tls, a.number, p);
    }
}

/// What a timeline writes behind a branch point is not visible on the branch, nor
/// on the branch's own branches: writes to `p`, each to another page or behind
/// the point up to which timeline `i` inherits from `p`, change no read of `key`
/// on `i`.
pub proof fn parent_writes_after_the_branch_point_are_invisible(
    t: TenantV,
    i: int,
    p: int,
    mods: Seq<ModV>,
    key: PageKey,
    lsn: Lsn,
)
    requires
        rooted(t.timelines),
        0 <= i < t.timelines.len(),
        branch_point(t.timelines, i, p) matches Some(at) && memtable_apart(
            t.timelines[p].repo,
            key,
            at,
        ) && forall|k: int|
            0 <= k < mods.len() ==> (#[trigger] mods[k]).key != key || mods[k].lsn.0 > at.0,
    ensures
        branch_page(
            with_repo(t, p, ingested(t.timelines[p].repo, mods)).timelines,
            i,
            key,
            lsn,
        ) == branch_page(t.timelines, i, key, lsn),
    decreases i,
{
    let tls = t.timelines;
    lemma_branch_point(tls, i, p);
    let repo = tls[p].repo;
    let after = ingested(repo, mods);
    let now = with_repo(t, p, after).timelines;
    let a = tls[i].ancestor->0;
    assert(0 <= a.number < i);
    assert(now[i] == tls[i]);
    if a.number != p {
        parent_writes_after_the_branch_point_are_invisible(t, a.number, p, mods, key, a.lsn);
    } else {
        later_writes_are_invisible(repo, mods, key, a.lsn, None);
        if let Some(b) = tls[p].ancestor {
            assert(0 <= b.number < p);
            if is_ancestor(tls, b.number, p) {
                lemma_ancestors_come_before(tls, b.number, p);
            }
            writes_stay_on_the_branch(t, p, after, b.number, key, key.rel, b.lsn);
            if let Ok(Some(page)) = branch_page(tls, b.number, key, b.lsn) {
                later_writes_are_invisible(repo, mods, key, a.lsn, Some((b.lsn, page)));
            }
        }
        assert(branch_page(now, p, key, a.lsn) == branch_page(tls, p, key, a.lsn));
    }
}

/// Nor does a branch see how a relation fork grows behind the branch point.
pub proof fn parent_growth_after_the_branch_point_is_invisible(
    t: TenantV,
    i: int,
    p: int,
    mods: Seq<ModV>,
    rel: RelTag,
    lsn: Lsn,
)
    requires
        rooted(t.timelines),
        0 <= i < t.timelines.len(),
        branch_point(t.timelines, i, p) matches Some(at) && forall|k: int|
            0 <= k < mods.len() ==> (#[trigger] mods[k]).key.rel != rel || mods[k].lsn.0 > at.0,
    ensures
        branch_size(
            with_repo(t, p, ingested(t.timelines[p].repo, mods)).timelines,
            i,
            rel,
            lsn,
        ) == branch_size(t.timelines, i, rel, lsn),
    decreases i,
{
    let tls = t.timelines;
    lemma_branch_point(tls, i, p);
    let repo = tls[p].repo;
    let after = ingested(repo, mods);
    let now = with_repo(t, p, after).timelines;
    let a = tls[i].ancestor->0;
    assert(0 <= a.number < i);
    assert(now[i] == tls[i]);
    if a.number != p {
        parent_growth_after_the_branch_point_is_invisible(t, a.number, p, mods, rel, a.lsn);
    } else {
        later_writes_leave_sizes(repo, mods, rel, a.lsn);
        if let Some(b) = tls[p].ancestor {
            assert(0 <= b.number < p);
            if is_ancestor(tls, b.number, p) {
                lemma_ancestors_come_before(tls, b.number, p);
            }
            let any = PageKey { rel, block: 0 };
            writes_stay_on_the_branch(t, p, after, b.number, any, rel, b.lsn);
        }
        assert(branch_size(now, p, rel, a.lsn) == branch_size(tls, p, rel, a.lsn));
    }
}

/// An ancestor does not come after its descendant.
proof fn lemma_ancestors_come_before(tls: Seq<TimelineV>, i: int, j: int)
    requires
        is_ancestor(tls, i, j),
    ensures
        j <= i,
    decreases i,
{
    if i != j {
        let a = tls[i].ancestor->0;
        lemma_ancestors_come_before(tls, a.number, j);
    }
}


/// A timeline that comes last changes no read of the others.
proof fn lemma_new_timeline(tls: Seq<TimelineV>, x: TimelineV, i: int, key: PageKey, lsn: Lsn)
    requires
        rooted(tls),
        0 <= i < tls.len(),
    ensures
        branch_page(tls.push(x), i, key, lsn) == branch_page(tls, i, key, lsn),
        branch_size(tls.push(x), i, key.rel, lsn) == branch_size(tls, i, key.rel, lsn),
    decreases i,
{
    if let Some(a) = tls[i].ancestor {
        assert(0 <= a.number < i);
        lemma_new_timeline(tls, x, a.number, key, a.lsn);
    }
}

/// Reads of an empty store.
proof fn lemma_empty_repo(n: usize, key: PageKey, lsn: Lsn, base: Option<(Lsn, Seq<u8>)>)
    requires
        base matches Some(b) ==> b.1.len() == PAGE_SIZE,
    ensures
        native_page(empty_repo(n), key, lsn, base) == Ok::<Option<Seq<u8>>, PageErrorV>(
            match base {
                None => None,
                Some(b) => Some(b.1),
            },
        ),
{
    let v = empty_repo(n);
    let none = Map::<u64, VersionV>::empty();
    assert(column(v.memtable, key, lsn) =~= none);
    assert(base_columns(base).push(none) + layer_columns(v.layers, key, lsn) =~= base_columns(
        base,
    ).push(none));
    lemma_empty_column(base_columns(base));
    match base {
        None => {
            lemma_woven_none::<VersionV>();
        },
        Some((l, img)) => {
            lemma_woven_single(l, VersionV::Image(img));
            latest_image_is_the_page(seq![(l, VersionV::Image(img))], img);
        },
    }
}

/// Every page that a read gives is one page long.
pub proof fn pages_are_whole(tls: Seq<TimelineV>, i: int, key: PageKey, lsn: Lsn)
    requires
        rooted(tls),
        0 <= i < tls.len(),
    ensures
        branch_page(tls, i, key, lsn) matches Ok(Some(p)) ==> p.len() == PAGE_SIZE,
    decreases i,
{
    let repo = tls[i].repo;
    lemma_native_len(history(repo, key, lsn, None));
    if let Some(a) = tls[i].ancestor {
        assert(0 <= a.number < i);
        pages_are_whole(tls, a.number, key, a.lsn);
        if let Ok(Some(page)) = branch_page(tls, a.number, key, a.lsn) {
            lemma_native_len(history(repo, key, lsn, Some((a.lsn, page))));
        }
    }
}

/// A new branch shows the parent as it is at the branch point: whatever page is
/// read at whatever position, it is the parent's page at the branch point, and so
/// is the size of its relation fork. No other timeline reads differently.
pub proof fn new_branch_shows_the_branch_point(
    t: TenantV,
    id: TimelineId,
    parent: TimelineId,
    at: Lsn,
    key: PageKey,
    lsn: Lsn,
)
    requires
        rooted(t.timelines),
        branched(t, id, parent, at) is Ok,
    ensures
        ({
            let now = branched(t, id, parent, at)->Ok_0.timelines;
            let n = t.timelines.len() as int;
            let p = number_of(t.timelines, parent);
            &&& branch_page(now, n, key, lsn) == branch_page(t.timelines, p, key, at)
            &&& branch_size(now, n, key.rel, lsn) == branch_size(t.timelines, p, key.rel, at)
            &&& forall|i: int|
                0 <= i < n ==> #[trigger] branch_page(now, i, key, lsn) == branch_page(
                    t.timelines,
                    i,
                    key,
                    lsn,
                )
        }),
{
    let tls = t.timelines;
    let now = branched(t, id, parent, at)->Ok_0.timelines;
    let n = tls.len() as int;
    let p = number_of(tls, parent);
    lemma_number_of(tls, parent);
    let x = now[n];
    assert(now =~= tls.push(x));
    assert forall|i: int| 0 <= i < n implies #[trigger] branch_page(now, i, key, lsn)
        == branch_page(tls, i, key, lsn) by {
        lemma_new_timeline(tls, x, i, key, lsn);
    }
    lemma_new_timeline(tls, x, p, key, at);
    lemma_empty_repo(t.freeze_threshold, key, lsn, None);
    let up = branch_page(tls, p, key, at);
    pages_are_whole(tls, p, key, at);
    if let Ok(Some(page)) = up {
        lemma_empty_repo(t.freeze_threshold, key, lsn, Some((at, page)));
    }
    assert(branch_page(now, p, key, at) == up);
    lemma_no_sizes(size_key(key.rel), lsn.0 as nat + 1);
}

/// Nothing is known of sizes where none is filed.
proof fn lemma_no_sizes(key: PageKey, n: nat)
    ensures
        newest(Map::<(PageKey, Lsn), u32>::empty(), key, n) is None,
    decreases n,
{
    if n > 0 {
        lemma_no_sizes(key, (n - 1) as nat);
    }
}

/// A pin is not above any branch point of the timeline.
pub(crate) proof fn lemma_pins(tls: Seq<TimelineV>, i: int, n: int, j: int)
    requires
        0 <= j < n <= tls.len(),
        tls[j].ancestor matches Some(a) && a.number == i,
    ensures
        lowest_pin(tls, i, n) <= tls[j].ancestor->0.lsn.0,
    decreases n,
{
    if j < n - 1 {
        lemma_pins(tls, i, n - 1, j);
    }
}

/// No two layers of timeline `i` hold a version of page `key` at one position up
/// to `lsn`, and neither do those of its ancestors up to the branch points.
pub open spec fn chain_apart(tls: Seq<TimelineV>, i: int, key: PageKey, lsn: Lsn) -> bool
    decreases i,
{
    layers_apart(tls[i].repo.layers, key, lsn) && (match tls[i].ancestor {
        Some(a) => 0 <= a.number < i ==> chain_apart(tls, a.number, key, a.lsn),
        None => true,
    })
}

/// A collection respects every branch: no branch point lies below the horizon to
/// which the parent is collected.
pub proof fn branch_points_are_not_collected(tls: Seq<TimelineV>, requested: Lsn, j: int)
    requires
        0 <= j < tls.len(),
    ensures
        tls[j].ancestor matches Some(a) ==> horizon_of(tls, a.number, requested).0 <= a.lsn.0,
{
    if let Some(a) = tls[j].ancestor {
        lemma_pins(tls, a.number, tls.len() as int, j);
    }
}

/// A collection changes no read that it must keep: every page read at a position
/// not below a timeline's horizon reads the same after it, on roots and branches
/// alike, however deep.
pub proof fn collection_keeps_reads(
    t: TenantV,
    requested: Lsn,
    i: int,
    key: PageKey,
    lsn: Lsn,
)
    requires
        rooted(t.timelines),
        0 <= i < t.timelines.len(),
        forall|k: int|
            0 <= k < t.timelines.len() ==> finite_layers((#[trigger] t.timelines[k]).repo.layers),
        chain_apart(t.timelines, i, key, lsn),
        horizon_of(t.timelines, i, requested).0 <= lsn.0,
    ensures
        branch_page(collected(t, requested).timelines, i, key, lsn) == branch_page(
            t.timelines,
            i,
            key,
            lsn,
        ),
    decreases i,
{
    let tls = t.timelines;
    let now = collected(t, requested).timelines;
    let h = horizon_of(tls, i, requested);
    let repo = tls[i].repo;
    assert(finite_layers(tls[i].repo.layers));
    compaction_keeps_reads_from_the_horizon(repo, h, key, lsn, None);
    if let Some(a) = tls[i].ancestor {
        assert(0 <= a.number < i);
        branch_points_are_not_collected(tls, requested, i);
        collection_keeps_reads(t, requested, a.number, key, a.lsn);
        if let Ok(Some(page)) = branch_page(tls, a.number, key, a.lsn) {
            compaction_keeps_reads_from_the_horizon(repo, h, key, lsn, Some((a.lsn, page)));
        }
    }
}

/// A collection at `requested` changes no read at `requested` or later, on any
/// timeline.
pub proof fn collection_keeps_reads_from_the_request(
    t: TenantV,
    requested: Lsn,
    i: int,
    key: PageKey,
    lsn: Lsn,
)
    requires
        rooted(t.timelines),
        0 <= i < t.timelines.len(),
        forall|k: int|
            0 <= k < t.timelines.len() ==> finite_layers((#[trigger] t.timelines[k]).repo.layers),
        chain_apart(t.timelines, i, key, lsn),
        requested.0 <= lsn.0,
    ensures
        branch_page(collected(t, requested).timelines, i, key, lsn) == branch_page(
            t.timelines,
            i,
            key,
            lsn,
        ),
{
    collection_keeps_reads(t, requested, i, key, lsn);
}

/// A collection changes no size.
pub proof fn collection_keeps_sizes(
    t: TenantV,
    requested: Lsn,
    i: int,
    rel: RelTag,
    lsn: Lsn,
)
    requires
        rooted(t.timelines),
        0 <= i < t.timelines.len(),
    ensures
        branch_size(collected(t, requested).timelines, i, rel, lsn) == branch_size(
            t.timelines,
            i,
            rel,
            lsn,
        ),
    decreases i,
{
    if let Some(a) = t.timelines[i].ancestor {
        assert(0 <= a.number < i);
        collection_keeps_sizes(t, requested, a.number, rel, a.lsn);
    }
}

/// What timeline `i` shows, written down in one place: its own versions, and up
/// to the branch point what its parent shows.
pub open spec fn shown_versions(tls: Seq<TimelineV>, i: int) -> VersionsV
    decreases i,
{
    let own = all_versions(tls[i].repo);
    match tls[i].ancestor {
        Some(a) => if 0 <= a.number < i {
            shown_versions(tls, a.number).restrict(
                Set::new(|k: (PageKey, Lsn)| k.1.0 <= a.lsn.0),
            ).union_prefer_right(own)
        } else {
            own
        },
        None => own,
    }
}

/// Page `key` has one version at each position on timeline `i` up to `lsn`, all of
/// a branch's own lie behind the branch point, and `lsn` does not lie before it;
/// and so it is with the ancestors, up to the branch points.
pub open spec fn chain_in_order(tls: Seq<TimelineV>, i: int, key: PageKey, lsn: Lsn) -> bool
    decreases i,
{
    &&& layers_apart(tls[i].repo.layers, key, lsn)
    &&& memtable_apart(tls[i].repo, key, lsn)
    &&& match tls[i].ancestor {
        Some(a) => 0 <= a.number < i ==> {
            &&& a.lsn.0 <= lsn.0
            &&& forall|l: u64|
                l <= a.lsn.0 ==> !(#[trigger] all_versions(tls[i].repo).contains_key((key, Lsn(l))))
            &&& chain_in_order(tls, a.number, key, a.lsn)
        },
        None => true,
    }
}

/// A repository that holds just the versions.
pub open spec fn holding(versions: VersionsV) -> RepoV {
    RepoV { memtable: versions, ..empty_repo(usize::MAX) }
}

/// The history of a repository without layers.
proof fn lemma_holding(versions: VersionsV, key: PageKey, lsn: Lsn)
    ensures
        history(holding(versions), key, lsn, None) == woven(seq![column(versions, key, lsn)]),
{
    let v = holding(versions);
    assert(base_columns(None).push(column(versions, key, lsn)) + layer_columns(v.layers, key, lsn)
        =~= seq![column(versions, key, lsn)]);
}

/// Columns that hold nothing below `n` weave to nothing there.
proof fn lemma_nothing_below(cols: Seq<Map<u64, VersionV>>, n: nat)
    requires
        n <= all_positions(),
        forall|l: u64| l < n ==> #[trigger] stacked(cols, l) == Seq::<(Lsn, VersionV)>::empty(),
    ensures
        interleaved(cols, n) == Seq::<(Lsn, VersionV)>::empty(),
    decreases n,
{
    if n > 0 {
        lemma_nothing_below(cols, (n - 1) as nat);
        assert(stacked(cols, (n - 1) as u64) == Seq::<(Lsn, VersionV)>::empty());
        assert(interleaved(cols, n) =~= Seq::empty());
    }
}

/// Columns weave piece by piece: where `a` is `b` below `n`, and `c` from there
/// on, and `c` holds nothing below `n` but `head`, and `b` nothing from `n` on.
proof fn lemma_woven_pieces(
    a: Seq<Map<u64, VersionV>>,
    b: Seq<Map<u64, VersionV>>,
    c: Seq<Map<u64, VersionV>>,
    n: nat,
    m: nat,
)
    requires
        n <= m <= all_positions(),
        forall|l: u64| l < n ==> #[trigger] stacked(a, l) == stacked(b, l),
        forall|l: u64| n <= l < m ==> #[trigger] stacked(a, l) == stacked(c, l),
        interleaved(c, n) == Seq::<(Lsn, VersionV)>::empty(),
    ensures
        interleaved(a, m) == interleaved(b, n) + interleaved(c, m),
    decreases m,
{
    if m == n {
        lemma_interleaved_same(a, b, n);
        assert(interleaved(b, n) + interleaved(c, n) =~= interleaved(b, n));
    } else {
        lemma_woven_pieces(a, b, c, n, (m - 1) as nat);
        assert(stacked(a, (m - 1) as u64) == stacked(c, (m - 1) as u64));
        assert(interleaved(a, m) =~= interleaved(b, n) + interleaved(c, m));
    }
}

/// One column holds at a position what it holds there.
proof fn lemma_single_stacked(col: Map<u64, VersionV>, l: u64)
    ensures
        stacked(seq![col], l) == (if col.contains_key(l) {
            seq![(Lsn(l), col[l])]
        } else {
            Seq::<(Lsn, VersionV)>::empty()
        }),
{
    assert(seq![col].drop_last() =~= Seq::empty());
    assert(stacked(seq![col].drop_last(), l) =~= Seq::empty());
    assert(stacked(seq![col], l) =~= (if col.contains_key(l) {
        seq![(Lsn(l), col[l])]
    } else {
        Seq::empty()
    }));
}

/// The history of what a branch shows is its parent's up to the branch point,
/// followed by its own; a read with a base at the branch point is of the base
/// followed by its own.
proof fn lemma_shown_history(
    tls: Seq<TimelineV>,
    i: int,
    key: PageKey,
    lsn: Lsn,
    page: Seq<u8>,
)
    requires
        rooted(tls),
        0 <= i < tls.len(),
        tls[i].ancestor is Some,
        chain_in_order(tls, i, key, lsn),
    ensures
        ({
            let a = tls[i].ancestor->0;
            let own = history(tls[i].repo, key, lsn, None);
            &&& history(holding(shown_versions(tls, i)), key, lsn, None) == history(
                holding(shown_versions(tls, a.number)),
                key,
                a.lsn,
                None,
            ) + own
            &&& history(tls[i].repo, key, lsn, Some((a.lsn, page))) == seq![
                (a.lsn, VersionV::Image(page)),
            ] + own
        }),
{
    let a = tls[i].ancestor->0;
    assert(0 <= a.number < i);
    let repo = tls[i].repo;
    let col = column(all_versions(repo), key, lsn);
    let up = column(shown_versions(tls, a.number), key, a.lsn);
    let both = column(shown_versions(tls, i), key, lsn);
    let n = a.lsn.0 as nat + 1;
    history_depends_on_all_versions(repo, key, lsn, None);
    assert(base_columns(None).push(col) =~= seq![col]);
    lemma_holding(shown_versions(tls, i), key, lsn);
    lemma_holding(shown_versions(tls, a.number), key, a.lsn);
    assert forall|l: u64| l < n implies #[trigger] stacked(seq![col], l) == Seq::<
        (Lsn, VersionV),
    >::empty() by {
        lemma_single_stacked(col, l);
        assert(!all_versions(repo).contains_key((key, Lsn(l))));
    }
    lemma_nothing_below(seq![col], n);
    assert forall|l: u64| l < n implies #[trigger] stacked(seq![both], l) == stacked(seq![up], l) by {
        lemma_single_stacked(both, l);
        lemma_single_stacked(up, l);
        assert(!all_versions(repo).contains_key((key, Lsn(l))));
    }
    assert forall|l: u64| n <= l < all_positions() implies #[trigger] stacked(seq![both], l)
        == stacked(seq![col], l) by {
        lemma_single_stacked(both, l);
        lemma_single_stacked(col, l);
    }
    lemma_woven_pieces(seq![both], seq![up], seq![col], n, all_positions());
    assert forall|l: u64| n <= l < all_positions() implies #[trigger] stacked(seq![up], l) == Seq::<
        (Lsn, VersionV),
    >::empty() by {
        lemma_single_stacked(up, l);
    }
    lemma_nothing_above(seq![up], n, all_positions());
    // With a base at the branch point.
    history_depends_on_all_versions(repo, key, lsn, Some((a.lsn, page)));
    let bc = base_columns(Some((a.lsn, page)));
    let base = Map::<u64, VersionV>::empty().insert(a.lsn.0, VersionV::Image(page));
    assert(bc == seq![base]);
    let based = bc.push(col);
    assert forall|l: u64| l < all_positions() implies #[trigger] stacked(based, l) == (if l < n {
        stacked(bc, l)
    } else {
        stacked(seq![col], l)
    }) by {
        assert(based.drop_last() =~= bc);
        lemma_single_stacked(base, l);
        lemma_single_stacked(col, l);
        if l < n {
            assert(!all_versions(repo).contains_key((key, Lsn(l))));
        }
        assert(stacked(based, l) =~= (if l < n {
            stacked(bc, l)
        } else {
            stacked(seq![col], l)
        }));
    }
    lemma_woven_pieces(based, bc, seq![col], n, all_positions());
    assert forall|l: u64| n <= l < all_positions() implies #[trigger] stacked(bc, l) == Seq::<
        (Lsn, VersionV),
    >::empty() by {
        lemma_single_stacked(base, l);
    }
    lemma_nothing_above(bc, n, all_positions());
    lemma_woven_single(a.lsn, VersionV::Image(page));
}

/// A branch reads as one repository: with the native backend, a page on a branch
/// at a position not before the branch point is what a single repository gives
/// that holds the branch's own versions and, up to the branch point, those that
/// the parent shows; however deep the branch.
///
/// Every version of a branch is meant to lie behind its branch point. At earlier
/// positions, a branch shows the branch point.
pub proof fn branch_reads_as_one_repository(
    tls: Seq<TimelineV>,
    i: int,
    key: PageKey,
    lsn: Lsn,
)
    requires
        rooted(tls),
        0 <= i < tls.len(),
        chain_in_order(tls, i, key, lsn),
    ensures
        branch_page(tls, i, key, lsn) == native_page(
            holding(shown_versions(tls, i)),
            key,
            lsn,
            None,
        ),
    decreases i,
{
    let repo = tls[i].repo;
    match tls[i].ancestor {
        None => {
            history_depends_on_all_versions(repo, key, lsn, None);
            let col = column(all_versions(repo), key, lsn);
            assert(base_columns(None).push(col) =~= seq![col]);
            lemma_holding(all_versions(repo), key, lsn);
        },
        Some(a) => {
            assert(0 <= a.number < i);
            branch_reads_as_one_repository(tls, a.number, key, a.lsn);
            pages_are_whole(tls, a.number, key, a.lsn);
            let above = history(holding(shown_versions(tls, a.number)), key, a.lsn, None);
            let own = history(repo, key, lsn, None);
            let page = match branch_page(tls, a.number, key, a.lsn) {
                Ok(Some(page)) => page,
                _ => Seq::empty(),
            };
            lemma_shown_history(tls, i, key, lsn, page);
            base_decides_or_goes_on(above, own);
            let image = seq![(a.lsn, VersionV::Image(page))];
            base_decides_or_goes_on(image, own);
            if branch_page(tls, a.number, key, a.lsn) matches Ok(Some(_)) {
                latest_image_is_the_page(image, page);
            }
        },
    }
}

/// The size of a relation fork on a branch is never smaller than its own, nor than the
/// parent's at the branch point, and it is one of the two; it is unknown only where both
/// are. On a root it is its own.
pub proof fn branch_size_is_the_larger_of_two(
    tls: Seq<TimelineV>,
    i: int,
    rel: RelTag,
    lsn: Lsn,
)
    requires
        rooted(tls),
        0 <= i < tls.len(),
    ensures
        ({
            let size = branch_size(tls, i, rel, lsn);
            let own = rel_size(tls[i].repo, rel, lsn);
            match tls[i].ancestor {
                None => size == own,
                Some(a) => {
                    let up = branch_size(tls, a.number, rel, a.lsn);
                    &&& own matches Some(x) ==> (size matches Some(z) && z >= x)
                    &&& up matches Some(y) ==> (size matches Some(z) && z >= y)
                    &&& size == own || size == up
                },
            }
        }),
{
}

/// Write number `k` on timeline `j` is of relation fork `rel`, and a read on timeline `i`
/// at `lsn` comes by it: on `i` itself up to `lsn`, on an ancestor up to the branch point.
pub open spec fn comes_by(
    tls: Seq<TimelineV>,
    writes: Seq<Seq<ModV>>,
    i: int,
    rel: RelTag,
    lsn: Lsn,
    j: int,
    k: int,
) -> bool {
    &&& 0 <= j < tls.len()
    &&& 0 <= k < writes[j].len()
    &&& writes[j][k].key.rel == rel
    &&& if j == i {
        writes[j][k].lsn.0 <= lsn.0
    } else {
        branch_point(tls, i, j) matches Some(at) && writes[j][k].lsn.0 <= at.0
    }
}

/// The size of a relation fork on a branch is one more than the highest block that is
/// written on the branch up to the position, or on one of its ancestors up to the branch
/// point; it is unknown where none is.
pub proof fn branch_size_is_the_highest_block_on_the_way(
    tls: Seq<TimelineV>,
    thresholds: Seq<usize>,
    writes: Seq<Seq<ModV>>,
    i: int,
    rel: RelTag,
    lsn: Lsn,
)
    requires
        rooted(tls),
        0 <= i < tls.len(),
        thresholds.len() == tls.len(),
        writes.len() == tls.len(),
        forall|j: int|
            0 <= j < tls.len() ==> (#[trigger] tls[j]).repo == ingested(
                empty_repo(thresholds[j]),
                writes[j],
            ) && in_sequence(writes[j], rel),
    ensures
        match branch_size(tls, i, rel, lsn) {
            None => forall|j: int, k: int| !#[trigger] comes_by(tls, writes, i, rel, lsn, j, k),
            Some(n) => {
                &&& exists|j: int, k: int| #[trigger]
                    comes_by(tls, writes, i, rel, lsn, j, k) && n == writes[j][k].key.block + 1
                &&& forall|j: int, k: int| #[trigger]
                    comes_by(tls, writes, i, rel, lsn, j, k) ==> writes[j][k].key.block + 1 <= n
            },
        },
    decreases i,
{
    let own = rel_size(tls[i].repo, rel, lsn);
    let w = writes[i];
    assert(tls[i].repo == ingested(empty_repo(thresholds[i]), w) && in_sequence(w, rel));
    size_is_the_highest_block_written(thresholds[i], w, rel, lsn, lsn);
    blocks_written_is_the_maximum(w, rel, lsn);
    assert(own == blocks_written(w, rel, lsn));
    if let Some(x) = own {
        let k = choose|k: int|
            0 <= k < w.len() && (#[trigger] w[k]).key.rel == rel && w[k].lsn.0 <= lsn.0 && x
                == w[k].key.block + 1;
        assert(comes_by(tls, writes, i, rel, lsn, i, k));
    }
    if let Some(a) = tls[i].ancestor {
        assert(0 <= a.number < i);
        branch_size_is_the_highest_block_on_the_way(
            tls,
            thresholds,
            writes,
            a.number,
            rel,
            a.lsn,
        );
        assert forall|j: int, k: int| j != i implies #[trigger] comes_by(
            tls,
            writes,
            i,
            rel,
            lsn,
            j,
            k,
        ) == comes_by(tls, writes, a.number, rel, a.lsn, j, k) by {
            if j == a.number && branch_point(tls, a.number, j) is Some {
                lemma_branch_point(tls, a.number, j);
            }
        }
        assert forall|k: int| !#[trigger] comes_by(tls, writes, a.number, rel, a.lsn, i, k) by {
            if branch_point(tls, a.number, i) is Some {
                lemma_branch_point(tls, a.number, i);
            }
        }
        let up = branch_size(tls, a.number, rel, a.lsn);
        if let Some(y) = up {
            let (j, k) = choose|j: int, k: int| #[trigger]
                comes_by(tls, writes, a.number, rel, a.lsn, j, k) && y == writes[j][k].key.block
                    + 1;
            assert(j != i);
            assert(comes_by(tls, writes, i, rel, lsn, j, k));
        }
        assert forall|j: int, k: int| #[trigger]
            comes_by(tls, writes, i, rel, lsn, j, k) implies (branch_size(tls, i, rel, lsn) matches Some(
            n,
        ) && writes[j][k].key.block + 1 <= n) by {
            if j != i {
                assert(comes_by(tls, writes, a.number, rel, a.lsn, j, k));
            } else {
                assert(w[k].key.rel == rel);
            }
        }
    } else {
        assert forall|j: int, k: int| #[trigger]
            comes_by(tls, writes, i, rel, lsn, j, k) implies j == i && w[k].key.rel == rel
            && w[k].lsn.0 <= lsn.0 by {}
    }
}

} // verus!
