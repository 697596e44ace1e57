//! What a list of writes comes to, however it is handed over: in which batches,
//! with which freezes in between, and as which layers.

use vstd::prelude::*;

use crate::common::lsn::Lsn;
use crate::common::page::{PageKey, RelTag};
use crate::pageserver::layer::{LayerId, LayerV};
use crate::pageserver::lsnmap::{all_positions, column, lemma_interleaved_same, newest, stacked};
use crate::pageserver::page::{is_base_version, ModV, VersionV};
use crate::pageserver::reads::{
    all_versions, compaction_keeps_reads_from_the_horizon, filed_one, finite_layers,
    freezing_keeps_reads, history_depends_on_all_versions, layers_apart, lemma_compacted_layers,
    lemma_merged_from, lemma_newest_same, memtable_apart, not_held, with_mods, writes_add_versions,
};
use crate::pageserver::repository::{
    base_columns, compacted, compaction_leaves_one_layer, compaction_report, empty_repo,
    filled_layers, frozen, grown, history, ingested, ingested_one, may_look_up, merged,
    native_page, not_in, pending, rel_size, size_key, superseded, superseded_versions_are_dropped,
    CompactionStats, LookupV, RepoV,
};
use crate::pageserver::walredo::{from_last_base, lemma_last_base, WalRedoManager};

verus! {

// ---------------------------------------------------------------------------
// Batches and freezes
// ---------------------------------------------------------------------------

/// One step of filling a repository.
pub enum StepV {
    /// A batch of writes.
    Write(Seq<ModV>),
    /// A freeze.
    Freeze,
}

/// The repository after the steps, in order.
pub open spec fn stepped(v: RepoV, steps: Seq<StepV>) -> RepoV
    decreases steps.len(),
{
    if steps.len() == 0 {
        v
    } else {
        let before = stepped(v, steps.drop_last());
        match steps.last() {
            StepV::Write(mods) => ingested(before, mods),
            StepV::Freeze => frozen(before),
        }
    }
}

/// All writes of the steps, in order.
pub open spec fn writes_of(steps: Seq<StepV>) -> Seq<ModV>
    decreases steps.len(),
{
    if steps.len() == 0 {
        Seq::empty()
    } else {
        match steps.last() {
            StepV::Write(mods) => writes_of(steps.drop_last()) + mods,
            StepV::Freeze => writes_of(steps.drop_last()),
        }
    }
}

/// No two writes are of the same page at the same position.
pub open spec fn different_places(mods: Seq<ModV>) -> bool {
    forall|i: int, j: int|
        0 <= i < j < mods.len() ==> ((#[trigger] mods[i]).key, mods[i].lsn) != (
            (#[trigger] mods[j]).key,
            mods[j].lsn,
        )
}

/// No page has two versions at one position.
pub open spec fn all_apart(v: RepoV) -> bool {
    forall|key: PageKey, lsn: Lsn|
        #![trigger layers_apart(v.layers, key, lsn)]
        #![trigger memtable_apart(v, key, lsn)]
        layers_apart(v.layers, key, lsn) && memtable_apart(v, key, lsn)
}

/// The sizes after one write.
pub open spec fn sized_one(sizes: Map<(PageKey, Lsn), u32>, m: ModV) -> Map<(PageKey, Lsn), u32> {
    sizes.insert(
        (size_key(m.key.rel), m.lsn),
        grown(newest(sizes, size_key(m.key.rel), m.lsn.0 as nat + 1), m.key.block),
    )
}

/// The sizes after the writes, in order.
pub open spec fn sized(sizes: Map<(PageKey, Lsn), u32>, mods: Seq<ModV>) -> Map<
    (PageKey, Lsn),
    u32,
>
    decreases mods.len(),
{
    if mods.len() == 0 {
        sizes
    } else {
        sized_one(sized(sizes, mods.drop_last()), mods.last())
    }
}

proof fn lemma_not_held(v: RepoV, k: (PageKey, Lsn))
    ensures
        not_held(v, k) <==> !all_versions(v).contains_key(k),
{
    lemma_merged_from(v.layers, k);
    if !not_held(v, k) && !v.memtable.contains_key(k) {
        let i = choose|i: int|
            0 <= i < v.layers.len() && #[trigger] v.layers[i].entries.contains_key(k);
        assert(merged(v.layers).contains_key(k));
    }
}

proof fn lemma_frozen_apart(v: RepoV)
    requires
        all_apart(v),
    ensures
        all_apart(frozen(v)),
        all_versions(frozen(v)) == all_versions(v),
        frozen(v).rel_sizes == v.rel_sizes,
{
    let w = frozen(v);
    if v.memtable.dom().len() != 0 {
        assert(w.layers.drop_last() =~= v.layers);
        assert(all_versions(w) =~= all_versions(v));
        let n = v.layers.len() as int;
        assert forall|key: PageKey, lsn: Lsn|
            #![trigger layers_apart(w.layers, key, lsn)]
            layers_apart(w.layers, key, lsn) && memtable_apart(w, key, lsn) by {
            assert(layers_apart(v.layers, key, lsn) && memtable_apart(v, key, lsn));
            assert forall|i: int, j: int, l: u64|
                0 <= i < j < w.layers.len() && l <= lsn.0
                    && #[trigger] w.layers[i].entries.contains_key((key, Lsn(l))) implies !(
            #[trigger] w.layers[j].entries.contains_key((key, Lsn(l)))) by {
                assert(v.layers[i].entries.contains_key((key, Lsn(l))));
                if j < n {
                    assert(w.layers[j] == v.layers[j]);
                } else {
                    assert(w.layers[j].entries == v.memtable);
                }
            }
        }
    }
}

proof fn lemma_write_apart(v: RepoV, m: ModV)
    requires
        all_apart(v),
        !all_versions(v).contains_key((m.key, m.lsn)),
    ensures
        all_apart(ingested_one(v, m)),
{
    let filed = filed_one(v, m);
    lemma_not_held(v, (m.key, m.lsn));
    assert forall|key: PageKey, lsn: Lsn|
        #![trigger layers_apart(filed.layers, key, lsn)]
        layers_apart(filed.layers, key, lsn) && memtable_apart(filed, key, lsn) by {
        assert(layers_apart(v.layers, key, lsn) && memtable_apart(v, key, lsn));
        assert forall|i: int, l: u64|
            0 <= i < filed.layers.len() && l <= lsn.0
                && #[trigger] filed.layers[i].entries.contains_key((key, Lsn(l))) implies !filed.memtable.contains_key(
        (key, Lsn(l))) by {
            assert(v.layers[i].entries.contains_key((key, Lsn(l))));
        }
    }
    lemma_frozen_apart(filed);
    assert(ingested_one(v, m) == filed || ingested_one(v, m) == frozen(filed));
}

/// A key that none of the writes has is not among what they leave.
proof fn lemma_with_mods(base: crate::pageserver::layer::VersionsV, mods: Seq<ModV>, k: (PageKey, Lsn))
    requires
        !base.contains_key(k),
        forall|i: int| 0 <= i < mods.len() ==> ((#[trigger] mods[i]).key, mods[i].lsn) != k,
    ensures
        !with_mods(base, mods).contains_key(k),
    decreases mods.len(),
{
    if mods.len() > 0 {
        let front = mods.drop_last();
        assert forall|i: int| 0 <= i < front.len() implies ((#[trigger] front[i]).key, front[i].lsn)
            != k by {
            assert(front[i] == mods[i]);
        }
        lemma_with_mods(base, front, k);
        assert((mods[mods.len() - 1].key, mods[mods.len() - 1].lsn) != k);
    }
}

proof fn lemma_with_mods_concat(base: crate::pageserver::layer::VersionsV, a: Seq<ModV>, b: Seq<ModV>)
    ensures
        with_mods(base, a + b) == with_mods(with_mods(base, a), b),
    decreases b.len(),
{
    if b.len() == 0 {
        assert(a + b =~= a);
    } else {
        lemma_with_mods_concat(base, a, b.drop_last());
        assert((a + b).drop_last() =~= a + b.drop_last());
    }
}

proof fn lemma_sized_concat(sizes: Map<(PageKey, Lsn), u32>, a: Seq<ModV>, b: Seq<ModV>)
    ensures
        sized(sizes, a + b) == sized(sized(sizes, a), b),
    decreases b.len(),
{
    if b.len() == 0 {
        assert(a + b =~= a);
    } else {
        lemma_sized_concat(sizes, a, b.drop_last());
        assert((a + b).drop_last() =~= a + b.drop_last());
    }
}

/// Sizes after a batch depend on the sizes before it and the writes alone.
proof fn lemma_batch_sizes(v: RepoV, mods: Seq<ModV>)
    ensures
        ingested(v, mods).rel_sizes == sized(v.rel_sizes, mods),
    decreases mods.len(),
{
    if mods.len() > 0 {
        lemma_batch_sizes(v, mods.drop_last());
    }
}

/// A batch of writes, each of a page at a position at which it has no version
/// yet, leaves every page with one version at each position.
proof fn lemma_batch_apart(v: RepoV, done: Seq<ModV>, mods: Seq<ModV>)
    requires
        all_apart(v),
        all_versions(v) == with_mods(Map::empty(), done),
        different_places(done + mods),
    ensures
        all_apart(ingested(v, mods)),
        all_versions(ingested(v, mods)) == with_mods(Map::empty(), done + mods),
    decreases mods.len(),
{
    writes_add_versions(v, mods);
    lemma_with_mods_concat(Map::empty(), done, mods);
    if mods.len() > 0 {
        let front = mods.drop_last();
        let m = mods.last();
        let all = done + mods;
        assert(all.drop_last() =~= done + front);
        assert(different_places(done + front)) by {
            assert forall|i: int, j: int| 0 <= i < j < (done + front).len() implies ((#[trigger] (
            done + front)[i]).key, (done + front)[i].lsn) != (
                (#[trigger] (done + front)[j]).key,
                (done + front)[j].lsn,
            ) by {
                assert(all[i] == (done + front)[i] && all[j] == (done + front)[j]);
            }
        }
        lemma_batch_apart(v, done, front);
        let k = (m.key, m.lsn);
        let n = all.len() - 1;
        assert(all[n] == m);
        assert forall|i: int| 0 <= i < (done + front).len() implies ((#[trigger] (done
            + front)[i]).key, (done + front)[i].lsn) != k by {
            assert(all[i] == (done + front)[i]);
        }
        lemma_with_mods(Map::empty(), done + front, k);
        lemma_write_apart(ingested(v, front), m);
    }
}

pub(crate) proof fn lemma_stepped(freeze_threshold: usize, steps: Seq<StepV>)
    requires
        different_places(writes_of(steps)),
    ensures
        ({
            let v = stepped(empty_repo(freeze_threshold), steps);
            &&& all_apart(v)
            &&& all_versions(v) == with_mods(Map::empty(), writes_of(steps))
            &&& v.rel_sizes == sized(Map::empty(), writes_of(steps))
        }),
    decreases steps.len(),
{
    let e = empty_repo(freeze_threshold);
    if steps.len() == 0 {
        assert(all_versions(e) =~= Map::empty());
        assert forall|key: PageKey, lsn: Lsn|
            #![trigger layers_apart(e.layers, key, lsn)]
            layers_apart(e.layers, key, lsn) && memtable_apart(e, key, lsn) by {}
    } else {
        let front = steps.drop_last();
        let before = stepped(e, front);
        let done = writes_of(front);
        let all = writes_of(steps);
        assert(different_places(done)) by {
            assert forall|i: int, j: int| 0 <= i < j < done.len() implies ((#[trigger] done[i]).key, done[i].lsn)
                != ((#[trigger] done[j]).key, done[j].lsn) by {
                assert(all[i] == done[i] && all[j] == done[j]);
            }
        }
        lemma_stepped(freeze_threshold, front);
        match steps.last() {
            StepV::Write(mods) => {
                lemma_batch_apart(before, done, mods);
                lemma_batch_sizes(before, mods);
                lemma_sized_concat(Map::empty(), done, mods);
            },
            StepV::Freeze => {
                lemma_frozen_apart(before);
            },
        }
    }
}

/// How writes are handed over makes no difference: two repositories, each with
/// its own freeze threshold, that were given the same writes in the same order,
/// cut into batches in any way and with freezes anywhere in between, read every
/// page and every size the same, whatever the backend.
pub proof fn batching_is_irrelevant<R: WalRedoManager>(
    backend: R,
    threshold: usize,
    steps: Seq<StepV>,
    other_threshold: usize,
    other_steps: Seq<StepV>,
    key: PageKey,
    rel: RelTag,
    lsn: Lsn,
    base: Option<(Lsn, Seq<u8>)>,
    out: LookupV,
)
    requires
        writes_of(steps) == writes_of(other_steps),
        different_places(writes_of(steps)),
    ensures
        ({
            let v = stepped(empty_repo(threshold), steps);
            let w = stepped(empty_repo(other_threshold), other_steps);
            &&& history(v, key, lsn, base) == history(w, key, lsn, base)
            &&& may_look_up(backend, v, key, lsn, base, out) <==> may_look_up(
                backend,
                w,
                key,
                lsn,
                base,
                out,
            )
            &&& native_page(v, key, lsn, base) == native_page(w, key, lsn, base)
            &&& rel_size(v, rel, lsn) == rel_size(w, rel, lsn)
        }),
{
    let v = stepped(empty_repo(threshold), steps);
    let w = stepped(empty_repo(other_threshold), other_steps);
    lemma_stepped(threshold, steps);
    lemma_stepped(other_threshold, other_steps);
    assert(layers_apart(v.layers, key, lsn) && memtable_apart(v, key, lsn));
    assert(layers_apart(w.layers, key, lsn) && memtable_apart(w, key, lsn));
    history_depends_on_all_versions(v, key, lsn, base);
    history_depends_on_all_versions(w, key, lsn, base);
}

// ---------------------------------------------------------------------------
// Sizes
// ---------------------------------------------------------------------------

/// One more than the highest block of `rel` that the writes up to `lsn` touch.
pub open spec fn blocks_written(mods: Seq<ModV>, rel: RelTag, lsn: Lsn) -> Option<u32>
    decreases mods.len(),
{
    if mods.len() == 0 {
        None
    } else {
        let before = blocks_written(mods.drop_last(), rel, lsn);
        let m = mods.last();
        if m.key.rel == rel && m.lsn.0 <= lsn.0 {
            match before {
                Some(n) if n > m.key.block => Some(n),
                _ => Some((m.key.block + 1) as u32),
            }
        } else {
            before
        }
    }
}

/// The writes to `rel` come in the order of their positions, and none of them is
/// to the last block number.
pub open spec fn in_sequence(mods: Seq<ModV>, rel: RelTag) -> bool {
    &&& forall|i: int, j: int|
        0 <= i < j < mods.len() && (#[trigger] mods[i]).key.rel == rel && (
        #[trigger] mods[j]).key.rel == rel ==> mods[i].lsn.0 <= mods[j].lsn.0
    &&& forall|i: int|
        0 <= i < mods.len() && (#[trigger] mods[i]).key.rel == rel ==> mods[i].key.block < u32::MAX
}

proof fn lemma_in_sequence_front(mods: Seq<ModV>, rel: RelTag)
    requires
        mods.len() > 0,
        in_sequence(mods, rel),
    ensures
        in_sequence(mods.drop_last(), rel),
{
    let front = mods.drop_last();
    assert forall|i: int, j: int|
        0 <= i < j < front.len() && (#[trigger] front[i]).key.rel == rel && (
        #[trigger] front[j]).key.rel == rel implies front[i].lsn.0 <= front[j].lsn.0 by {
        assert(front[i] == mods[i] && front[j] == mods[j]);
    }
    assert forall|i: int| 0 <= i < front.len() && (#[trigger] front[i]).key.rel == rel implies front[i].key.block
        < u32::MAX by {
        assert(front[i] == mods[i]);
    }
}

/// Writes up to `at` and no later ones: what is known at `at` is known later.
proof fn lemma_nothing_later(mods: Seq<ModV>, rel: RelTag, at: Lsn, lsn: Lsn)
    requires
        at.0 <= lsn.0,
        forall|i: int|
            0 <= i < mods.len() && (#[trigger] mods[i]).key.rel == rel ==> mods[i].lsn.0 <= at.0,
    ensures
        blocks_written(mods, rel, at) == blocks_written(mods, rel, lsn),
        forall|l: u64|
            at.0 < l ==> !(#[trigger] sized(Map::empty(), mods).contains_key(
                (size_key(rel), Lsn(l)),
            )),
    decreases mods.len(),
{
    if mods.len() > 0 {
        let front = mods.drop_last();
        assert forall|i: int| 0 <= i < front.len() && (#[trigger] front[i]).key.rel == rel implies front[i].lsn.0
            <= at.0 by {
            assert(front[i] == mods[i]);
        }
        lemma_nothing_later(front, rel, at, lsn);
        assert(mods[mods.len() - 1] == mods.last());
        assert forall|l: u64| at.0 < l implies !(#[trigger] sized(
            Map::empty(),
            mods,
        ).contains_key((size_key(rel), Lsn(l)))) by {
            assert(!sized(Map::empty(), front).contains_key((size_key(rel), Lsn(l))));
        }
    }
}

/// The newest of what is filed stays the newest where nothing is filed behind it.
proof fn lemma_newest_of(sizes: Map<(PageKey, Lsn), u32>, key: PageKey, at: nat, n: nat)
    requires
        at <= n <= all_positions(),
        forall|l: u64| at <= l < n ==> !(#[trigger] sizes.contains_key((key, Lsn(l)))),
    ensures
        newest(sizes, key, n) == newest(sizes, key, at),
    decreases n,
{
    if at < n {
        assert(!sizes.contains_key((key, Lsn((n - 1) as u64))));
        lemma_newest_of(sizes, key, at, (n - 1) as nat);
    }
}

proof fn lemma_sizes(mods: Seq<ModV>, rel: RelTag, lsn: Lsn)
    requires
        in_sequence(mods, rel),
    ensures
        newest(sized(Map::empty(), mods), size_key(rel), lsn.0 as nat + 1) == blocks_written(
            mods,
            rel,
            lsn,
        ),
    decreases mods.len(),
{
    let key = size_key(rel);
    let n = lsn.0 as nat + 1;
    if mods.len() == 0 {
        lemma_newest_of(Map::empty(), key, 0, n);
    } else {
        let front = mods.drop_last();
        let m = mods.last();
        let before = sized(Map::empty(), front);
        let now = sized(Map::empty(), mods);
        lemma_in_sequence_front(mods, rel);
        lemma_sizes(front, rel, lsn);
        assert(mods[mods.len() - 1] == m);
        if m.key.rel == rel && m.lsn.0 <= lsn.0 {
            assert forall|i: int| 0 <= i < front.len() && (#[trigger] front[i]).key.rel == rel implies front[i].lsn.0
                <= m.lsn.0 by {
                assert(front[i] == mods[i]);
            }
            lemma_nothing_later(front, rel, m.lsn, lsn);
            lemma_sizes(front, rel, m.lsn);
            lemma_newest_of(now, key, m.lsn.0 as nat + 1, n);
            assert(now.contains_key((key, m.lsn)));
            assert(newest(now, key, m.lsn.0 as nat + 1) == Some(now[(key, m.lsn)]));
        } else {
            lemma_newest_same(before, now, key, n);
        }
    }
}

/// A relation fork is as long as the highest block written to it up to the
/// position, plus one, and unknown where none was; so it never shrinks as the
/// position grows. Writes come in the order of their positions; the last block
/// number counts as none.
pub proof fn size_is_the_highest_block_written(
    freeze_threshold: usize,
    mods: Seq<ModV>,
    rel: RelTag,
    lsn: Lsn,
    later: Lsn,
)
    requires
        in_sequence(mods, rel),
        lsn.0 <= later.0,
    ensures
        ({
            let v = ingested(empty_repo(freeze_threshold), mods);
            &&& rel_size(v, rel, lsn) == blocks_written(mods, rel, lsn)
            &&& rel_size(v, rel, lsn) matches Some(n) ==> (rel_size(v, rel, later) matches Some(m)
                && n <= m)
        }),
{
    lemma_batch_sizes(empty_repo(freeze_threshold), mods);
    lemma_sizes(mods, rel, lsn);
    lemma_sizes(mods, rel, later);
    lemma_blocks_grow(mods, rel, lsn, later);
}

proof fn lemma_blocks_grow(mods: Seq<ModV>, rel: RelTag, lsn: Lsn, later: Lsn)
    requires
        in_sequence(mods, rel),
        lsn.0 <= later.0,
    ensures
        blocks_written(mods, rel, lsn) matches Some(n) ==> (blocks_written(mods, rel, later) matches Some(
            m,
        ) && n <= m),
    decreases mods.len(),
{
    if mods.len() > 0 {
        lemma_in_sequence_front(mods, rel);
        lemma_blocks_grow(mods.drop_last(), rel, lsn, later);
        assert(mods[mods.len() - 1] == mods.last());
    }
}

/// What the blocks written amount to: a bound that is reached, known where any
/// write is.
pub proof fn blocks_written_is_the_maximum(mods: Seq<ModV>, rel: RelTag, lsn: Lsn)
    requires
        in_sequence(mods, rel),
    ensures
        match blocks_written(mods, rel, lsn) {
            None => forall|i: int|
                0 <= i < mods.len() ==> (#[trigger] mods[i]).key.rel != rel || mods[i].lsn.0
                    > lsn.0,
            Some(n) => {
                &&& exists|i: int|
                    0 <= i < mods.len() && (#[trigger] mods[i]).key.rel == rel && mods[i].lsn.0
                        <= lsn.0 && n == mods[i].key.block + 1
                &&& forall|i: int|
                    0 <= i < mods.len() && (#[trigger] mods[i]).key.rel == rel && mods[i].lsn.0
                        <= lsn.0 ==> mods[i].key.block + 1 <= n
            },
        },
    decreases mods.len(),
{
    if mods.len() > 0 {
        let front = mods.drop_last();
        let m = mods.last();
        lemma_in_sequence_front(mods, rel);
        blocks_written_is_the_maximum(front, rel, lsn);
        assert(mods[mods.len() - 1] == m);
        assert forall|i: int| 0 <= i < front.len() implies front[i] == #[trigger] mods[i] by {}
        if let Some(n) = blocks_written(front, rel, lsn) {
            let i = choose|i: int|
                0 <= i < front.len() && (#[trigger] front[i]).key.rel == rel && front[i].lsn.0
                    <= lsn.0 && n == front[i].key.block + 1;
            assert(mods[i].key.rel == rel);
        }
    }
}

/// Neither a freeze nor a compaction changes a size.
pub proof fn upkeep_keeps_sizes(v: RepoV, horizon: Lsn, rel: RelTag, lsn: Lsn)
    ensures
        rel_size(frozen(v), rel, lsn) == rel_size(v, rel, lsn),
        rel_size(compacted(v, horizon), rel, lsn) == rel_size(v, rel, lsn),
{
}

// ---------------------------------------------------------------------------
// Compaction
// ---------------------------------------------------------------------------

/// What is held is finite, and no layer is empty.
spec fn in_shape(v: RepoV) -> bool {
    v.memtable.dom().finite() && filled_layers(v.layers) && finite_layers(v.layers)
}

proof fn lemma_frozen_in_shape(v: RepoV)
    requires
        in_shape(v),
    ensures
        in_shape(frozen(v)),
{
    let w = frozen(v);
    assert forall|i: int| 0 <= i < w.layers.len() implies (#[trigger] w.layers[i]).entries.dom().finite()
        && w.layers[i].entries.dom().len() > 0 by {
        if i < v.layers.len() {
            assert(w.layers[i] == v.layers[i]);
        }
    }
}

proof fn lemma_batch_in_shape(v: RepoV, mods: Seq<ModV>)
    requires
        in_shape(v),
    ensures
        in_shape(ingested(v, mods)),
    decreases mods.len(),
{
    if mods.len() > 0 {
        let u = ingested(v, mods.drop_last());
        lemma_batch_in_shape(v, mods.drop_last());
        let filed = filed_one(u, mods.last());
        assert(in_shape(filed));
        lemma_frozen_in_shape(filed);
    }
}

proof fn lemma_steps_in_shape(threshold: usize, steps: Seq<StepV>)
    ensures
        in_shape(stepped(empty_repo(threshold), steps)),
    decreases steps.len(),
{
    if steps.len() > 0 {
        let before = stepped(empty_repo(threshold), steps.drop_last());
        lemma_steps_in_shape(threshold, steps.drop_last());
        match steps.last() {
            StepV::Write(mods) => {
                lemma_batch_in_shape(before, mods);
            },
            StepV::Freeze => {
                lemma_frozen_in_shape(before);
            },
        }
    }
}

/// Writes of which no two are of the same page at the same position leave no page
/// with two versions at one position, wherever they come to lie; the layers hold
/// versions, and finitely many.
pub proof fn different_writes_lie_apart(threshold: usize, steps: Seq<StepV>)
    requires
        different_places(writes_of(steps)),
    ensures
        all_apart(stepped(empty_repo(threshold), steps)),
        filled_layers(stepped(empty_repo(threshold), steps).layers),
        finite_layers(stepped(empty_repo(threshold), steps).layers),
{
    lemma_stepped(threshold, steps);
    lemma_steps_in_shape(threshold, steps);
}

/// What a compaction comes to, where no page has two versions at one position.
/// Every page reads as before from the horizon on, and every size at every position.
/// The versions reported as removed are those in frozen layers that a later base of
/// their page, up to the horizon, supersedes: they are gone, and no other is. What is
/// not frozen stays as it is. Where there was a layer, there is exactly one.
pub proof fn compaction_drops_only_what_is_superseded(
    v: RepoV,
    horizon: Lsn,
    s: CompactionStats,
    key: PageKey,
    rel: RelTag,
    lsn: Lsn,
)
    requires
        all_apart(v),
        filled_layers(v.layers),
        finite_layers(v.layers),
        compaction_report(s, v, horizon),
    ensures
        ({
            let w = compacted(v, horizon);
            let m = merged(v.layers);
            let gone = m.dom().filter(|k: (PageKey, Lsn)| superseded(m, horizon, k));
            &&& horizon.0 <= lsn.0 ==> native_page(w, key, lsn, None) == native_page(
                v,
                key,
                lsn,
                None,
            )
            &&& horizon.0 <= lsn.0 ==> from_last_base(history(w, key, lsn, None))
                == from_last_base(history(v, key, lsn, None))
            &&& rel_size(w, rel, lsn) == rel_size(v, rel, lsn)
            &&& s.versions_removed == gone.len()
            &&& merged(w.layers) == m.remove_keys(gone)
            &&& w.memtable == v.memtable
            &&& s.layers_before >= 1 ==> s.layers_after == 1 && w.layers.len() == 1
            &&& s.layers_before == 0 ==> w == v
        }),
{
    assert(layers_apart(v.layers, key, lsn));
    if horizon.0 <= lsn.0 {
        compaction_keeps_reads_from_the_horizon(v, horizon, key, lsn, None);
    }
    superseded_versions_are_dropped(v, horizon, s);
    if v.layers.len() > 0 {
        lemma_compacted_layers(v, horizon);
        compaction_leaves_one_layer(v, horizon);
    } else {
        let m = merged(v.layers);
        let gone = m.dom().filter(|k: (PageKey, Lsn)| superseded(m, horizon, k));
        assert(m =~= m.remove_keys(gone));
    }
}

// ---------------------------------------------------------------------------
// Images from outside
// ---------------------------------------------------------------------------

/// A base from outside reads as an image that was ingested: at a position at
/// which the page has no version, reading with the base gives what a repository
/// gives that holds the image as well, whatever the backend; so there is a page
/// or an error.
pub proof fn outside_base_reads_as_an_ingested_image<R: WalRedoManager>(
    backend: R,
    v: RepoV,
    key: PageKey,
    lsn: Lsn,
    at: Lsn,
    page: Seq<u8>,
    out: LookupV,
)
    requires
        layers_apart(v.layers, key, lsn),
        memtable_apart(v, key, lsn),
        at.0 <= lsn.0,
        not_held(v, (key, at)),
    ensures
        ({
            let w = ingested_one(v, ModV { key, lsn: at, version: VersionV::Image(page) });
            &&& history(v, key, lsn, Some((at, page))) == history(w, key, lsn, None)
            &&& may_look_up(backend, v, key, lsn, Some((at, page)), out) <==> may_look_up(
                backend,
                w,
                key,
                lsn,
                None,
                out,
            )
            &&& native_page(v, key, lsn, Some((at, page))) == native_page(w, key, lsn, None)
            &&& native_page(w, key, lsn, None) != Ok::<
                Option<Seq<u8>>,
                crate::pageserver::page::PageErrorV,
            >(None)
        }),
{
    let m = ModV { key, lsn: at, version: VersionV::Image(page) };
    let k = (key, at);
    let filed = filed_one(v, m);
    let w = ingested_one(v, m);
    assert(memtable_apart(filed, key, lsn)) by {
        assert forall|i: int, l: u64|
            0 <= i < filed.layers.len() && l <= lsn.0
                && #[trigger] filed.layers[i].entries.contains_key((key, Lsn(l))) implies !filed.memtable.contains_key(
        (key, Lsn(l))) by {
            assert(v.layers[i].entries.contains_key((key, Lsn(l))));
        }
    }
    freezing_keeps_reads(filed, key, lsn, None);
    assert(w == filed || w == frozen(filed));
    lemma_not_held(v, k);
    assert(all_versions(filed) =~= all_versions(v).insert(k, m.version));
    history_depends_on_all_versions(v, key, lsn, Some((at, page)));
    history_depends_on_all_versions(filed, key, lsn, None);
    let bc = base_columns(Some((at, page)));
    let none = base_columns(None);
    let old_col = column(all_versions(v), key, lsn);
    let new_col = column(all_versions(filed), key, lsn);
    let a = bc.push(old_col);
    let b = none.push(new_col);
    assert forall|l: u64| l < all_positions() implies #[trigger] stacked(a, l) == stacked(b, l) by {
        assert(a.drop_last() =~= bc && b.drop_last() =~= none);
        assert(bc.drop_last() =~= Seq::empty());
        assert(stacked(none, l) =~= Seq::empty());
        assert(stacked(bc.drop_last(), l) =~= Seq::empty());
        assert(bc.last().contains_key(l) <==> l == at.0);
        assert(stacked(bc, l) =~= if l == at.0 {
            seq![(at, VersionV::Image(page))]
        } else {
            Seq::empty()
        });
        assert(a.last() == old_col && b.last() == new_col);
        assert(stacked(a, l) =~= stacked(b, l));
    }
    lemma_interleaved_same(a, b, all_positions());
    let h = history(w, key, lsn, None);
    lemma_holds(b, at.0, VersionV::Image(page), all_positions());
    let i = choose|i: int| 0 <= i < h.len() && #[trigger] h[i] == (at, VersionV::Image(page));
    lemma_last_base(h);
    assert(is_base_version(h[i].1));
}

/// What a column holds is in the weave.
proof fn lemma_holds(cols: Seq<Map<u64, VersionV>>, l: u64, x: VersionV, n: nat)
    requires
        l < n <= all_positions(),
        cols.len() > 0,
        cols.last().contains_key(l) && cols.last()[l] == x,
    ensures
        exists|i: int|
            0 <= i < crate::pageserver::lsnmap::interleaved(cols, n).len()
                && #[trigger] crate::pageserver::lsnmap::interleaved(cols, n)[i] == (Lsn(l), x),
    decreases n,
{
    let all = crate::pageserver::lsnmap::interleaved(cols, n);
    let before = crate::pageserver::lsnmap::interleaved(cols, (n - 1) as nat);
    let here = stacked(cols, (n - 1) as u64);
    assert(all == before + here);
    if l == n - 1 {
        assert(here.last() == (Lsn(l), x));
        assert(all[all.len() - 1] == (Lsn(l), x));
    } else {
        lemma_holds(cols, l, x, (n - 1) as nat);
        let i = choose|i: int| 0 <= i < before.len() && #[trigger] before[i] == (Lsn(l), x);
        assert(all[i] == (Lsn(l), x));
    }
}

// ---------------------------------------------------------------------------
// Layers
// ---------------------------------------------------------------------------

/// The ids of the layers grow, and are below the next one.
pub open spec fn ids_in_order(v: RepoV) -> bool {
    &&& forall|i: int, j: int|
        0 <= i < j < v.layers.len() ==> (#[trigger] v.layers[i]).id < (#[trigger] v.layers[j]).id
    &&& forall|i: int| 0 <= i < v.layers.len() ==> (#[trigger] v.layers[i]).id < v.next_layer_id
}

/// A new repository has its ids in order; and a batch of writes, a freeze, a
/// compaction and a note of a pushed layer keep them so, as long as the ids do
/// not run out.
pub proof fn layer_ids_stay_in_order(v: RepoV, mods: Seq<ModV>, horizon: Lsn, id: LayerId)
    requires
        ids_in_order(v),
        v.next_layer_id + mods.len() < u64::MAX,
    ensures
        ids_in_order(ingested(v, mods)),
        ingested(v, mods).next_layer_id <= v.next_layer_id + mods.len(),
        ids_in_order(frozen(v)),
        ids_in_order(compacted(v, horizon)),
        ids_in_order(RepoV { uploaded: v.uploaded.insert(id), ..v }),
    decreases mods.len(),
{
    if mods.len() > 0 {
        let front = mods.drop_last();
        layer_ids_stay_in_order(v, front, horizon, id);
        let u = ingested(v, front);
        let filed = filed_one(u, mods.last());
        assert(ids_in_order(filed));
        assert(ingested(v, mods) == filed || ingested(v, mods) == frozen(filed));
    }
}

/// A new repository has its ids in order.
pub proof fn new_ids_are_in_order(freeze_threshold: usize)
    ensures
        ids_in_order(empty_repo(freeze_threshold)),
{
}

/// What is pending are the layers not yet pushed, all of them and in their order;
/// where the ids are in order, no two of them have the same.
pub proof fn pending_layers_keep_their_order(v: RepoV)
    ensures
        pending(v) == v.layers.filter(|l: LayerV| !v.uploaded.contains(l.id)),
        ids_in_order(v) ==> forall|i: int, j: int|
            0 <= i < j < pending(v).len() ==> (#[trigger] pending(v)[i]).id < (
            #[trigger] pending(v)[j]).id,
{
    lemma_pending(v.layers, v.uploaded);
}

proof fn lemma_pending(layers: Seq<LayerV>, uploaded: Set<LayerId>)
    ensures
        not_in(layers, uploaded) == layers.filter(|l: LayerV| !uploaded.contains(l.id)),
        forall|i: int|
            0 <= i < not_in(layers, uploaded).len() ==> layers.contains(
                #[trigger] not_in(layers, uploaded)[i],
            ),
        (forall|i: int, j: int|
            0 <= i < j < layers.len() ==> (#[trigger] layers[i]).id < (#[trigger] layers[j]).id)
            ==> forall|i: int, j: int|
            0 <= i < j < not_in(layers, uploaded).len() ==> (#[trigger] not_in(
                layers,
                uploaded,
            )[i]).id < (#[trigger] not_in(layers, uploaded)[j]).id,
    decreases layers.len(),
{
    reveal(Seq::filter);
    if layers.len() > 0 {
        let front = layers.drop_last();
        lemma_pending(front, uploaded);
        let rest = not_in(front, uploaded);
        let now = not_in(layers, uploaded);
        assert forall|i: int| 0 <= i < now.len() implies layers.contains(#[trigger] now[i]) by {
            if i < rest.len() {
                assert(front.contains(rest[i]));
                let q = choose|q: int| 0 <= q < front.len() && front[q] == rest[i];
                assert(layers[q] == rest[i]);
            } else {
                assert(layers[layers.len() - 1] == now[i]);
            }
        }
        if forall|i: int, j: int|
            0 <= i < j < layers.len() ==> (#[trigger] layers[i]).id < (#[trigger] layers[j]).id {
            assert forall|i: int, j: int| 0 <= i < j < front.len() implies (#[trigger] front[i]).id
                < (#[trigger] front[j]).id by {
                assert(front[i] == layers[i] && front[j] == layers[j]);
            }
            assert forall|i: int, j: int| 0 <= i < j < now.len() implies (#[trigger] now[i]).id < (
            #[trigger] now[j]).id by {
                if j < rest.len() {
                    assert(rest[i].id < rest[j].id);
                } else {
                    assert(front.contains(rest[i]));
                    let q = choose|q: int| 0 <= q < front.len() && front[q] == rest[i];
                    assert(layers[q] == rest[i]);
                    assert(layers[layers.len() - 1] == now[j]);
                }
            }
        }
    }
}

} // verus!
