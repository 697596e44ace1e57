//! What reads of a repository keep: through freezing, later writes and
//! compaction.
//!
//! Positions are meant to be unique per write. Where a page has two versions at
//! one position, which of them is applied last depends on where they lie, so
//! freezing or compaction can change what is read; each law here leaves out just
//! the pages and positions of which that may be so.

use vstd::prelude::*;

use crate::common::lsn::Lsn;
use crate::common::page::{PageKey, RelTag, PAGE_SIZE};
use crate::pageserver::layer::{LayerId, LayerV, VersionsV};
use crate::pageserver::lsnmap::{
    all_positions, column, interleaved, lemma_interleaved_prefix, lemma_interleaved_same, newest,
    stacked, woven,
};
use crate::pageserver::page::{applied, edited, is_base_version, EditV, ModV, PageErrorV, VersionV};
use crate::pageserver::repository::{
    base_columns, compacted, frozen, history, ingested, ingested_one, layer_columns, grown, merged,
    native_page, not_in, pending, pruned, record_ingested, record_mods, rel_size, size_key,
    superseded, RepoV,
};
use crate::pageserver::walredo::{
    from_last_base, history_before_a_base_is_irrelevant, last_base, latest_image_is_the_page,
    lemma_last_base, lemma_last_base_at, natively, raw_records_are_not_skipped, replayed, RedoErrorV,
};
use crate::pageserver::waldecode::{decoded, restored, zeros, BlockV, WalDecodeErrorV};

verus! {

/// All versions that the repository holds.
pub open spec fn all_versions(v: RepoV) -> VersionsV {
    merged(v.layers).union_prefer_right(v.memtable)
}

/// No two layers hold a version of page `key` at one position up to `lsn`.
pub open spec fn layers_apart(layers: Seq<LayerV>, key: PageKey, lsn: Lsn) -> bool {
    forall|i: int, j: int, l: u64|
        0 <= i < j < layers.len() && l <= lsn.0 && #[trigger] layers[i].entries.contains_key(
            (key, Lsn(l)),
        ) ==> !(#[trigger] layers[j].entries.contains_key((key, Lsn(l))))
}

/// The memtable and a layer hold no version of page `key` at one position up to
/// `lsn`.
pub open spec fn memtable_apart(v: RepoV, key: PageKey, lsn: Lsn) -> bool {
    forall|i: int, l: u64|
        0 <= i < v.layers.len() && l <= lsn.0 && #[trigger] v.layers[i].entries.contains_key(
            (key, Lsn(l)),
        ) ==> !v.memtable.contains_key((key, Lsn(l)))
}

/// No layer holds a version of the page at the position.
pub open spec fn not_in_layers(layers: Seq<LayerV>, k: (PageKey, Lsn)) -> bool {
    forall|i: int| 0 <= i < layers.len() ==> !(#[trigger] layers[i].entries.contains_key(k))
}

/// What stands at a position in two rows of columns, one behind the other.
pub proof fn lemma_stacked_concat(a: Seq<Map<u64, VersionV>>, b: Seq<Map<u64, VersionV>>, l: u64)
    ensures
        stacked(a + b, l) == stacked(a, l) + stacked(b, l),
    decreases b.len(),
{
    if b.len() == 0 {
        assert(a + b =~= a);
        assert(stacked(a, l) + stacked(b, l) =~= stacked(a, l));
    } else {
        lemma_stacked_concat(a, b.drop_last(), l);
        assert((a + b).drop_last() =~= a + b.drop_last());
        assert((a + b).last() == b.last());
        assert(stacked(a + b, l) =~= stacked(a, l) + stacked(b, l));
    }
}

/// A key of the merged layers is a key of one of them.
pub proof fn lemma_merged_from(layers: Seq<LayerV>, k: (PageKey, Lsn))
    ensures
        merged(layers).contains_key(k) <==> exists|i: int|
            0 <= i < layers.len() && #[trigger] layers[i].entries.contains_key(k),
    decreases layers.len(),
{
    if layers.len() > 0 {
        let front = layers.drop_last();
        lemma_merged_from(front, k);
        if merged(layers).contains_key(k) {
            if layers.last().entries.contains_key(k) {
                assert(layers[layers.len() - 1].entries.contains_key(k));
            } else {
                let i = choose|i: int|
                    0 <= i < front.len() && #[trigger] front[i].entries.contains_key(k);
                assert(layers[i].entries.contains_key(k));
            }
        }
        if exists|i: int| 0 <= i < layers.len() && #[trigger] layers[i].entries.contains_key(k) {
            let i = choose|i: int|
                0 <= i < layers.len() && #[trigger] layers[i].entries.contains_key(k);
            if i < layers.len() - 1 {
                assert(front[i].entries.contains_key(k));
            }
        }
    }
}

/// What layers that lie apart hold at a position is what they hold merged.
proof fn lemma_layers_stacked(layers: Seq<LayerV>, key: PageKey, lsn: Lsn, l: u64)
    requires
        layers_apart(layers, key, lsn),
    ensures
        stacked(layer_columns(layers, key, lsn), l) == stacked(
            seq![column(merged(layers), key, lsn)],
            l,
        ),
    decreases layers.len(),
{
    let cols = layer_columns(layers, key, lsn);
    let one = seq![column(merged(layers), key, lsn)];
    assert(one.drop_last() =~= Seq::empty());
    assert(stacked(one.drop_last(), l) =~= Seq::empty());
    if layers.len() > 0 {
        let front = layers.drop_last();
        assert forall|i: int, j: int, q: u64|
            0 <= i < j < front.len() && q <= lsn.0 && #[trigger] front[i].entries.contains_key(
                (key, Lsn(q)),
            ) implies !(#[trigger] front[j].entries.contains_key((key, Lsn(q)))) by {
            assert(layers[i].entries.contains_key((key, Lsn(q))));
            assert(front[j] == layers[j]);
        }
        lemma_layers_stacked(front, key, lsn, l);
        let one_front = seq![column(merged(front), key, lsn)];
        assert(one_front.drop_last() =~= Seq::empty());
        assert(cols.drop_last() =~= layer_columns(front, key, lsn));
        assert(cols.last() == column(layers.last().entries, key, lsn));
        let k = (key, Lsn(l));
        lemma_merged_from(front, k);
        if l <= lsn.0 && layers.last().entries.contains_key(k) && merged(front).contains_key(k) {
            let i = choose|i: int| 0 <= i < front.len() && #[trigger] front[i].entries.contains_key(k);
            assert(layers[i].entries.contains_key(k));
            assert(layers[layers.len() - 1].entries.contains_key(k));
        }
        assert(stacked(cols, l) =~= stacked(one, l));
    } else {
        assert(stacked(cols, l) =~= Seq::empty());
        assert(!merged(layers).contains_key((key, Lsn(l))));
        assert(stacked(one, l) =~= Seq::empty());
    }
}

/// Where no layer holds a version, nothing is stacked.
proof fn lemma_nothing_stacked(layers: Seq<LayerV>, key: PageKey, lsn: Lsn, l: u64)
    requires
        l <= lsn.0 ==> not_in_layers(layers, (key, Lsn(l))),
    ensures
        stacked(layer_columns(layers, key, lsn), l) == Seq::<(Lsn, VersionV)>::empty(),
    decreases layers.len(),
{
    let cols = layer_columns(layers, key, lsn);
    if layers.len() > 0 {
        let front = layers.drop_last();
        if l <= lsn.0 {
            assert forall|i: int| 0 <= i < front.len() implies !(
            #[trigger] front[i].entries.contains_key((key, Lsn(l)))) by {
                assert(front[i] == layers[i]);
            }
            assert(!layers[layers.len() - 1].entries.contains_key((key, Lsn(l))));
        }
        lemma_nothing_stacked(front, key, lsn, l);
        assert(cols.drop_last() =~= layer_columns(front, key, lsn));
    }
    assert(stacked(cols, l) =~= Seq::empty());
}

/// The history of a page whose layers lie apart is that of the merged layers.
proof fn lemma_history_of_merged(v: RepoV, key: PageKey, lsn: Lsn, base: Option<(Lsn, Seq<u8>)>)
    requires
        layers_apart(v.layers, key, lsn),
    ensures
        history(v, key, lsn, base) == woven(
            base_columns(base).push(column(v.memtable, key, lsn)).push(
                column(merged(v.layers), key, lsn),
            ),
        ),
{
    let head = base_columns(base).push(column(v.memtable, key, lsn));
    let lc = layer_columns(v.layers, key, lsn);
    let all = column(merged(v.layers), key, lsn);
    assert forall|l: u64| l < all_positions() implies #[trigger] stacked(head + lc, l) == stacked(
        head.push(all),
        l,
    ) by {
        lemma_stacked_concat(head, lc, l);
        lemma_stacked_concat(head, seq![all], l);
        lemma_layers_stacked(v.layers, key, lsn, l);
        assert(head + seq![all] =~= head.push(all));
    }
    lemma_interleaved_same(head + lc, head.push(all), all_positions());
}

/// Where a page has one version at each position, its history is that of all
/// versions, wherever they lie.
pub proof fn history_depends_on_all_versions(
    v: RepoV,
    key: PageKey,
    lsn: Lsn,
    base: Option<(Lsn, Seq<u8>)>,
)
    requires
        layers_apart(v.layers, key, lsn),
        memtable_apart(v, key, lsn),
    ensures
        history(v, key, lsn, base) == woven(
            base_columns(base).push(column(all_versions(v), key, lsn)),
        ),
{
    let bc = base_columns(base);
    let mem = column(v.memtable, key, lsn);
    let old_ones = column(merged(v.layers), key, lsn);
    let all = column(all_versions(v), key, lsn);
    lemma_history_of_merged(v, key, lsn, base);
    assert forall|l: u64| l < all_positions() implies #[trigger] stacked(
        bc.push(mem).push(old_ones),
        l,
    ) == stacked(bc.push(all), l) by {
        assert(bc.push(mem).push(old_ones).drop_last() =~= bc.push(mem));
        assert(bc.push(mem).drop_last() =~= bc);
        assert(bc.push(all).drop_last() =~= bc);
        let k = (key, Lsn(l));
        lemma_merged_from(v.layers, k);
        if l <= lsn.0 && merged(v.layers).contains_key(k) {
            let i = choose|i: int|
                0 <= i < v.layers.len() && #[trigger] v.layers[i].entries.contains_key(k);
            assert(!v.memtable.contains_key(k));
        }
        assert(stacked(bc.push(mem), l) == (if mem.contains_key(l) {
            stacked(bc, l).push((Lsn(l), mem[l]))
        } else {
            stacked(bc, l)
        }));
        assert(stacked(bc.push(mem).push(old_ones), l) =~= stacked(bc.push(all), l));
    }
    lemma_interleaved_same(bc.push(mem).push(old_ones), bc.push(all), all_positions());
}

/// Freezing changes no read: whatever the backend, it is handed the same
/// history.
pub proof fn freezing_keeps_reads(
    v: RepoV,
    key: PageKey,
    lsn: Lsn,
    base: Option<(Lsn, Seq<u8>)>,
)
    requires
        memtable_apart(v, key, lsn),
    ensures
        history(frozen(v), key, lsn, base) == history(v, key, lsn, base),
        memtable_apart(frozen(v), key, lsn),
{
    let w = frozen(v);
    if v.memtable.dom().len() != 0 {
        let bc = base_columns(base);
        let mem = column(v.memtable, key, lsn);
        let lc = layer_columns(v.layers, key, lsn);
        let none = column(w.memtable, key, lsn);
        let lw = layer_columns(w.layers, key, lsn);
        assert(lw =~= lc.push(mem));
        assert forall|l: u64| l < all_positions() implies #[trigger] stacked(bc.push(none) + lw, l)
            == stacked(bc.push(mem) + lc, l) by {
            lemma_stacked_concat(bc.push(mem), lc, l);
            lemma_stacked_concat(bc.push(none), lw, l);
            assert(bc.push(mem).drop_last() =~= bc);
            assert(bc.push(none).drop_last() =~= bc);
            assert(lw.drop_last() =~= lc);
            if mem.contains_key(l) {
                lemma_nothing_stacked(v.layers, key, lsn, l);
            }
            assert(stacked(bc.push(none), l) + stacked(lw, l) =~= stacked(bc.push(mem), l)
                + stacked(lc, l));
        }
        lemma_interleaved_same(bc.push(none) + lw, bc.push(mem) + lc, all_positions());
    }
}

/// The versions with those of the modifications filed, in order.
pub open spec fn with_mods(m: VersionsV, mods: Seq<ModV>) -> VersionsV
    decreases mods.len(),
{
    if mods.len() == 0 {
        m
    } else {
        with_mods(m, mods.drop_last()).insert(
            (mods.last().key, mods.last().lsn),
            mods.last().version,
        )
    }
}

/// A batch of writes adds its versions, and loses none but those it writes anew.
pub proof fn writes_add_versions(v: RepoV, mods: Seq<ModV>)
    ensures
        all_versions(ingested(v, mods)) == with_mods(all_versions(v), mods),
    decreases mods.len(),
{
    if mods.len() > 0 {
        let m = mods.last();
        let u = ingested(v, mods.drop_last());
        writes_add_versions(v, mods.drop_last());
        let filed = filed_one(u, m);
        assert(all_versions(filed) =~= all_versions(u).insert((m.key, m.lsn), m.version));
        let w = frozen(filed);
        if filed.memtable.dom().len() != 0 {
            assert(w.layers.drop_last() =~= filed.layers);
            assert(all_versions(w) =~= all_versions(filed));
        }
        assert(ingested(v, mods) == filed || ingested(v, mods) == w);
    }
}

/// The repository with one modification filed, before its memtable is frozen.
pub open spec fn filed_one(v: RepoV, m: ModV) -> RepoV {
    RepoV {
        memtable: v.memtable.insert((m.key, m.lsn), m.version),
        rel_sizes: ingested_one(v, m).rel_sizes,
        ..v
    }
}

proof fn lemma_later_write(
    v: RepoV,
    m: ModV,
    key: PageKey,
    lsn: Lsn,
    base: Option<(Lsn, Seq<u8>)>,
)
    requires
        memtable_apart(v, key, lsn),
        m.key != key || m.lsn.0 > lsn.0,
    ensures
        history(ingested_one(v, m), key, lsn, base) == history(v, key, lsn, base),
        memtable_apart(ingested_one(v, m), key, lsn),
{
    let filed = filed_one(v, m);
    assert(column(filed.memtable, key, lsn) =~= column(v.memtable, key, lsn));
    assert(memtable_apart(filed, key, lsn));
    freezing_keeps_reads(filed, key, lsn, base);
    assert(ingested_one(v, m) == filed || ingested_one(v, m) == frozen(filed));
}

/// Reads as of a position do not see what is written later: writes, each to
/// another page or behind `lsn`, change no read of `key` at `lsn`.
pub proof fn later_writes_are_invisible(
    v: RepoV,
    mods: Seq<ModV>,
    key: PageKey,
    lsn: Lsn,
    base: Option<(Lsn, Seq<u8>)>,
)
    requires
        memtable_apart(v, key, lsn),
        forall|i: int| 0 <= i < mods.len() ==> (#[trigger] mods[i]).key != key || mods[i].lsn.0 > lsn.0,
    ensures
        history(ingested(v, mods), key, lsn, base) == history(v, key, lsn, base),
        memtable_apart(ingested(v, mods), key, lsn),
    decreases mods.len(),
{
    if mods.len() > 0 {
        let front = mods.drop_last();
        assert forall|i: int| 0 <= i < front.len() implies (#[trigger] front[i]).key != key
            || front[i].lsn.0 > lsn.0 by {
            assert(front[i] == mods[i]);
        }
        later_writes_are_invisible(v, front, key, lsn, base);
        assert(mods[mods.len() - 1].key != key || mods[mods.len() - 1].lsn.0 > lsn.0);
        lemma_later_write(ingested(v, front), mods.last(), key, lsn, base);
    }
}

/// Positions at which nothing is held add nothing.
pub proof fn lemma_nothing_above(cols: Seq<Map<u64, VersionV>>, a: nat, b: nat)
    requires
        a <= b <= all_positions(),
        forall|l: u64| a <= l < b ==> #[trigger] stacked(cols, l) == Seq::<(Lsn, VersionV)>::empty(),
    ensures
        interleaved(cols, a) == interleaved(cols, b),
    decreases b,
{
    if a < b {
        lemma_nothing_above(cols, a, (b - 1) as nat);
        assert(stacked(cols, (b - 1) as u64) == Seq::<(Lsn, VersionV)>::empty());
        assert(interleaved(cols, b) =~= interleaved(cols, (b - 1) as nat));
    }
}

/// What the store holds of a page at a position: nothing but the memtable's
/// version, where no layer holds one.
proof fn lemma_stacked_history(v: RepoV, key: PageKey, lsn: Lsn, l: u64)
    requires
        l <= lsn.0 ==> not_in_layers(v.layers, (key, Lsn(l))),
    ensures
        ({
            let mem = column(v.memtable, key, lsn);
            stacked(base_columns(None).push(mem) + layer_columns(v.layers, key, lsn), l) == (
            if mem.contains_key(l) {
                seq![(Lsn(l), mem[l])]
            } else {
                Seq::empty()
            })
        }),
{
    let mem = column(v.memtable, key, lsn);
    let bc = base_columns(None);
    let lc = layer_columns(v.layers, key, lsn);
    lemma_stacked_concat(bc.push(mem), lc, l);
    lemma_nothing_stacked(v.layers, key, lsn, l);
    assert(bc.push(mem).drop_last() =~= bc);
    assert(stacked(bc, l) =~= Seq::empty());
    assert(stacked(bc.push(mem), l) + stacked(lc, l) =~= stacked(bc.push(mem), l));
    assert(stacked(bc.push(mem), l) =~= (if mem.contains_key(l) {
        seq![(Lsn(l), mem[l])]
    } else {
        Seq::empty()
    }));
}

/// The history up to a position at which only the memtable holds a version ends
/// with that version.
proof fn lemma_history_end(v: RepoV, key: PageKey, lsn: Lsn)
    requires
        not_in_layers(v.layers, (key, lsn)),
    ensures
        ({
            let mem = column(v.memtable, key, lsn);
            let cols = base_columns(None).push(mem) + layer_columns(v.layers, key, lsn);
            history(v, key, lsn, None) == interleaved(cols, lsn.0 as nat) + (
            if mem.contains_key(lsn.0) {
                seq![(lsn, mem[lsn.0])]
            } else {
                Seq::empty()
            })
        }),
{
    let mem = column(v.memtable, key, lsn);
    let cols = base_columns(None).push(mem) + layer_columns(v.layers, key, lsn);
    assert forall|l: u64| lsn.0 + 1 <= l < all_positions() implies #[trigger] stacked(cols, l)
        == Seq::<(Lsn, VersionV)>::empty() by {
        lemma_stacked_history(v, key, lsn, l);
    }
    lemma_nothing_above(cols, lsn.0 as nat + 1, all_positions());
    lemma_stacked_history(v, key, lsn, lsn.0);
}

/// The repository holds no version of the page at the position.
pub open spec fn not_held(v: RepoV, k: (PageKey, Lsn)) -> bool {
    !v.memtable.contains_key(k) && not_in_layers(v.layers, k)
}

/// Layer `i`, and no other, holds a version of the page at the position: `x`.
pub open spec fn held_by(layers: Seq<LayerV>, i: int, k: (PageKey, Lsn), x: VersionV) -> bool {
    &&& layers[i].entries.contains_key(k) && layers[i].entries[k] == x
    &&& forall|j: int|
        0 <= j < layers.len() && j != i ==> !(#[trigger] layers[j].entries.contains_key(k))
}

/// One place of the repository, and no other, holds a version of the page at the
/// position: `x`.
pub open spec fn held_once(v: RepoV, k: (PageKey, Lsn), x: VersionV) -> bool {
    if v.memtable.contains_key(k) {
        v.memtable[k] == x && not_in_layers(v.layers, k)
    } else {
        exists|i: int| 0 <= i < v.layers.len() && #[trigger] held_by(v.layers, i, k, x)
    }
}

/// What layers hold at a position at which only layer `i` holds a version.
proof fn lemma_one_stacked(layers: Seq<LayerV>, key: PageKey, lsn: Lsn, i: int, x: VersionV)
    requires
        0 <= i < layers.len(),
        held_by(layers, i, (key, lsn), x),
    ensures
        stacked(layer_columns(layers, key, lsn), lsn.0) == seq![(lsn, x)],
    decreases layers.len(),
{
    let k = (key, lsn);
    let cols = layer_columns(layers, key, lsn);
    let front = layers.drop_last();
    assert(cols.drop_last() =~= layer_columns(front, key, lsn));
    assert(cols.last() == column(layers.last().entries, key, lsn));
    if i == layers.len() - 1 {
        assert(not_in_layers(front, k)) by {
            assert forall|j: int| 0 <= j < front.len() implies !(
            #[trigger] front[j].entries.contains_key(k)) by {
                assert(front[j] == layers[j]);
            }
        }
        lemma_nothing_stacked(front, key, lsn, lsn.0);
    } else {
        assert(front[i] == layers[i]);
        assert forall|j: int| 0 <= j < front.len() && j != i implies !(
        #[trigger] front[j].entries.contains_key(k)) by {
            assert(front[j] == layers[j]);
        }
        lemma_one_stacked(front, key, lsn, i, x);
        assert(!layers[layers.len() - 1].entries.contains_key(k));
    }
    assert(stacked(cols, lsn.0) =~= seq![(lsn, x)]);
}

/// A version that one place alone holds ends the history of its page at its
/// position.
pub(crate) proof fn lemma_held_once_comes_last(v: RepoV, key: PageKey, lsn: Lsn, x: VersionV)
    requires
        held_once(v, (key, lsn), x),
    ensures
        history(v, key, lsn, None).len() > 0,
        history(v, key, lsn, None).last() == (lsn, x),
{
    let k = (key, lsn);
    if v.memtable.contains_key(k) {
        lemma_history_end(v, key, lsn);
    } else {
        let i = choose|i: int| 0 <= i < v.layers.len() && #[trigger] held_by(v.layers, i, k, x);
        let mem = column(v.memtable, key, lsn);
        let bc = base_columns(None);
        let lc = layer_columns(v.layers, key, lsn);
        let cols = bc.push(mem) + lc;
        assert(bc.push(mem).drop_last() =~= bc);
        assert forall|l: u64| lsn.0 + 1 <= l < all_positions() implies #[trigger] stacked(cols, l)
            == Seq::<(Lsn, VersionV)>::empty() by {
            lemma_stacked_history(v, key, lsn, l);
        }
        lemma_nothing_above(cols, lsn.0 as nat + 1, all_positions());
        lemma_stacked_concat(bc.push(mem), lc, lsn.0);
        lemma_one_stacked(v.layers, key, lsn, i, x);
        assert(stacked(bc, lsn.0) =~= Seq::empty());
        assert(stacked(bc.push(mem), lsn.0) =~= Seq::empty());
        assert(stacked(cols, lsn.0) =~= seq![(lsn, x)]);
        assert(history(v, key, lsn, None) == interleaved(cols, lsn.0 as nat) + seq![(lsn, x)]);
    }
}

/// Freezing moves a version, and adds none.
proof fn lemma_frozen_holds(v: RepoV, k: (PageKey, Lsn), x: VersionV)
    ensures
        held_once(v, k, x) ==> held_once(frozen(v), k, x),
        not_held(v, k) ==> not_held(frozen(v), k),
{
    let w = frozen(v);
    if v.memtable.dom().len() != 0 {
        let n = v.layers.len() as int;
        assert(w.layers[n].entries == v.memtable);
        assert forall|j: int| 0 <= j < n implies w.layers[j] == v.layers[j] by {}
        if held_once(v, k, x) {
            if v.memtable.contains_key(k) {
                assert(held_by(w.layers, n, k, x)) by {
                    assert forall|j: int| 0 <= j < w.layers.len() && j != n implies !(
                    #[trigger] w.layers[j].entries.contains_key(k)) by {
                        assert(!v.layers[j].entries.contains_key(k));
                    }
                }
            } else {
                let i = choose|i: int| 0 <= i < n && #[trigger] held_by(v.layers, i, k, x);
                assert(held_by(w.layers, i, k, x)) by {
                    assert forall|j: int| 0 <= j < w.layers.len() && j != i implies !(
                    #[trigger] w.layers[j].entries.contains_key(k)) by {
                        if j < n {
                            assert(!v.layers[j].entries.contains_key(k));
                        }
                    }
                }
            }
        }
        if not_held(v, k) {
            assert forall|j: int| 0 <= j < w.layers.len() implies !(
            #[trigger] w.layers[j].entries.contains_key(k)) by {
                if j < n {
                    assert(!v.layers[j].entries.contains_key(k));
                }
            }
        }
    }
}

/// A write adds its version; one of another page or position adds nothing here.
proof fn lemma_write_holds(v: RepoV, m: ModV, k: (PageKey, Lsn), x: VersionV)
    ensures
        (m.key, m.lsn) == k && not_in_layers(v.layers, k) ==> held_once(
            ingested_one(v, m),
            k,
            m.version,
        ),
        (m.key, m.lsn) != k && held_once(v, k, x) ==> held_once(ingested_one(v, m), k, x),
        (m.key, m.lsn) != k && not_held(v, k) ==> not_held(ingested_one(v, m), k),
{
    let filed = filed_one(v, m);
    assert(ingested_one(v, m) == filed || ingested_one(v, m) == frozen(filed));
    lemma_frozen_holds(filed, k, x);
    lemma_frozen_holds(filed, k, m.version);
}

proof fn lemma_not_held_after(v: RepoV, mods: Seq<ModV>, k: (PageKey, Lsn))
    requires
        not_held(v, k),
        forall|j: int| 0 <= j < mods.len() ==> ((#[trigger] mods[j]).key, mods[j].lsn) != k,
    ensures
        not_held(ingested(v, mods), k),
    decreases mods.len(),
{
    if mods.len() > 0 {
        let front = mods.drop_last();
        assert forall|j: int| 0 <= j < front.len() implies ((#[trigger] front[j]).key, front[j].lsn)
            != k by {
            assert(front[j] == mods[j]);
        }
        lemma_not_held_after(v, front, k);
        assert((mods[mods.len() - 1].key, mods[mods.len() - 1].lsn) != k);
        lemma_write_holds(ingested(v, front), mods.last(), k, mods.last().version);
    }
}

/// Of a batch that writes a page at a position once, the repository holds that
/// version once.
pub(crate) proof fn lemma_held_after(v: RepoV, mods: Seq<ModV>, i: int)
    requires
        0 <= i < mods.len(),
        not_held(v, (mods[i].key, mods[i].lsn)),
        forall|j: int|
            0 <= j < mods.len() && j != i ==> ((#[trigger] mods[j]).key, mods[j].lsn) != (
                mods[i].key,
                mods[i].lsn,
            ),
    ensures
        held_once(ingested(v, mods), (mods[i].key, mods[i].lsn), mods[i].version),
    decreases mods.len(),
{
    let k = (mods[i].key, mods[i].lsn);
    let front = mods.drop_last();
    let u = ingested(v, front);
    assert forall|j: int| 0 <= j < front.len() && j != i implies ((#[trigger] front[j]).key, front[j].lsn)
        != k by {
        assert(front[j] == mods[j]);
    }
    if i == mods.len() - 1 {
        lemma_not_held_after(v, front, k);
    } else {
        assert(front[i] == mods[i]);
        lemma_held_after(v, front, i);
        assert((mods[mods.len() - 1].key, mods[mods.len() - 1].lsn) != k);
    }
    lemma_write_holds(u, mods.last(), k, mods[i].version);
}

/// A write at a position at which its page has no version adds that version to
/// the page's history at that position, and nothing else.
proof fn lemma_history_after_write(v: RepoV, m: ModV)
    requires
        memtable_apart(v, m.key, m.lsn),
        not_in_layers(v.layers, (m.key, m.lsn)),
        !v.memtable.contains_key((m.key, m.lsn)),
    ensures
        history(ingested_one(v, m), m.key, m.lsn, None) == history(v, m.key, m.lsn, None).push(
            (m.lsn, m.version),
        ),
{
    let key = m.key;
    let lsn = m.lsn;
    let filed = filed_one(v, m);
    let mem = column(v.memtable, key, lsn);
    let mem2 = column(filed.memtable, key, lsn);
    let lc = layer_columns(v.layers, key, lsn);
    let bc = base_columns(None);
    let a = bc.push(mem) + lc;
    let b = bc.push(mem2) + lc;
    assert forall|l: u64| l < lsn.0 implies #[trigger] stacked(b, l) == stacked(a, l) by {
        lemma_stacked_concat(bc.push(mem), lc, l);
        lemma_stacked_concat(bc.push(mem2), lc, l);
        assert(bc.push(mem).drop_last() =~= bc);
        assert(bc.push(mem2).drop_last() =~= bc);
        assert(mem2.contains_key(l) <==> mem.contains_key(l));
    }
    lemma_interleaved_same(b, a, lsn.0 as nat);
    lemma_history_end(v, key, lsn);
    lemma_history_end(filed, key, lsn);
    assert(history(filed, key, lsn, None) =~= history(v, key, lsn, None).push((lsn, m.version)));
    assert(memtable_apart(filed, key, lsn)) by {
        assert forall|i: int, l: u64|
            0 <= i < filed.layers.len() && l <= lsn.0
                && #[trigger] filed.layers[i].entries.contains_key((key, Lsn(l))) implies !filed.memtable.contains_key(
            (key, Lsn(l)),
        ) by {
            assert(v.layers[i].entries.contains_key((key, Lsn(l))));
        }
    }
    freezing_keeps_reads(filed, key, lsn, None);
    assert(ingested_one(v, m) == filed || ingested_one(v, m) == frozen(filed));
}

/// A page image that was written is read back at its position.
pub proof fn written_image_is_read_back(v: RepoV, m: ModV, img: Seq<u8>)
    requires
        not_in_layers(v.layers, (m.key, m.lsn)),
        m.version == VersionV::Image(img),
        img.len() == PAGE_SIZE,
    ensures
        native_page(ingested_one(v, m), m.key, m.lsn, None) == Ok::<
            Option<Seq<u8>>,
            PageErrorV,
        >(Some(img)),
{
    lemma_write_holds(v, m, (m.key, m.lsn), m.version);
    lemma_held_once_comes_last(ingested_one(v, m), m.key, m.lsn, m.version);
    latest_image_is_the_page(history(ingested_one(v, m), m.key, m.lsn, None), img);
}

/// The page that a block of a record is.
pub open spec fn block_key(b: BlockV) -> PageKey {
    PageKey { rel: b.rel, block: b.blkno }
}

/// A full-page image in the WAL is read back at its record's position: the block
/// that the image restores to, where the record touches the block once.
pub proof fn wal_image_is_read_back(v: RepoV, lsn: Lsn, raw: Seq<u8>, i: int, page: Seq<u8>)
    requires
        decoded(lsn, raw) is Ok,
        ({
            let d = decoded(lsn, raw)->Ok_0;
            &&& 0 <= i < d.blocks.len()
            &&& d.blocks[i].image is Some
            &&& restored(d.blocks[i].image->0) == Ok::<Seq<u8>, WalDecodeErrorV>(page)
            &&& not_held(v, (block_key(d.blocks[i]), lsn))
            &&& forall|j: int|
                0 <= j < d.blocks.len() && j != i ==> block_key(#[trigger] d.blocks[j])
                    != block_key(d.blocks[i])
        }),
    ensures
        record_ingested(v, lsn, raw) matches Ok(w) && native_page(
            w,
            block_key(decoded(lsn, raw)->Ok_0.blocks[i]),
            lsn,
            None,
        ) == Ok::<Option<Seq<u8>>, PageErrorV>(Some(page)),
{
    let d = decoded(lsn, raw)->Ok_0;
    let mods = record_mods(d, raw);
    let key = block_key(d.blocks[i]);
    assert(d.lsn == lsn);
    assert forall|j: int| 0 <= j < mods.len() && j != i implies ((#[trigger] mods[j]).key, mods[j].lsn)
        != (mods[i].key, mods[i].lsn) by {
        assert(block_key(d.blocks[j]) != key);
    }
    lemma_held_after(v, mods, i);
    lemma_held_once_comes_last(ingested(v, mods), key, lsn, VersionV::Image(page));
    latest_image_is_the_page(history(ingested(v, mods), key, lsn, None), page);
}

/// A change that the WAL gives without an image is not dropped: as of its
/// record's position the native backend gives no page of the block.
pub proof fn wal_change_is_not_dropped(v: RepoV, lsn: Lsn, raw: Seq<u8>, i: int)
    requires
        decoded(lsn, raw) is Ok,
        ({
            let d = decoded(lsn, raw)->Ok_0;
            &&& 0 <= i < d.blocks.len()
            &&& d.blocks[i].image is None
            &&& not_held(v, (block_key(d.blocks[i]), lsn))
            &&& forall|j: int|
                0 <= j < d.blocks.len() && j != i ==> block_key(#[trigger] d.blocks[j])
                    != block_key(d.blocks[i])
        }),
    ensures
        record_ingested(v, lsn, raw) matches Ok(w) && !(native_page(
            w,
            block_key(decoded(lsn, raw)->Ok_0.blocks[i]),
            lsn,
            None,
        ) matches Ok(Some(_))),
{
    let d = decoded(lsn, raw)->Ok_0;
    let mods = record_mods(d, raw);
    let key = block_key(d.blocks[i]);
    assert(d.lsn == lsn);
    assert forall|j: int| 0 <= j < mods.len() && j != i implies ((#[trigger] mods[j]).key, mods[j].lsn)
        != (mods[i].key, mods[i].lsn) by {
        assert(block_key(d.blocks[j]) != key);
    }
    lemma_held_after(v, mods, i);
    lemma_held_once_comes_last(ingested(v, mods), key, lsn, mods[i].version);
    let h = history(ingested(v, mods), key, lsn, None);
    lemma_last_base(h);
    raw_records_are_not_skipped(h, h.len() - 1);
}

/// Replaying one version more.
proof fn lemma_replayed_push(page: Seq<u8>, s: Seq<(Lsn, VersionV)>, x: (Lsn, VersionV))
    requires
        !(x.1 is WalRecord),
    ensures
        replayed(page, s.push(x)) == (match replayed(page, s) {
            Err(e) => Err(e),
            Ok(p) => match applied(p, x.1) {
                (_, Some(e)) => Err(RedoErrorV::Apply(e)),
                (q, None) => Ok(q),
            },
        }),
    decreases s.len(),
{
    let t = s.push(x);
    if s.len() == 0 {
        assert(t[0] == x);
        assert(t.skip(1).len() == 0);
        assert(replayed(page, s) == Ok::<Seq<u8>, RedoErrorV>(page));
        match applied(page, x.1) {
            (_, Some(e)) => {},
            (q, None) => {
                assert(replayed(q, t.skip(1)) == Ok::<Seq<u8>, RedoErrorV>(q));
            },
        }
    } else {
        assert(t[0] == s[0]);
        assert(t.skip(1) =~= s.skip(1).push(x));
        if !(s[0].1 is WalRecord) {
            match applied(page, s[0].1) {
                (_, Some(e)) => {},
                (p, None) => {
                    lemma_replayed_push(p, s.skip(1), x);
                },
            }
        }
    }
}

/// A delta that was written is read as its edits over the page before it.
pub proof fn written_delta_edits_the_page(
    v: RepoV,
    m: ModV,
    edits: Seq<EditV>,
    page: Seq<u8>,
)
    requires
        memtable_apart(v, m.key, m.lsn),
        not_in_layers(v.layers, (m.key, m.lsn)),
        !v.memtable.contains_key((m.key, m.lsn)),
        m.version == VersionV::Delta(edits),
        native_page(v, m.key, m.lsn, None) == Ok::<Option<Seq<u8>>, PageErrorV>(Some(page)),
    ensures
        native_page(ingested_one(v, m), m.key, m.lsn, None) == (match edited(page, edits) {
            (_, Some(e)) => Err::<Option<Seq<u8>>, PageErrorV>(e),
            (q, None) => Ok(Some(q)),
        }),
{
    lemma_history_after_write(v, m);
    let h = history(v, m.key, m.lsn, None);
    let x = (m.lsn, m.version);
    let t = h.push(x);
    lemma_last_base(h);
    let b = last_base(h);
    assert forall|i: int| b < i < t.len() implies !is_base_version((#[trigger] t[i]).1) by {
        if i < h.len() {
            assert(t[i] == h[i]);
        }
    }
    assert(b >= 0 ==> t[b] == h[b]);
    lemma_last_base_at(t, b);
    assert(t.skip(b) =~= h.skip(b).push(x));
    lemma_replayed_push(zeros(PAGE_SIZE as int), h.skip(b), x);
}

/// The position of the latest base of `key` in `m` below `n`.
spec fn base_below(m: VersionsV, key: PageKey, n: nat) -> Option<u64>
    decreases n,
{
    if n == 0 {
        None
    } else if m.contains_key((key, Lsn((n - 1) as u64))) && is_base_version(
        m[(key, Lsn((n - 1) as u64))],
    ) {
        Some((n - 1) as u64)
    } else {
        base_below(m, key, (n - 1) as nat)
    }
}

proof fn lemma_base_below(m: VersionsV, key: PageKey, n: nat)
    requires
        n <= all_positions(),
    ensures
        base_below(m, key, n) matches Some(b) ==> b < n && m.contains_key((key, Lsn(b)))
            && is_base_version(m[(key, Lsn(b))]),
        forall|l: u64|
            l < n && #[trigger] m.contains_key((key, Lsn(l))) && is_base_version(m[(key, Lsn(l))])
                ==> (base_below(m, key, n) matches Some(b) && l <= b),
    decreases n,
{
    if n > 0 {
        lemma_base_below(m, key, (n - 1) as nat);
    }
}

/// Columns that agree from `b` on have the same tail.
proof fn lemma_same_tail(
    a: Seq<Map<u64, VersionV>>,
    c: Seq<Map<u64, VersionV>>,
    b: nat,
    n: nat,
)
    requires
        b <= n <= all_positions(),
        forall|l: u64| b <= l < n ==> #[trigger] stacked(a, l) == stacked(c, l),
    ensures
        interleaved(a, n).skip(interleaved(a, b).len() as int) == interleaved(c, n).skip(
            interleaved(c, b).len() as int,
        ),
        interleaved(a, b).len() <= interleaved(a, n).len(),
        interleaved(c, b).len() <= interleaved(c, n).len(),
    decreases n,
{
    lemma_interleaved_prefix(a, b, n);
    lemma_interleaved_prefix(c, b, n);
    let pa = interleaved(a, b).len() as int;
    let pc = interleaved(c, b).len() as int;
    if b == n {
        assert(interleaved(a, n).skip(pa) =~= interleaved(c, n).skip(pc));
    } else {
        lemma_same_tail(a, c, b, (n - 1) as nat);
        assert(stacked(a, (n - 1) as u64) == stacked(c, (n - 1) as u64));
        assert(interleaved(a, n).skip(pa) =~= interleaved(a, (n - 1) as nat).skip(pa) + stacked(
            a,
            (n - 1) as u64,
        ));
        assert(interleaved(c, n).skip(pc) =~= interleaved(c, (n - 1) as nat).skip(pc) + stacked(
            c,
            (n - 1) as u64,
        ));
    }
}

/// What lies before a base does not matter: columns that agree from `b` on, the
/// last of which holds a base at `b`, come to the same page.
proof fn lemma_agree_from_base(
    head: Seq<Map<u64, VersionV>>,
    x: Map<u64, VersionV>,
    y: Map<u64, VersionV>,
    b: u64,
)
    requires
        x.contains_key(b),
        is_base_version(x[b]),
        forall|l: u64| b <= l ==> (#[trigger] x.contains_key(l) <==> y.contains_key(l)),
        forall|l: u64| b <= l && x.contains_key(l) ==> #[trigger] x[l] == y[l],
    ensures
        natively(woven(head.push(x))) == natively(woven(head.push(y))),
        from_last_base(woven(head.push(x))) == from_last_base(woven(head.push(y))),
{
    let a = head.push(x);
    let c = head.push(y);
    assert(a.drop_last() =~= head && c.drop_last() =~= head);
    assert forall|l: u64| b <= l < all_positions() implies #[trigger] stacked(a, l) == stacked(c, l) by {
        assert(x.contains_key(l) <==> y.contains_key(l));
        if x.contains_key(l) {
            assert(x[l] == y[l]);
        }
    }
    lemma_same_tail(a, c, b as nat, all_positions());
    let wa = woven(a);
    let wc = woven(c);
    let pa = interleaved(a, b as nat).len() as int;
    let pc = interleaved(c, b as nat).len() as int;
    let tail = wa.skip(pa);
    let here = stacked(a, b);
    lemma_interleaved_prefix(a, b as nat + 1, all_positions());
    let upto = interleaved(a, b as nat + 1);
    assert(upto == interleaved(a, b as nat) + here);
    let j = here.len() - 1;
    assert(here[j] == (Lsn(b), x[b]));
    assert(upto[pa + j] == here[j]);
    assert(wa.take(upto.len() as int)[pa + j] == wa[pa + j]);
    assert(tail[j] == wa[pa + j]);
    lemma_interleaved_prefix(c, b as nat, all_positions());
    assert(pa + j < upto.len() <= wa.len());
    assert(wc.skip(pc) == tail);
    assert(tail.len() == wa.len() - pa && wc.skip(pc).len() == wc.len() - pc);
    assert(wc.skip(pc)[j] == wc[pc + j]);
    history_before_a_base_is_irrelevant(wa, pa + j);
    history_before_a_base_is_irrelevant(wc, pc + j);
    assert(wa.skip(pa + j) =~= tail.skip(j));
    assert(wc.skip(pc + j) =~= tail.skip(j));
}

/// One layer merges to what it holds.
proof fn lemma_merged_one(l: LayerV)
    ensures
        merged(seq![l]) == l.entries,
{
    assert(seq![l].drop_last() =~= Seq::empty());
    assert(merged(seq![l].drop_last()) =~= Map::empty());
    assert(merged(seq![l]) =~= l.entries);
}

/// Layers hold finitely many versions.
pub open spec fn finite_layers(layers: Seq<LayerV>) -> bool {
    forall|i: int| 0 <= i < layers.len() ==> (#[trigger] layers[i]).entries.dom().finite()
}

/// Merged, they hold finitely many too.
pub proof fn lemma_merged_finite(layers: Seq<LayerV>)
    requires
        finite_layers(layers),
    ensures
        merged(layers).dom().finite(),
    decreases layers.len(),
{
    if layers.len() > 0 {
        let front = layers.drop_last();
        assert forall|i: int| 0 <= i < front.len() implies (#[trigger] front[i]).entries.dom().finite() by {
            assert(front[i] == layers[i]);
        }
        lemma_merged_finite(front);
        assert(layers[layers.len() - 1].entries.dom().finite());
        assert(merged(layers).dom() =~= merged(front).dom().union(layers.last().entries.dom()));
    }
}

/// Compaction leaves the layers merged and pruned.
pub(crate) proof fn lemma_compacted_layers(v: RepoV, horizon: Lsn)
    requires
        v.layers.len() > 0,
        finite_layers(v.layers),
    ensures
        merged(compacted(v, horizon).layers) == pruned(merged(v.layers), horizon),
        finite_layers(compacted(v, horizon).layers),
{
    let w = compacted(v, horizon);
    let left = pruned(merged(v.layers), horizon);
    lemma_merged_finite(v.layers);
    assert(left.dom().subset_of(merged(v.layers).dom()));
    vstd::set_lib::lemma_len_subset(left.dom(), merged(v.layers).dom());
    if w.layers.len() > 0 {
        lemma_merged_one(w.layers[0]);
    } else {
        assert(left.dom() =~= Set::empty());
        assert(merged(w.layers) =~= left);
    }
}

/// Compaction changes no read from the horizon on: every page that could be
/// rebuilt at a position not before the horizon is rebuilt the same. Whatever the
/// backend, it is handed the same last base and the same versions behind it.
pub proof fn compaction_keeps_reads_from_the_horizon(
    v: RepoV,
    horizon: Lsn,
    key: PageKey,
    lsn: Lsn,
    base: Option<(Lsn, Seq<u8>)>,
)
    requires
        layers_apart(v.layers, key, lsn),
        horizon.0 <= lsn.0,
        finite_layers(v.layers),
    ensures
        native_page(compacted(v, horizon), key, lsn, base) == native_page(v, key, lsn, base),
        from_last_base(history(compacted(v, horizon), key, lsn, base)) == from_last_base(
            history(v, key, lsn, base),
        ),
        layers_apart(compacted(v, horizon).layers, key, lsn),
        finite_layers(compacted(v, horizon).layers),
{
    if v.layers.len() > 0 {
        let w = compacted(v, horizon);
        let m = merged(v.layers);
        let left = pruned(m, horizon);
        lemma_compacted_layers(v, horizon);
        lemma_history_of_merged(v, key, lsn, base);
        lemma_history_of_merged(w, key, lsn, base);
        let head = base_columns(base).push(column(v.memtable, key, lsn));
        let x = column(m, key, lsn);
        let y = column(left, key, lsn);
        lemma_base_below(m, key, horizon.0 as nat + 1);
        match base_below(m, key, horizon.0 as nat + 1) {
            None => {
                assert forall|l: u64| m.contains_key((key, Lsn(l))) implies !superseded(
                    m,
                    horizon,
                    (key, Lsn(l)),
                ) by {
                    if superseded(m, horizon, (key, Lsn(l))) {
                        let b = choose|b: u64|
                            l < b <= horizon.0 && #[trigger] m.contains_key((key, Lsn(b)))
                                && is_base_version(m[(key, Lsn(b))]);
                    }
                }
                assert(x =~= y);
            },
            Some(b) => {
                assert forall|l: u64| b <= l && m.contains_key((key, Lsn(l))) implies !superseded(
                    m,
                    horizon,
                    (key, Lsn(l)),
                ) by {
                    if superseded(m, horizon, (key, Lsn(l))) {
                        let c = choose|c: u64|
                            l < c <= horizon.0 && #[trigger] m.contains_key((key, Lsn(c)))
                                && is_base_version(m[(key, Lsn(c))]);
                    }
                }
                lemma_agree_from_base(head, x, y, b);
            },
        }
    }
}


/// After a write, the fork is known, as of the write's position, to have the
/// block; what was known as of earlier positions is unchanged.
pub proof fn written_block_is_counted(v: RepoV, m: ModV, earlier: Lsn)
    requires
        earlier.0 < m.lsn.0,
    ensures
        rel_size(ingested_one(v, m), m.key.rel, m.lsn) == Some(
            grown(rel_size(v, m.key.rel, m.lsn), m.key.block),
        ),
        m.key.block < u32::MAX ==> rel_size(ingested_one(v, m), m.key.rel, m.lsn)->0 > m.key.block,
        rel_size(v, m.key.rel, m.lsn) matches Some(n) ==> rel_size(
            ingested_one(v, m),
            m.key.rel,
            m.lsn,
        )->0 >= n,
        rel_size(ingested_one(v, m), m.key.rel, earlier) == rel_size(v, m.key.rel, earlier),
{
    lemma_newest_unchanged(
        v.rel_sizes,
        ingested_one(v, m).rel_sizes,
        size_key(m.key.rel),
        m.lsn,
        earlier.0 as nat + 1,
    );
}

/// Sizes that agree below `n` have the same newest one there.
pub proof fn lemma_newest_same(
    a: Map<(PageKey, Lsn), u32>,
    b: Map<(PageKey, Lsn), u32>,
    key: PageKey,
    n: nat,
)
    requires
        n <= all_positions(),
        forall|l: u64| l < n ==> (#[trigger] a.contains_key((key, Lsn(l))) <==> b.contains_key(
            (key, Lsn(l)),
        )) && (a.contains_key((key, Lsn(l))) ==> a[(key, Lsn(l))] == b[(key, Lsn(l))]),
    ensures
        newest(a, key, n) == newest(b, key, n),
    decreases n,
{
    if n > 0 {
        lemma_newest_same(a, b, key, (n - 1) as nat);
        let l = (n - 1) as u64;
        assert(a.contains_key((key, Lsn(l))) <==> b.contains_key((key, Lsn(l))));
    }
}

/// Sizes as of a position do not see what is written later: writes, each to
/// another relation fork or behind `lsn`, leave the size of `rel` at `lsn`.
pub proof fn later_writes_leave_sizes(v: RepoV, mods: Seq<ModV>, rel: RelTag, lsn: Lsn)
    requires
        forall|i: int|
            0 <= i < mods.len() ==> (#[trigger] mods[i]).key.rel != rel || mods[i].lsn.0 > lsn.0,
    ensures
        rel_size(ingested(v, mods), rel, lsn) == rel_size(v, rel, lsn),
    decreases mods.len(),
{
    if mods.len() > 0 {
        let front = mods.drop_last();
        let m = mods.last();
        assert forall|i: int| 0 <= i < front.len() implies (#[trigger] front[i]).key.rel != rel
            || front[i].lsn.0 > lsn.0 by {
            assert(front[i] == mods[i]);
        }
        later_writes_leave_sizes(v, front, rel, lsn);
        let u = ingested(v, front);
        let w = ingested_one(u, m);
        assert(mods[mods.len() - 1].key.rel != rel || mods[mods.len() - 1].lsn.0 > lsn.0);
        assert(w.rel_sizes == u.rel_sizes.insert(
            (size_key(m.key.rel), m.lsn),
            grown(rel_size(u, m.key.rel, m.lsn), m.key.block),
        ));
        lemma_newest_same(u.rel_sizes, w.rel_sizes, size_key(rel), lsn.0 as nat + 1);
    }
}

proof fn lemma_newest_unchanged(
    a: Map<(PageKey, Lsn), u32>,
    b: Map<(PageKey, Lsn), u32>,
    key: PageKey,
    at: Lsn,
    n: nat,
)
    requires
        n <= at.0,
        exists|x: u32| b == #[trigger] a.insert((key, at), x),
    ensures
        newest(a, key, n) == newest(b, key, n),
    decreases n,
{
    if n > 0 {
        lemma_newest_unchanged(a, b, key, at, (n - 1) as nat);
    }
}

/// A layer marked as pushed is no longer pending, and every other pending layer
/// still is: pushing pending layers and marking them pushes each only once.
pub proof fn uploaded_layers_are_not_pending(v: RepoV, id: LayerId, l: LayerV)
    ensures
        pending(RepoV { uploaded: v.uploaded.insert(id), ..v }).contains(l) <==> pending(v).contains(
            l,
        ) && l.id != id,
{
    lemma_not_in(v.layers, v.uploaded, l);
    lemma_not_in(v.layers, v.uploaded.insert(id), l);
}

proof fn lemma_not_in(layers: Seq<LayerV>, uploaded: Set<LayerId>, l: LayerV)
    ensures
        not_in(layers, uploaded).contains(l) <==> layers.contains(l) && !uploaded.contains(l.id),
    decreases layers.len(),
{
    if layers.len() > 0 {
        let front = layers.drop_last();
        lemma_not_in(front, uploaded, l);
        let rest = not_in(front, uploaded);
        let now = not_in(layers, uploaded);
        if layers.contains(l) {
            let i = choose|i: int| 0 <= i < layers.len() && layers[i] == l;
            if i < layers.len() - 1 {
                assert(front[i] == l);
            }
        }
        if front.contains(l) {
            let i = choose|i: int| 0 <= i < front.len() && front[i] == l;
            assert(layers[i] == l);
        }
        assert(layers[layers.len() - 1] == layers.last());
        if rest.contains(l) {
            let i = choose|i: int| 0 <= i < rest.len() && rest[i] == l;
            assert(now[i] == l);
        }
        if now.contains(l) {
            let i = choose|i: int| 0 <= i < now.len() && now[i] == l;
            if i < rest.len() {
                assert(rest[i] == l);
            }
        }
        if !uploaded.contains(layers.last().id) {
            assert(now[rest.len() as int] == layers.last());
        }
    }
}

} // verus!
