//! The log-structured repository: ingest, indexing, and page reconstruction.
//!
//! Page versions are indexed by page and position. Recent versions live in an
//! in-memory *memtable*; when it fills it is frozen into an immutable [`Layer`]
//! and a fresh memtable starts. A read consults the memtable and every layer:
//! it gathers every version of the page up to the requested position, and hands
//! the ordered history to the redo backend.

use std::collections::HashSet;
use std::sync::Arc;

use vstd::prelude::*;

use crate::common::lsn::Lsn;
use crate::common::page::{PageKey, RelTag};
use crate::pageserver::layer::{
    filled, lemma_listing_fills, Layer, LayerId, LayerV, ListingV, VersionsV,
};
use crate::pageserver::lsnmap::{
    column, entries_view, enumerates, kept, lemma_woven_none, lemma_woven_single, newest, refs_view,
    slot, slot_injective, weave, woven, LsnMap,
};
use crate::pageserver::page::{
    is_base_version, ModV, Modification, PageError, PageErrorV, PageVersion, VersionV, WalRecord,
};
use crate::pageserver::waldecode::{
    decode_wal_record, decoded, drained, lemma_polled, polled, restored, BlockV, DecodedWalRecord, Polled,
    RecordV, StreamV, WalDecodeError, WalDecodeErrorV, WalStreamDecoder, DEFAULT_WAL_SEG_SIZE,
    XLOG_BLCKSZ, XLOG_PAGE_MAGIC_PG16,
};
use crate::pageserver::walredo::{
    natively, redo_error_text, redo_outcome, RedoError, RedoErrorV, RedoOutcome,
    RustApplyRedoManager, WalRedoManager,
};
use crate::shared::share;

verus! {

/// What a compaction pass did.
#[derive(Debug, Clone, PartialEq, Eq)]
pub struct CompactionStats {
    /// Frozen layers before the pass.
    pub layers_before: usize,
    /// Frozen layers after.
    pub layers_after: usize,
    /// Page versions dropped.
    pub versions_removed: usize,
    /// Ids of layers that were replaced: their files in object storage are
    /// orphaned and may be deleted by the caller.
    pub removed_layer_ids: Vec<LayerId>,
}

impl Default for CompactionStats {
    /// Of no pass.
    fn default() -> (r: CompactionStats)
        ensures
            r.layers_before == 0,
            r.layers_after == 0,
            r.versions_removed == 0,
            r.removed_layer_ids@.len() == 0,
    {
        CompactionStats {
            layers_before: 0,
            layers_after: 0,
            versions_removed: 0,
            removed_layer_ids: Vec::new(),
        }
    }
}

/// Outcome of a page lookup.
#[derive(Debug, Clone, PartialEq, Eq)]
pub enum PageLookup {
    /// The rebuilt 8 KiB page.
    Page(Vec<u8>),
    /// No base of the page exists up to the requested position.
    NotFound,
}

/// What a lookup came to: a page, no page, or an error.
pub type LookupV = Result<Option<Seq<u8>>, PageErrorV>;

/// What a lookup's result says.
pub open spec fn lookup_result(r: Result<PageLookup, PageError>) -> LookupV {
    match r {
        Ok(PageLookup::Page(p)) => Ok(Some(p@)),
        Ok(PageLookup::NotFound) => Ok(None),
        Err(e) => Err(e@),
    }
}

/// The lookup that a reconstruction's outcome amounts to.
pub open spec fn lookup_of(out: RedoOutcome) -> LookupV {
    match out {
        Ok(p) => Ok(p),
        Err(RedoErrorV::Apply(e)) => Err(e),
        Err(e) => Err(PageErrorV::Redo(redo_error_text(e))),
    }
}

/// What a [`Repository`] holds.
pub struct RepoV {
    /// Recent versions.
    pub memtable: VersionsV,
    /// Sizes of relation forks over time, each filed under the fork's block 0.
    pub rel_sizes: Map<(PageKey, Lsn), u32>,
    /// Frozen layers, newest last.
    pub layers: Seq<LayerV>,
    /// Layers already pushed to object storage.
    pub uploaded: Set<LayerId>,
    /// Id of the next layer.
    pub next_layer_id: LayerId,
    /// The memtable is frozen once it holds this many versions.
    pub freeze_threshold: usize,
}

/// An empty repository.
pub open spec fn empty_repo(freeze_threshold: usize) -> RepoV {
    RepoV {
        memtable: Map::empty(),
        rel_sizes: Map::empty(),
        layers: Seq::empty(),
        uploaded: Set::empty(),
        next_layer_id: 0,
        freeze_threshold,
    }
}

/// The next id; ids start over after the last one.
pub open spec fn next_id(id: LayerId) -> LayerId {
    if id == u64::MAX {
        0
    } else {
        (id + 1) as u64
    }
}

/// The repository with its memtable frozen into a layer, unless it is empty.
pub open spec fn frozen(v: RepoV) -> RepoV {
    if v.memtable.dom().len() == 0 {
        v
    } else {
        RepoV {
            memtable: Map::empty(),
            layers: v.layers.push(LayerV { id: v.next_layer_id, entries: v.memtable }),
            next_layer_id: next_id(v.next_layer_id),
            ..v
        }
    }
}

/// Under which page the size of a relation fork is filed.
pub open spec fn size_key(rel: RelTag) -> PageKey {
    PageKey { rel, block: 0 }
}

/// Number of blocks of a relation fork as of `lsn`, if known.
pub open spec fn rel_size(v: RepoV, rel: RelTag, lsn: Lsn) -> Option<u32> {
    newest(v.rel_sizes, size_key(rel), lsn.0 as nat + 1)
}

/// How long a fork is that has block `block` and had `prior` blocks. The last
/// block number counts as none.
pub open spec fn grown(prior: Option<u32>, block: u32) -> u32 {
    let p = match prior {
        Some(n) => n,
        None => 0,
    };
    let n = if block == u32::MAX {
        0
    } else {
        (block + 1) as u32
    };
    if p > n {
        p
    } else {
        n
    }
}

/// The repository after one modification: the version is filed, the fork is at
/// least one block longer than the page's number, and a full memtable is frozen.
pub open spec fn ingested_one(v: RepoV, m: ModV) -> RepoV {
    let filed = RepoV {
        memtable: v.memtable.insert((m.key, m.lsn), m.version),
        rel_sizes: v.rel_sizes.insert(
            (size_key(m.key.rel), m.lsn),
            grown(rel_size(v, m.key.rel, m.lsn), m.key.block),
        ),
        ..v
    };
    if filed.memtable.dom().len() >= v.freeze_threshold {
        frozen(filed)
    } else {
        filed
    }
}

/// The repository after the modifications, in order.
pub open spec fn ingested(v: RepoV, mods: Seq<ModV>) -> RepoV
    decreases mods.len(),
{
    if mods.len() == 0 {
        v
    } else {
        ingested_one(ingested(v, mods.drop_last()), mods.last())
    }
}

/// What each modification of a list holds.
pub open spec fn mods_view(m: Seq<Modification>) -> Seq<ModV> {
    Seq::new(m.len(), |i: int| m[i]@)
}

/// The column of a base image that comes from outside the repository.
pub open spec fn base_columns(base: Option<(Lsn, Seq<u8>)>) -> Seq<Map<u64, VersionV>> {
    match base {
        None => Seq::empty(),
        Some((l, img)) => seq![Map::empty().insert(l.0, VersionV::Image(img))],
    }
}

/// What the layers hold of page `key` up to `lsn`, layer by layer.
pub open spec fn layer_columns(layers: Seq<LayerV>, key: PageKey, lsn: Lsn) -> Seq<
    Map<u64, VersionV>,
> {
    Seq::new(layers.len(), |i: int| column(layers[i].entries, key, lsn))
}

/// The history of page `key` up to `lsn`: the base, if there is one, what the
/// memtable holds and what the layers hold, by position; at one position in
/// this order.
pub open spec fn history(v: RepoV, key: PageKey, lsn: Lsn, base: Option<(Lsn, Seq<u8>)>) -> Seq<
    (Lsn, VersionV),
> {
    woven(
        base_columns(base).push(column(v.memtable, key, lsn)) + layer_columns(v.layers, key, lsn),
    )
}

/// The page that the native backend rebuilds.
pub open spec fn native_page(v: RepoV, key: PageKey, lsn: Lsn, base: Option<(Lsn, Seq<u8>)>) -> LookupV {
    lookup_of(natively(history(v, key, lsn, base)))
}

/// All entries of the layers; where two layers hold a version of the same page
/// at the same position, the later layer's.
pub open spec fn merged(layers: Seq<LayerV>) -> VersionsV
    decreases layers.len(),
{
    if layers.len() == 0 {
        Map::empty()
    } else {
        merged(layers.drop_last()).union_prefer_right(layers.last().entries)
    }
}

/// Whether `m` holds a base of the page later than `k` and not after `horizon`.
pub open spec fn superseded(m: VersionsV, horizon: Lsn, k: (PageKey, Lsn)) -> bool {
    exists|b: u64|
        k.1.0 < b <= horizon.0 && #[trigger] m.contains_key((k.0, Lsn(b))) && is_base_version(
            m[(k.0, Lsn(b))],
        )
}

/// What is left of `m` when, of each page, every version before the latest base
/// up to `horizon` is dropped.
pub open spec fn pruned(m: VersionsV, horizon: Lsn) -> VersionsV {
    Map::new(
        |k: (PageKey, Lsn)| m.contains_key(k) && !superseded(m, horizon, k),
        |k: (PageKey, Lsn)| m[k],
    )
}

/// The ids of the layers.
pub open spec fn layer_ids(layers: Seq<LayerV>) -> Seq<LayerId> {
    Seq::new(layers.len(), |i: int| layers[i].id)
}

/// Every layer holds a version.
pub open spec fn filled_layers(layers: Seq<LayerV>) -> bool {
    forall|i: int| 0 <= i < layers.len() ==> (#[trigger] layers[i]).entries.dom().len() > 0
}

/// The repository after compaction: one layer, holding what is left of all.
pub open spec fn compacted(v: RepoV, horizon: Lsn) -> RepoV {
    if v.layers.len() == 0 {
        v
    } else {
        let left = pruned(merged(v.layers), horizon);
        let gone = layer_ids(v.layers).to_set();
        if left.dom().len() == 0 {
            RepoV { layers: Seq::empty(), uploaded: v.uploaded.difference(gone), ..v }
        } else {
            RepoV {
                layers: seq![LayerV { id: v.next_layer_id, entries: left }],
                next_layer_id: next_id(v.next_layer_id),
                uploaded: v.uploaded.difference(gone),
                ..v
            }
        }
    }
}

/// What a compaction pass reports.
pub open spec fn compaction_report(s: CompactionStats, v: RepoV, horizon: Lsn) -> bool {
    &&& s.layers_before == v.layers.len()
    &&& s.layers_after == compacted(v, horizon).layers.len()
    &&& s.versions_removed == merged(v.layers).dom().len() - pruned(
        merged(v.layers),
        horizon,
    ).dom().len()
    &&& s.removed_layer_ids@ == layer_ids(v.layers)
}

/// The layers not yet pushed to object storage.
pub open spec fn pending(v: RepoV) -> Seq<LayerV> {
    not_in(v.layers, v.uploaded)
}

/// The layers whose ids are not in `uploaded`, in order.
pub open spec fn not_in(layers: Seq<LayerV>, uploaded: Set<LayerId>) -> Seq<LayerV>
    decreases layers.len(),
{
    if layers.len() == 0 {
        Seq::empty()
    } else {
        let rest = not_in(layers.drop_last(), uploaded);
        if uploaded.contains(layers.last().id) {
            rest
        } else {
            rest.push(layers.last())
        }
    }
}

/// What each layer of a list holds.
pub open spec fn layers_view(l: Seq<Arc<Layer>>) -> Seq<LayerV> {
    Seq::new(l.len(), |i: int| l[i]@)
}

/// The pageserver's storage repository.
pub struct Repository<R: WalRedoManager> {
    memtable: LsnMap<PageVersion>,
    rel_sizes: LsnMap<u32>,
    layers: Vec<Arc<Layer>>,
    uploaded: HashSet<LayerId>,
    next_layer_id: LayerId,
    freeze_threshold: usize,
    redo: Arc<R>,
}

impl<R: WalRedoManager> View for Repository<R> {
    type V = RepoV;

    closed spec fn view(&self) -> RepoV {
        RepoV {
            memtable: self.memtable@,
            rel_sizes: self.rel_sizes@,
            layers: layers_view(self.layers@),
            uploaded: self.uploaded@,
            next_layer_id: self.next_layer_id,
            freeze_threshold: self.freeze_threshold,
        }
    }
}

impl Repository<RustApplyRedoManager> {
    /// Create an empty repository that freezes the memtable every
    /// `freeze_threshold` versions, with the native backend.
    pub fn new(freeze_threshold: usize) -> (r: Repository<RustApplyRedoManager>)
        ensures
            r.wf(),
            r@ == empty_repo(freeze_threshold),
    {
        Repository::with_redo(freeze_threshold, Arc::new(RustApplyRedoManager))
    }
}

impl<R: WalRedoManager> Repository<R> {
    /// Memtable, sizes and layers are sorted, and no layer is empty.
    pub closed spec fn wf(self) -> bool {
        &&& self.memtable.wf()
        &&& self.rel_sizes.wf()
        &&& forall|i: int|
            0 <= i < self.layers@.len() ==> (#[trigger] self.layers@[i]).wf()
                && self.layers@[i]@.entries.dom().len() > 0
    }

    /// The redo backend.
    pub closed spec fn backend(self) -> R {
        *self.redo
    }

    /// A repository holds finitely many versions, some in each layer.
    pub proof fn lemma_finite(self)
        requires
            self.wf(),
        ensures
            crate::pageserver::reads::finite_layers(self@.layers),
            self@.memtable.dom().finite(),
            filled_layers(self@.layers),
    {
        self.memtable.lemma_listed();
        assert forall|i: int| 0 <= i < self@.layers.len() implies (#[trigger] self@.layers[i]).entries.dom().finite() by {
            assert(self.layers@[i].wf());
            self.layers@[i].lemma_finite();
        }
    }

    /// Create an empty repository with an explicit redo backend.
    pub fn with_redo(freeze_threshold: usize, redo: Arc<R>) -> (r: Repository<R>)
        ensures
            r.wf(),
            r@ == empty_repo(freeze_threshold),
            r.backend() == *redo,
    {
        broadcast use vstd::std_specs::hash::group_hash_axioms;

        let r = Repository {
            memtable: LsnMap::new(),
            rel_sizes: LsnMap::new(),
            layers: Vec::new(),
            uploaded: HashSet::new(),
            next_layer_id: 0,
            freeze_threshold,
            redo,
        };
        assert(layers_view(r.layers@) =~= Seq::empty());
        assert(r.uploaded@ =~= Set::empty());
        r
    }

    /// Ingest one modification.
    fn ingest_one(&mut self, m: Modification)
        requires
            old(self).wf(),
        ensures
            final(self).wf(),
            final(self)@ == ingested_one(old(self)@, m@),
            final(self).backend() == old(self).backend(),
    {
        let key = PageKey { rel: m.rel, block: m.block };
        let at = PageKey { rel: m.rel, block: 0 };
        let prior: u32 = match self.rel_sizes.latest(at, m.lsn) {
            Some(n) => *n,
            None => 0,
        };
        let n: u32 = m.block.wrapping_add(1);
        let size: u32 = if prior > n {
            prior
        } else {
            n
        };
        self.rel_sizes.insert(at, m.lsn, size);
        self.memtable.insert(key, m.lsn, m.version);
        if self.memtable.len() >= self.freeze_threshold {
            self.freeze();
        }
    }

    /// Ingest a batch of page modifications.
    pub fn ingest(&mut self, mods: Vec<Modification>)
        requires
            old(self).wf(),
        ensures
            final(self).wf(),
            final(self)@ == ingested(old(self)@, mods_view(mods@)),
            final(self).backend() == old(self).backend(),
    {
        let ghost all = mods_view(mods@);
        let ghost given = mods@;
        assert(all.take(0) =~= Seq::empty());
        for m in iter: mods
            invariant
                self.wf(),
                self.backend() == old(self).backend(),
                iter.seq() == given,
                all == mods_view(given),
                self@ == ingested(old(self)@, all.take(iter.index() as int)),
        {
            let ghost i = iter.index() as int;
            assert(m@ == all[i]);
            assert(all.take(i + 1).drop_last() =~= all.take(i));
            assert(all.take(i + 1).last() == all[i]);
            self.ingest_one(m);
        }
        assert(all.take(all.len() as int) =~= all);
    }

    /// Force the current memtable into a frozen layer (no-op if empty).
    pub fn freeze(&mut self)
        requires
            old(self).wf(),
        ensures
            final(self).wf(),
            final(self)@ == frozen(old(self)@),
            final(self).backend() == old(self).backend(),
    {
        if self.memtable.is_empty() {
            return ;
        }
        let id: u64 = self.next_layer_id;
        self.next_layer_id = id.wrapping_add(1);
        let mut entries: LsnMap<PageVersion> = LsnMap::new();
        std::mem::swap(&mut self.memtable, &mut entries);
        self.layers.push(Arc::new(Layer::new(id, entries)));
        assert(layers_view(self.layers@) =~= layers_view(old(self).layers@).push(
            LayerV { id, entries: old(self).memtable@ },
        ));
    }

    /// Rebuild page `key` as it was at `lsn`, from this store alone.
    pub fn get_page(&self, key: PageKey, lsn: Lsn) -> (r: Result<PageLookup, PageError>)
        requires
            self.wf(),
        ensures
            may_look_up(self.backend(), self@, key, lsn, None, lookup_result(r)),
    {
        self.get_page_with_base(key, lsn, None)
    }

    /// Rebuild page `key` at `lsn`, starting, where `base` is given, from an
    /// image of the page that comes from outside (the same page on a parent
    /// timeline at the branch point). This store's versions are applied on top.
    pub fn get_page_with_base(&self, key: PageKey, lsn: Lsn, base: Option<(Lsn, Vec<u8>)>) -> (r:
        Result<PageLookup, PageError>)
        requires
            self.wf(),
        ensures
            may_look_up(self.backend(), self@, key, lsn, base_view(base), lookup_result(r)),
    {
        let ghost bv = base_view(base);
        let base_holder: Option<(Lsn, PageVersion)> = match base {
            Some((l, page)) => Some((l, PageVersion::Image(page))),
            None => None,
        };
        let mut versions: Vec<(Lsn, &PageVersion)> = Vec::new();
        let ghost mut cols: Seq<Map<u64, VersionV>> = base_columns(bv);
        if let Some((l, v)) = &base_holder {
            versions.push((*l, v));
            proof {
                lemma_woven_single(*l, v@);
                assert(refs_view(versions@) =~= seq![(*l, v@)]);
            }
        } else {
            proof {
                lemma_woven_none::<VersionV>();
                assert(refs_view(versions@) =~= Seq::empty());
            }
        }
        let recent = self.memtable.range(key, lsn);
        weave(&mut versions, &recent, Ghost(cols), Ghost(column(self.memtable@, key, lsn)));
        proof {
            cols = cols.push(column(self.memtable@, key, lsn));
        }
        let ghost head = cols;
        let ghost lc = layer_columns(self@.layers, key, lsn);
        let mut i: usize = 0;
        assert(head + lc.take(0) =~= head);
        while i < self.layers.len()
            invariant
                self.wf(),
                i <= self.layers@.len(),
                lc == layer_columns(self@.layers, key, lsn),
                cols == head + lc.take(i as int),
                refs_view(versions@) == woven(cols),
            decreases self.layers@.len() - i,
        {
            let older = self.layers[i].range(key, lsn);
            assert(self@.layers[i as int] == self.layers@[i as int]@);
            weave(&mut versions, &older, Ghost(cols), Ghost(lc[i as int]));
            proof {
                cols = cols.push(lc[i as int]);
                assert(cols =~= head + lc.take(i + 1));
            }
            i += 1;
        }
        assert(lc.take(i as int) =~= lc);
        assert(refs_view(versions@) == history(self@, key, lsn, bv));
        let done = self.redo.reconstruct(key, lsn, versions.as_slice());
        let ghost out = redo_outcome(done);
        assert(self.backend().may_return(key, lsn, history(self@, key, lsn, bv), out));
        let r = match done {
            Ok(Some(page)) => Ok(PageLookup::Page(page)),
            Ok(None) => Ok(PageLookup::NotFound),
            Err(RedoError::Apply(e)) => Err(e),
            Err(e) => Err(PageError::Redo(e.to_string())),
        };
        assert(lookup_result(r) == lookup_of(out));
        r
    }

    /// Number of blocks in a relation fork as of `lsn`, if known.
    pub fn get_rel_size(&self, rel: RelTag, lsn: Lsn) -> (r: Option<u32>)
        requires
            self.wf(),
        ensures
            r == rel_size(self@, rel, lsn),
    {
        match self.rel_sizes.latest(PageKey { rel, block: 0 }, lsn) {
            Some(n) => Some(*n),
            None => None,
        }
    }

    /// The frozen layers not yet pushed to object storage.
    pub fn pending_offload(&self) -> (r: Vec<Arc<Layer>>)
        requires
            self.wf(),
        ensures
            layers_view(r@) == pending(self@),
            forall|i: int| 0 <= i < r@.len() ==> (#[trigger] r@[i]).wf(),
    {
        broadcast use vstd::std_specs::hash::group_hash_axioms;

        let ghost all = self@.layers;
        let mut out: Vec<Arc<Layer>> = Vec::new();
        let mut i: usize = 0;
        assert(layers_view(out@) =~= not_in(all.take(0), self@.uploaded));
        while i < self.layers.len()
            invariant
                self.wf(),
                i <= self.layers@.len(),
                all == self@.layers,
                layers_view(out@) == not_in(all.take(i as int), self@.uploaded),
                forall|j: int| 0 <= j < out@.len() ==> (#[trigger] out@[j]).wf(),
            decreases self.layers@.len() - i,
        {
            let ghost before = layers_view(out@);
            assert(all.take(i + 1).drop_last() =~= all.take(i as int));
            assert(all.take(i + 1).last() == self.layers@[i as int]@);
            let id: u64 = self.layers[i].id();
            if !self.uploaded.contains(&id) {
                out.push(share(&self.layers[i]));
                assert(layers_view(out@) =~= before.push(self.layers@[i as int]@));
            }
            i += 1;
        }
        assert(all.take(i as int) =~= all);
        out
    }

    /// Note that a layer has been pushed to object storage.
    pub fn mark_uploaded(&mut self, id: LayerId)
        requires
            old(self).wf(),
        ensures
            final(self).wf(),
            final(self)@ == (RepoV { uploaded: old(self)@.uploaded.insert(id), ..old(self)@ }),
            final(self).backend() == old(self).backend(),
    {
        broadcast use vstd::std_specs::hash::group_hash_axioms;

        self.uploaded.insert(id);
    }

    /// Total number of frozen layers.
    pub fn layer_count(&self) -> (r: usize)
        ensures
            r == self@.layers.len(),
    {
        self.layers.len()
    }
}

/// Merge every layer's entries, in the order of the layers.
fn merge_layers(layers: &Vec<Arc<Layer>>) -> (m: LsnMap<PageVersion>)
    requires
        forall|i: int| 0 <= i < layers@.len() ==> (#[trigger] layers@[i]).wf(),
    ensures
        m.wf(),
        m@ == merged(layers_view(layers@)),
{
    let ghost all = layers_view(layers@);
    let mut m: LsnMap<PageVersion> = LsnMap::new();
    let mut i: usize = 0;
    assert(all.take(0) =~= Seq::empty());
    while i < layers.len()
        invariant
            forall|i: int| 0 <= i < layers@.len() ==> (#[trigger] layers@[i]).wf(),
            all == layers_view(layers@),
            i <= layers@.len(),
            m.wf(),
            m@ == merged(all.take(i as int)),
        decreases layers@.len() - i,
    {
        let entries = layers[i].entries();
        let ghost before = m@;
        let ghost s = entries_view(entries.listed());
        proof {
            entries.lemma_listed();
            assert(all.take(i + 1).drop_last() =~= all.take(i as int));
            assert(all.take(i + 1).last() == layers@[i as int]@);
        }
        let n: usize = entries.len();
        let mut j: usize = 0;
        assert(s.take(0) =~= Seq::empty());
        assert(before.union_prefer_right(Map::empty()) =~= before);
        while j < n
            invariant
                j <= n,
                n == entries.listed().len(),
                s == entries_view(entries.listed()),
                m.wf(),
                m@ == before.union_prefer_right(filled(s.take(j as int))),
            decreases n - j,
        {
            let e = entries.entry(j);
            m.insert(e.key, e.lsn, e.value.clone());
            proof {
                assert(s.take(j + 1).drop_last() =~= s.take(j as int));
                assert(s.take(j + 1).last() == ((e.key, e.lsn), e.value@));
                assert(m@ =~= before.union_prefer_right(filled(s.take(j + 1))));
            }
            j += 1;
        }
        proof {
            assert(s.take(n as int) =~= s);
            lemma_listing_fills(s, entries@);
        }
        i += 1;
    }
    assert(all.take(i as int) =~= all);
    m
}

/// Which entries survive a collection up to `horizon`.
fn survivors(m: &LsnMap<PageVersion>, horizon: Lsn) -> (keep: Vec<bool>)
    requires
        m.wf(),
    ensures
        keep@.len() == m.listed().len(),
        forall|i: int|
            0 <= i < keep@.len() ==> #[trigger] keep@[i] == !superseded(
                m@,
                horizon,
                entries_view(m.listed())[i].0,
            ),
{
    let ghost s = entries_view(m.listed());
    proof {
        m.lemma_listed();
    }
    let n: usize = m.len();
    let mut keep: Vec<bool> = vec![true; n];
    // The latest base up to the horizon of the page of the entry last seen.
    let mut base: Option<(PageKey, Lsn)> = None;
    let mut i: usize = n;
    while i > 0
        invariant
            i <= n,
            n == m.listed().len(),
            keep@.len() == n,
            s == entries_view(m.listed()),
            enumerates(s, m@),
            base matches Some(b) ==> b.1.0 <= horizon.0 && m@.contains_key(b) && is_base_version(
                m@[b],
            ),
            forall|j: int|
                i <= j < n && i < n && (#[trigger] s[j]).0.0 == s[i as int].0.0 && s[j].0.1.0
                    <= horizon.0 && is_base_version(s[j].1) ==> (base matches Some(b) && b.0
                    == s[j].0.0 && b.1.0 >= s[j].0.1.0),
            forall|j: int|
                i <= j < n ==> #[trigger] keep@[j] == !superseded(m@, horizon, s[j].0),
        decreases i,
    {
        let ghost was = i as int;
        let ghost old_base = base;
        i -= 1;
        let e = m.entry(i);
        let ghost k = (e.key, e.lsn);
        assert(s[i as int] == (k, e.value@));
        proof {
            lemma_later_base(s, m@, horizon, i as int);
        }
        let dropped = match base {
            Some((key, lsn)) => key == e.key && e.lsn.0 < lsn.0,
            None => false,
        };
        assert(dropped == superseded(m@, horizon, k)) by {
            if dropped {
                let b = base->0;
                assert(m@.contains_key((k.0, Lsn(b.1.0))));
            }
            if superseded(m@, horizon, k) {
                let j = choose|j: int|
                    i < j < s.len() && (#[trigger] s[j]).0.0 == k.0 && k.1.0 < s[j].0.1.0
                        <= horizon.0 && is_base_version(s[j].1);
                lemma_same_page_between(s, m@, i as int, j);
            }
        }
        keep.set(i, !dropped);
        let fresh = match base {
            Some((key, lsn)) => !(key == e.key && e.lsn.0 < lsn.0),
            None => true,
        };
        if fresh && e.lsn.0 <= horizon.0 && e.value.is_base() {
            base = Some((e.key, e.lsn));
        }
        proof {
            assert forall|j: int|
                i <= j < n && (#[trigger] s[j]).0.0 == s[i as int].0.0 && s[j].0.1.0 <= horizon.0
                    && is_base_version(s[j].1) implies (base matches Some(b) && b.0 == s[j].0.0
                && b.1.0 >= s[j].0.1.0) by {
                if j > i {
                    lemma_same_page_between(s, m@, i as int, j);
                    slot_injective(s[i as int].0, s[j].0);
                    assert(slot(s[i as int].0) < slot(s[j].0));
                }
            }
        }
    }
    keep
}

/// A base that supersedes an entry stands behind it.
proof fn lemma_later_base(s: ListingV, m: VersionsV, horizon: Lsn, i: int)
    requires
        enumerates(s, m),
        0 <= i < s.len(),
    ensures
        superseded(m, horizon, s[i].0) ==> exists|j: int|
            i < j < s.len() && (#[trigger] s[j]).0.0 == s[i].0.0 && s[i].0.1.0 < s[j].0.1.0
                <= horizon.0 && is_base_version(s[j].1),
{
    if superseded(m, horizon, s[i].0) {
        let k = s[i].0;
        let b = choose|b: u64|
            k.1.0 < b <= horizon.0 && #[trigger] m.contains_key((k.0, Lsn(b))) && is_base_version(
                m[(k.0, Lsn(b))],
            );
        let j = choose|j: int| 0 <= j < s.len() && (#[trigger] s[j]).0 == (k.0, Lsn(b));
        slot_injective(k, s[j].0);
        if j <= i {
            assert(j < i ==> slot(s[j].0) < slot(s[i].0));
        }
    }
}

/// Entries between two of one page are of that page.
proof fn lemma_same_page_between(s: ListingV, m: VersionsV, i: int, j: int)
    requires
        enumerates(s, m),
        0 <= i < j < s.len(),
        s[i].0.0 == s[j].0.0,
    ensures
        s[i + 1].0.0 == s[i].0.0,
{
    if i + 1 < j {
        assert(slot(s[i].0) < slot(s[i + 1].0));
        assert(slot(s[i + 1].0) < slot(s[j].0));
        slot_injective(s[i].0, s[i + 1].0);
        slot_injective(s[i + 1].0, s[i].0);
        slot_injective(s[i + 1].0, s[j].0);
        slot_injective(s[j].0, s[i + 1].0);
        crate::common::page::key_rank_injective(s[i].0.0, s[i + 1].0.0);
    }
}

/// Drop every version that a base up to `horizon` supersedes.
fn prune(m: LsnMap<PageVersion>, horizon: Lsn) -> (r: LsnMap<PageVersion>)
    requires
        m.wf(),
    ensures
        r.wf(),
        r@ == pruned(m@, horizon),
{
    let keep = survivors(&m, horizon);
    let ghost s = entries_view(m.listed());
    let ghost mm = m@;
    proof {
        m.lemma_listed();
        let a = kept(mm, s, keep@);
        let b = pruned(mm, horizon);
        assert forall|k: (PageKey, Lsn)| #[trigger] a.contains_key(k) <==> b.contains_key(k) by {
            if a.contains_key(k) {
                let i = choose|i: int| 0 <= i < s.len() && keep@[i] && (#[trigger] s[i]).0 == k;
                assert(mm.contains_key(s[i].0));
            }
            if b.contains_key(k) {
                let i = choose|i: int| 0 <= i < s.len() && (#[trigger] s[i]).0 == k;
                assert(keep@[i]);
                assert(s[i].0 == k);
            }
        }
        assert(a =~= b);
    }
    m.retain(&keep)
}

impl<R: WalRedoManager> Repository<R> {
    /// Compact the frozen layers into one, dropping every page version that can
    /// never be read at a position from `gc_horizon` on.
    ///
    /// Of each page, the latest base up to `gc_horizon` is kept along with
    /// everything after it. The caller must not serve reads below `gc_horizon`
    /// afterwards.
    pub fn compact(&mut self, gc_horizon: Lsn) -> (r: CompactionStats)
        requires
            old(self).wf(),
        ensures
            final(self).wf(),
            final(self)@ == compacted(old(self)@, gc_horizon),
            final(self).backend() == old(self).backend(),
            compaction_report(r, old(self)@, gc_horizon),
            r.layers_before >= 1 ==> r.layers_after == 1,
    {
        broadcast use vstd::std_specs::hash::group_hash_axioms;

        let ghost v = self@;
        proof {
            self.lemma_finite();
            if v.layers.len() > 0 {
                compaction_leaves_one_layer(v, gc_horizon);
            }
        }
        let layers_before: usize = self.layers.len();
        let mut removed_layer_ids: Vec<LayerId> = Vec::new();
        if layers_before == 0 {
            assert(removed_layer_ids@ =~= layer_ids(v.layers));
            assert(v.layers =~= Seq::empty());
            assert(merged(v.layers) =~= Map::empty());
            assert(pruned(merged(v.layers), gc_horizon) =~= Map::empty());
            return CompactionStats {
                layers_before: 0,
                layers_after: 0,
                versions_removed: 0,
                removed_layer_ids,
            };
        }
        let mut i: usize = 0;
        while i < self.layers.len()
            invariant
                i <= self.layers@.len(),
                self@ == v,
                removed_layer_ids@ == layer_ids(v.layers).take(i as int),
            decreases self.layers@.len() - i,
        {
            removed_layer_ids.push(self.layers[i].id());
            assert(removed_layer_ids@ =~= layer_ids(v.layers).take(i + 1));
            i += 1;
        }
        assert(removed_layer_ids@ =~= layer_ids(v.layers));
        let all = merge_layers(&self.layers);
        let before: usize = all.len();
        let ghost m = all@;
        let left = prune(all, gc_horizon);
        let after: usize = left.len();
        proof {
            assert(left@.dom().subset_of(m.dom()));
            vstd::set_lib::lemma_len_subset(left@.dom(), m.dom());
        }
        let mut layers: Vec<Arc<Layer>> = Vec::new();
        if after != 0 {
            let id: u64 = self.next_layer_id;
            self.next_layer_id = id.wrapping_add(1);
            layers.push(Arc::new(Layer::new(id, left)));
            assert(layers_view(layers@) =~= compacted(v, gc_horizon).layers);
        } else {
            assert(layers_view(layers@) =~= Seq::empty());
        }
        let layers_after: usize = layers.len();
        self.layers = layers;
        let ghost ids = removed_layer_ids@;
        let ghost now = self@;
        let mut i: usize = 0;
        assert(self.uploaded@ =~= v.uploaded.difference(ids.take(0).to_set()));
        while i < removed_layer_ids.len()
            invariant
                i <= removed_layer_ids@.len(),
                ids == removed_layer_ids@,
                self.wf(),
                self.backend() == old(self).backend(),
                self@ == (RepoV { uploaded: v.uploaded.difference(ids.take(i as int).to_set()), ..now }),
            decreases removed_layer_ids@.len() - i,
        {
            let oid: u64 = removed_layer_ids[i];
            self.uploaded.remove(&oid);
            proof {
                let a = ids.take(i as int);
                let b = ids.take(i + 1);
                assert(b =~= a.push(oid));
                assert forall|x: u64| b.to_set().contains(x) <==> a.to_set().contains(x) || x
                    == oid by {
                    if b.contains(x) && x != oid {
                        let q = choose|q: int| 0 <= q < b.len() && b[q] == x;
                        assert(a[q] == x);
                    }
                    if a.contains(x) {
                        let q = choose|q: int| 0 <= q < a.len() && a[q] == x;
                        assert(b[q] == x);
                    }
                    assert(b[i as int] == oid);
                }
                assert(self.uploaded@ =~= v.uploaded.difference(b.to_set()));
            }
            i += 1;
        }
        assert(ids.take(i as int) =~= ids);
        CompactionStats {
            layers_before,
            layers_after,
            versions_removed: before - after,
            removed_layer_ids,
        }
    }
}

/// The last version of a page is never superseded: of a page that has a version,
/// one is left.
proof fn lemma_last_is_kept(m: VersionsV, horizon: Lsn, k: (PageKey, Lsn)) -> (l: u64)
    requires
        m.contains_key(k),
    ensures
        pruned(m, horizon).contains_key((k.0, Lsn(l))),
    decreases u64::MAX - k.1.0,
{
    if superseded(m, horizon, k) {
        let b = choose|b: u64|
            k.1.0 < b <= horizon.0 && #[trigger] m.contains_key((k.0, Lsn(b))) && is_base_version(
                m[(k.0, Lsn(b))],
            );
        lemma_last_is_kept(m, horizon, (k.0, Lsn(b)))
    } else {
        assert(pruned(m, horizon).contains_key((k.0, Lsn(k.1.0))));
        k.1.0
    }
}

/// Compaction leaves exactly one layer, where there was any.
pub proof fn compaction_leaves_one_layer(v: RepoV, horizon: Lsn)
    requires
        v.layers.len() > 0,
        filled_layers(v.layers),
        crate::pageserver::reads::finite_layers(v.layers),
    ensures
        compacted(v, horizon).layers.len() == 1,
        filled_layers(compacted(v, horizon).layers),
{
    let last = v.layers.last();
    let m = merged(v.layers);
    assert(v.layers[v.layers.len() - 1] == last);
    assert(last.entries.dom().len() > 0 && last.entries.dom().finite());
    let k = last.entries.dom().choose();
    assert(last.entries.dom().contains(k));
    assert(m.contains_key(k));
    let l = lemma_last_is_kept(m, horizon, k);
    let left = pruned(m, horizon);
    crate::pageserver::reads::lemma_merged_finite(v.layers);
    assert(left.dom().subset_of(m.dom()));
    vstd::set_lib::lemma_len_subset(left.dom(), m.dom());
    assert(left.dom().contains((k.0, Lsn(l))));
    if left.dom().len() == 0 {
        assert(left.dom() =~= Set::empty());
    }
}

/// What a compaction pass reports as removed are the versions that a later base
/// of their page up to the horizon supersedes; those are gone, and no other is.
pub proof fn superseded_versions_are_dropped(v: RepoV, horizon: Lsn, s: CompactionStats)
    requires
        crate::pageserver::reads::finite_layers(v.layers),
        compaction_report(s, v, horizon),
    ensures
        ({
            let m = merged(v.layers);
            let gone = m.dom().filter(|k: (PageKey, Lsn)| superseded(m, horizon, k));
            &&& s.versions_removed == gone.len()
            &&& pruned(m, horizon) == m.remove_keys(gone)
        }),
{
    let m = merged(v.layers);
    let left = pruned(m, horizon);
    let gone = m.dom().filter(|k: (PageKey, Lsn)| superseded(m, horizon, k));
    crate::pageserver::reads::lemma_merged_finite(v.layers);
    vstd::set_lib::lemma_len_subset(gone, m.dom());
    assert(left.dom().subset_of(m.dom()));
    vstd::set_lib::lemma_len_subset(left.dom(), m.dom());
    assert(left.dom().disjoint(gone));
    assert(left.dom() + gone =~= m.dom());
    vstd::set_lib::lemma_set_disjoint_lens(left.dom(), gone);
    assert(left =~= m.remove_keys(gone));
}

/// The version that a record gives a block: its image, where that can be
/// restored, and else the raw record.
pub open spec fn block_version(b: BlockV, raw: Seq<u8>) -> VersionV {
    match b.image {
        Some(img) => match restored(img) {
            Ok(page) => VersionV::Image(page),
            Err(_) => VersionV::WalRecord { will_init: b.will_init, rec: raw },
        },
        None => VersionV::WalRecord { will_init: b.will_init, rec: raw },
    }
}

/// One modification for each block that a record touches.
pub open spec fn record_mods(d: RecordV, raw: Seq<u8>) -> Seq<ModV> {
    Seq::new(
        d.blocks.len(),
        |i: int|
            ModV {
                key: PageKey { rel: d.blocks[i].rel, block: d.blocks[i].blkno },
                lsn: d.lsn,
                version: block_version(d.blocks[i], raw),
            },
    )
}

/// The repository after one record, or why the record cannot be decoded.
pub open spec fn record_ingested(v: RepoV, lsn: Lsn, raw: Seq<u8>) -> Result<RepoV, WalDecodeErrorV> {
    match decoded(lsn, raw) {
        Err(e) => Err(e),
        Ok(d) => Ok(ingested(v, record_mods(d, raw))),
    }
}

/// The repository after the records of a stream, up to the first that cannot be
/// framed or decoded; the stream left over; and how many records there were or
/// what was wrong.
pub open spec fn stream_ingested(v: RepoV, s: StreamV) -> (
    RepoV,
    StreamV,
    Result<nat, WalDecodeErrorV>,
)
    decreases s.buf.len(),
    via stream_ingested_decreases
{
    match polled(s) {
        (Polled::Need, rest) => (v, rest, Ok(0)),
        (Polled::BadMagic(m), rest) => (
            v,
            rest,
            Err(WalDecodeErrorV::BadPageMagic { got: m, want: XLOG_PAGE_MAGIC_PG16 }),
        ),
        (Polled::Record(start, raw), rest) => match record_ingested(v, Lsn(start as u64), raw) {
            Err(e) => (v, rest, Err(e)),
            Ok(w) => match stream_ingested(w, rest) {
                (x, end, Ok(n)) => (x, end, Ok(n + 1)),
                (x, end, Err(e)) => (x, end, Err(e)),
            },
        },
    }
}

#[via_fn]
proof fn stream_ingested_decreases(v: RepoV, s: StreamV) {
    lemma_polled(s);
}

/// The repository after the records, in order, up to the first that cannot be
/// decoded; and how many there were or what was wrong.
pub open spec fn records_ingested(v: RepoV, recs: Seq<(int, Seq<u8>)>) -> (
    RepoV,
    Result<nat, WalDecodeErrorV>,
)
    decreases recs.len(),
{
    if recs.len() == 0 {
        (v, Ok(0))
    } else {
        let (w, r) = records_ingested(v, recs.drop_last());
        match r {
            Err(e) => (w, Err(e)),
            Ok(n) => match record_ingested(w, Lsn(recs.last().0 as u64), recs.last().1) {
                Err(e) => (w, Err(e)),
                Ok(x) => (x, Ok(n + 1)),
            },
        }
    }
}

/// One record in front of the others.
proof fn lemma_first_record(v: RepoV, first: (int, Seq<u8>), recs: Seq<(int, Seq<u8>)>)
    ensures
        records_ingested(v, seq![first] + recs) == (match record_ingested(
            v,
            Lsn(first.0 as u64),
            first.1,
        ) {
            Err(e) => (v, Err::<nat, WalDecodeErrorV>(e)),
            Ok(w) => match records_ingested(w, recs) {
                (x, Ok(n)) => (x, Ok(n + 1)),
                (x, Err(e)) => (x, Err(e)),
            },
        }),
    decreases recs.len(),
{
    let all = seq![first] + recs;
    if recs.len() == 0 {
        assert(all.drop_last() =~= Seq::empty());
        assert(all.last() == first);
        assert(records_ingested(v, all.drop_last()) == (v, Ok::<nat, WalDecodeErrorV>(0)));
    } else {
        lemma_first_record(v, first, recs.drop_last());
        assert(all.drop_last() =~= seq![first] + recs.drop_last());
        assert(all.last() == recs.last());
    }
}

/// Ingesting a stream is ingesting, one by one, the records that it gives: the
/// repository is the one after those records; the count is theirs; what is left
/// of the stream, such as a record that is not whole yet, is neither counted nor
/// an error; and a record that cannot be decoded, or else a bad page header, is
/// the error, those before it being ingested.
pub proof fn streams_are_ingested_record_by_record(v: RepoV, s: StreamV)
    ensures
        ({
            let (recs, bad, end) = drained(s);
            let (w, r) = records_ingested(v, recs);
            let (x, rest, out) = stream_ingested(v, s);
            &&& x == w
            &&& r matches Ok(n) ==> n == recs.len() && rest == end
            &&& out == (match (r, bad) {
                (Err(e), _) => Err::<nat, WalDecodeErrorV>(e),
                (Ok(_), Some(m)) => Err(
                    WalDecodeErrorV::BadPageMagic { got: m, want: XLOG_PAGE_MAGIC_PG16 },
                ),
                (Ok(n), None) => Ok(n),
            })
        }),
    decreases s.buf.len(),
{
    lemma_polled(s);
    if let (Polled::Record(start, raw), rest) = polled(s) {
        let recs = drained(rest).0;
        lemma_first_record(v, (start, raw), recs);
        if let Ok(w) = record_ingested(v, Lsn(start as u64), raw) {
            streams_are_ingested_record_by_record(w, rest);
        }
    }
}

/// A fresh stream that starts at `lsn` and holds `wal`.
pub open spec fn stream_at(lsn: Lsn, wal: Seq<u8>) -> StreamV {
    StreamV { lsn: lsn.0 as int, seg: DEFAULT_WAL_SEG_SIZE as int, check: true, buf: wal }
}

/// Map a decoded WAL record to one modification for each block it touches.
///
/// A block with an image that can be restored becomes an image, a base for
/// reconstruction; every other block stores the raw record for a wal-redo
/// backend to apply later.
pub fn modifications_from_record(d: &DecodedWalRecord, raw: &[u8]) -> (mods: Vec<Modification>)
    ensures
        mods_view(mods@) == record_mods(d@, raw@),
{
    let mut mods: Vec<Modification> = Vec::new();
    let mut i: usize = 0;
    while i < d.blocks.len()
        invariant
            i <= d.blocks@.len(),
            mods_view(mods@) == record_mods(d@, raw@).take(i as int),
        decreases d.blocks@.len() - i,
    {
        let b = &d.blocks[i];
        assert(d@.blocks[i as int] == b@);
        let whole = PageVersion::WalRecord(
            WalRecord { will_init: b.will_init, rec: crate::bytes::copy_bytes(raw) },
        );
        let version = match &b.image {
            Some(img) => match img.restore() {
                Ok(page) => PageVersion::Image(page),
                Err(_) => whole,
            },
            None => whole,
        };
        let ghost before = mods_view(mods@);
        let m = Modification { rel: b.rel, block: b.blkno, lsn: d.lsn, version };
        let ghost mv = m@;
        mods.push(m);
        assert(mods_view(mods@) =~= before.push(mv));
        assert(mods_view(mods@) =~= record_mods(d@, raw@).take(i + 1));
        i += 1;
    }
    assert(mods_view(mods@) =~= record_mods(d@, raw@));
    mods
}

impl<R: WalRedoManager> Repository<R> {
    /// Decode one already framed WAL record, which starts at `lsn`, and ingest
    /// its per-page changes.
    pub fn ingest_record(&mut self, lsn: Lsn, record: &[u8]) -> (r: Result<(), WalDecodeError>)
        requires
            old(self).wf(),
        ensures
            final(self).wf(),
            final(self).backend() == old(self).backend(),
            match record_ingested(old(self)@, lsn, record@) {
                Ok(w) => r is Ok && final(self)@ == w,
                Err(e) => r matches Err(x) && x@ == e && final(self)@ == old(self)@,
            },
    {
        let d = decode_wal_record(lsn, record)?;
        self.ingest(modifications_from_record(&d, record));
        Ok(())
    }

    /// Ingest a raw PostgreSQL WAL byte stream that starts at `start_lsn`; the
    /// number of WAL records ingested.
    ///
    /// What was ingested before a record that cannot be decoded stays.
    pub fn ingest_wal(&mut self, start_lsn: Lsn, wal: &[u8]) -> (r: Result<usize, WalDecodeError>)
        requires
            old(self).wf(),
            start_lsn.0 + wal@.len() + XLOG_BLCKSZ <= u64::MAX,
        ensures
            final(self).wf(),
            final(self).backend() == old(self).backend(),
            final(self)@ == stream_ingested(old(self)@, stream_at(start_lsn, wal@)).0,
            match stream_ingested(old(self)@, stream_at(start_lsn, wal@)).2 {
                Ok(n) => r matches Ok(x) && x == n,
                Err(e) => r matches Err(x) && x@ == e,
            },
    {
        let mut decoder = WalStreamDecoder::new(start_lsn);
        decoder.feed_bytes(wal);
        assert(decoder@.buf =~= wal@);
        self.ingest_stream(&mut decoder)
    }

    /// Ingest every complete record that the stream gives; their number.
    pub fn ingest_stream(&mut self, decoder: &mut WalStreamDecoder) -> (r: Result<
        usize,
        WalDecodeError,
    >)
        requires
            old(self).wf(),
            old(decoder).wf(),
        ensures
            final(self).wf(),
            final(decoder).wf(),
            final(self).backend() == old(self).backend(),
            final(self)@ == stream_ingested(old(self)@, old(decoder)@).0,
            final(decoder)@ == stream_ingested(old(self)@, old(decoder)@).1,
            match stream_ingested(old(self)@, old(decoder)@).2 {
                Ok(n) => r matches Ok(x) && x == n,
                Err(e) => r matches Err(x) && x@ == e,
            },
    {
        let mut n: usize = 0;
        let total: usize = decoder.buffered();
        let ghost whole = stream_ingested(self@, decoder@);
        loop
            invariant
                self.wf(),
                self.backend() == old(self).backend(),
                decoder.wf(),
                n + decoder@.buf.len() <= total,
                whole == stream_ingested(old(self)@, old(decoder)@),
                ({
                    let (x, end, rest) = stream_ingested(self@, decoder@);
                    &&& whole.0 == x
                    &&& whole.1 == end
                    &&& match rest {
                        Ok(k) => whole.2 == Ok::<nat, WalDecodeErrorV>(n as nat + k),
                        Err(e) => whole.2 == Err::<nat, WalDecodeErrorV>(e),
                    }
                }),
            decreases decoder@.buf.len(),
        {
            let ghost v = self@;
            let ghost s = decoder@;
            proof {
                lemma_polled(s);
            }
            let next = decoder.poll_decode()?;
            match next {
                None => {
                    return Ok(n);
                },
                Some((lsn, record)) => {
                    self.ingest_record(lsn, record.as_slice())?;
                    n += 1;
                },
            }
        }
    }
}

/// What a base from outside holds.
pub open spec fn base_view(base: Option<(Lsn, Vec<u8>)>) -> Option<(Lsn, Seq<u8>)> {
    match base {
        Some((l, p)) => Some((l, p@)),
        None => None,
    }
}

/// Whether a lookup may come to `out`: the backend, handed the page's history,
/// may come to an outcome that amounts to it.
pub open spec fn may_look_up<R: WalRedoManager>(
    backend: R,
    v: RepoV,
    key: PageKey,
    lsn: Lsn,
    base: Option<(Lsn, Seq<u8>)>,
    out: LookupV,
) -> bool {
    exists|o: RedoOutcome|
        backend.may_return(key, lsn, history(v, key, lsn, base), o) && out == #[trigger] lookup_of(
            o,
        )
}

/// With the native backend, a lookup comes to one outcome only.
pub proof fn native_lookups_are_exact(
    backend: RustApplyRedoManager,
    v: RepoV,
    key: PageKey,
    lsn: Lsn,
    base: Option<(Lsn, Seq<u8>)>,
    out: LookupV,
)
    ensures
        may_look_up(backend, v, key, lsn, base, out) <==> out == native_page(v, key, lsn, base),
{
    let o = natively(history(v, key, lsn, base));
    assert(backend.may_return(key, lsn, history(v, key, lsn, base), o));
    assert(lookup_of(o) == native_page(v, key, lsn, base));
}

} // verus!
