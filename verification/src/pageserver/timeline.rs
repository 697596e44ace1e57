//! A *timeline*: one branch of a tenant's page history.
//!
//! Every tenant has root timelines; a *branch* is a child timeline that shares
//! all of its parent's history up to a branch point and diverges after it. A
//! branch starts empty: no data is copied.
//!
//! Each timeline owns a [`Repository`] with just the changes written on this
//! branch. A read that this branch's own history cannot answer inherits the page
//! from the parent at the branch point and replays this branch's versions on
//! top. Reads go up the ancestor chain; writing to a branch never affects its
//! parent.
//!
//! The timelines of a family are held by their [`Tenant`], each after its
//! parent; a read is handed the tenant to find the parents in.

use vstd::prelude::*;

use crate::common::ids::TimelineId;
use crate::common::lsn::Lsn;
use crate::common::page::{PageKey, RelTag};
use crate::pageserver::page::{Modification, PageError, PageErrorV};
use crate::pageserver::repository::{
    compacted, compaction_report, frozen, ingested, lookup_result, may_look_up, mods_view,
    native_page, record_ingested, rel_size, stream_at, stream_ingested, CompactionStats, LookupV,
    PageLookup, RepoV, Repository,
};
use crate::pageserver::tenant::Tenant;
use crate::pageserver::waldecode::{WalDecodeError, WalStreamDecoder, XLOG_BLCKSZ};
use crate::pageserver::walredo::{RustApplyRedoManager, WalRedoManager};

verus! {

/// The parent of a branched timeline and the position at which it diverged.
pub struct Ancestor {
    parent: TimelineId,
    number: usize,
    ancestor_lsn: Lsn,
}

/// One branch of a tenant's history: its own page store plus, for a branch, the
/// ancestor it inherits unchanged pages from.
pub struct Timeline<R: WalRedoManager> {
    id: TimelineId,
    number: usize,
    repo: Repository<R>,
    ancestor: Option<Ancestor>,
}

/// A branch point: the number of the parent among the tenant's timelines, and
/// the position.
pub struct AncestorV {
    pub number: int,
    pub lsn: Lsn,
}

/// What a [`Timeline`] holds.
pub struct TimelineV {
    pub id: TimelineId,
    pub repo: RepoV,
    pub ancestor: Option<AncestorV>,
}

impl<R: WalRedoManager> View for Timeline<R> {
    type V = TimelineV;

    closed spec fn view(&self) -> TimelineV {
        TimelineV {
            id: self.id,
            repo: self.repo@,
            ancestor: match self.ancestor {
                Some(a) => Some(AncestorV { number: a.number as int, lsn: a.ancestor_lsn }),
                None => None,
            },
        }
    }
}

/// Every ancestor stands before its branch.
pub open spec fn rooted(tls: Seq<TimelineV>) -> bool {
    forall|i: int|
        0 <= i < tls.len() ==> ((#[trigger] tls[i]).ancestor matches Some(a) ==> 0 <= a.number < i)
}

/// What a branch makes of the parent's page at the branch point: its own
/// versions on top of it, or, where there is no page, what the parent said.
pub open spec fn may_inherit<R: WalRedoManager>(
    backend: R,
    repo: RepoV,
    key: PageKey,
    lsn: Lsn,
    at: Lsn,
    up: LookupV,
    out: LookupV,
) -> bool {
    match up {
        Ok(Some(page)) => may_look_up(backend, repo, key, lsn, Some((at, page)), out),
        _ => out == up,
    }
}

/// A lookup that a read goes through.
pub open spec fn on_the_way(o: LookupV) -> bool {
    true
}

/// Whether a read of page `key` at `lsn` on timeline number `i` may come to
/// `out`. A root reads its own store. A branch reads its own store, and where
/// that knows no such page, the parent's page at the branch point with its own
/// versions on top.
pub open spec fn may_read<R: WalRedoManager>(
    backend: R,
    tls: Seq<TimelineV>,
    i: int,
    key: PageKey,
    lsn: Lsn,
    out: LookupV,
) -> bool
    decreases i,
{
    match tls[i].ancestor {
        None => may_look_up(backend, tls[i].repo, key, lsn, None, out),
        Some(a) => {
            ||| (out != Ok::<Option<Seq<u8>>, PageErrorV>(None) && may_look_up(
                backend,
                tls[i].repo,
                key,
                lsn,
                None,
                out,
            ))
            ||| (may_look_up(
                backend,
                tls[i].repo,
                key,
                lsn,
                None,
                Ok::<Option<Seq<u8>>, PageErrorV>(None),
            ) && 0 <= a.number < i && exists|up: LookupV| #[trigger]
                on_the_way(up) && may_read(backend, tls, a.number, key, a.lsn, up) && may_inherit(
                    backend,
                    tls[i].repo,
                    key,
                    lsn,
                    a.lsn,
                    up,
                    out,
                ))
        },
    }
}

/// What a read comes to with the native backend.
pub open spec fn branch_page(tls: Seq<TimelineV>, i: int, key: PageKey, lsn: Lsn) -> LookupV
    decreases i,
{
    let own = native_page(tls[i].repo, key, lsn, None);
    match tls[i].ancestor {
        None => own,
        Some(a) => if own != Ok::<Option<Seq<u8>>, PageErrorV>(None) || !(0 <= a.number < i) {
            own
        } else {
            match branch_page(tls, a.number, key, a.lsn) {
                Ok(Some(page)) => native_page(tls[i].repo, key, lsn, Some((a.lsn, page))),
                up => up,
            }
        },
    }
}

/// The larger of two sizes, where they are known.
pub open spec fn larger(a: Option<u32>, b: Option<u32>) -> Option<u32> {
    match (a, b) {
        (Some(x), Some(y)) => Some(
            if x > y {
                x
            } else {
                y
            },
        ),
        (None, y) => y,
        (x, None) => x,
    }
}

/// The size of a relation fork on timeline number `i` as of `lsn`: the larger of
/// its own and the parent's at the branch point.
pub open spec fn branch_size(tls: Seq<TimelineV>, i: int, rel: RelTag, lsn: Lsn) -> Option<u32>
    decreases i,
{
    let own = rel_size(tls[i].repo, rel, lsn);
    match tls[i].ancestor {
        None => own,
        Some(a) => if 0 <= a.number < i {
            larger(own, branch_size(tls, a.number, rel, a.lsn))
        } else {
            own
        },
    }
}

/// With the native backend, a read comes to one outcome only.
pub proof fn native_reads_are_exact(
    backend: RustApplyRedoManager,
    tls: Seq<TimelineV>,
    i: int,
    key: PageKey,
    lsn: Lsn,
    out: LookupV,
)
    requires
        rooted(tls),
        0 <= i < tls.len(),
    ensures
        may_read(backend, tls, i, key, lsn, out) <==> out == branch_page(tls, i, key, lsn),
    decreases i,
{
    let repo = tls[i].repo;
    let own = native_page(repo, key, lsn, None);
    assert forall|o: LookupV| #[trigger]
        may_look_up(backend, repo, key, lsn, None, o) <==> o == own by {
        crate::pageserver::repository::native_lookups_are_exact(backend, repo, key, lsn, None, o);
    }
    if let Some(a) = tls[i].ancestor {
        assert(0 <= a.number < i);
        let up = branch_page(tls, a.number, key, a.lsn);
        native_reads_are_exact(backend, tls, a.number, key, a.lsn, up);
        assert(on_the_way(up));
        if may_read(backend, tls, i, key, lsn, out) && own == Ok::<Option<Seq<u8>>, PageErrorV>(
            None,
        ) {
            let o = choose|o: LookupV| #[trigger]
                on_the_way(o) && may_read(backend, tls, a.number, key, a.lsn, o) && may_inherit(
                    backend,
                    repo,
                    key,
                    lsn,
                    a.lsn,
                    o,
                    out,
                );
            native_reads_are_exact(backend, tls, a.number, key, a.lsn, o);
        }
        if let Ok(Some(page)) = up {
            crate::pageserver::repository::native_lookups_are_exact(
                backend,
                repo,
                key,
                lsn,
                Some((a.lsn, page)),
                out,
            );
        }
        assert(may_look_up(backend, repo, key, lsn, None, own));
    } else {
        assert(may_look_up(backend, repo, key, lsn, None, out) <==> out == own);
    }
}

impl<R: WalRedoManager> Timeline<R> {
    /// The store is well-formed, and the branch point is before the branch.
    pub closed spec fn wf(self) -> bool {
        &&& self.repo.wf()
        &&& self.ancestor matches Some(a) ==> a.number < self.number
    }

    /// This timeline's number among its tenant's.
    pub closed spec fn number(self) -> int {
        self.number as int
    }

    /// The parent's id.
    pub closed spec fn parent_id(self) -> Option<TimelineId> {
        match self.ancestor {
            Some(a) => Some(a.parent),
            None => None,
        }
    }

    /// The redo backend of the store.
    pub closed spec fn backend(self) -> R {
        self.repo.backend()
    }

    /// Same timeline, whatever its store holds.
    pub open spec fn same_place(self, other: Timeline<R>) -> bool {
        &&& self@.id == other@.id
        &&& self@.ancestor == other@.ancestor
        &&& self.number() == other.number()
        &&& self.parent_id() == other.parent_id()
        &&& self.backend() == other.backend()
    }

    /// Layers and memtable hold finitely many versions, and the branch point is
    /// before the branch.
    pub proof fn lemma_wf(self)
        requires
            self.wf(),
        ensures
            crate::pageserver::reads::finite_layers(self@.repo.layers),
            self@.ancestor matches Some(a) ==> 0 <= a.number < self.number(),
            self@.ancestor is Some <==> self.parent_id() is Some,
    {
        self.repo.lemma_finite();
    }

    /// A root timeline with no ancestor.
    pub(crate) fn root(id: TimelineId, number: usize, repo: Repository<R>) -> (r: Timeline<R>)
        requires
            repo.wf(),
        ensures
            r.wf(),
            r@ == (TimelineV { id, repo: repo@, ancestor: None }),
            r.number() == number,
            r.parent_id() is None,
            r.backend() == repo.backend(),
    {
        Timeline { id, number, repo, ancestor: None }
    }

    /// A timeline branched from timeline number `parent_number` at
    /// `ancestor_lsn`.
    pub(crate) fn branched(
        id: TimelineId,
        number: usize,
        repo: Repository<R>,
        parent: TimelineId,
        parent_number: usize,
        ancestor_lsn: Lsn,
    ) -> (r: Timeline<R>)
        requires
            repo.wf(),
            parent_number < number,
        ensures
            r.wf(),
            r@ == (TimelineV {
                id,
                repo: repo@,
                ancestor: Some(AncestorV { number: parent_number as int, lsn: ancestor_lsn }),
            }),
            r.number() == number,
            r.parent_id() == Some(parent),
            r.backend() == repo.backend(),
    {
        Timeline {
            id,
            number,
            repo,
            ancestor: Some(Ancestor { parent, number: parent_number, ancestor_lsn }),
        }
    }

    /// This timeline's identifier.
    pub fn id(&self) -> (r: TimelineId)
        ensures
            r == self@.id,
    {
        self.id
    }

    /// The parent timeline this branch diverged from, if any.
    pub fn ancestor_timeline(&self) -> (r: Option<TimelineId>)
        ensures
            r == self.parent_id(),
            r is Some <==> self@.ancestor is Some,
    {
        match &self.ancestor {
            Some(a) => Some(a.parent),
            None => None,
        }
    }

    /// The branch point, if this is a branch.
    pub fn ancestor_lsn(&self) -> (r: Option<Lsn>)
        ensures
            r == (match self@.ancestor {
                Some(a) => Some(a.lsn),
                None => None,
            }),
    {
        match &self.ancestor {
            Some(a) => Some(a.ancestor_lsn),
            None => None,
        }
    }

    /// The number of the parent, if this is a branch.
    pub(crate) fn ancestor_number(&self) -> (r: Option<usize>)
        ensures
            match r {
                Some(n) => self@.ancestor matches Some(a) && a.number == n,
                None => self@.ancestor is None,
            },
    {
        match &self.ancestor {
            Some(a) => Some(a.number),
            None => None,
        }
    }

    /// This branch's own page store.
    pub fn repository(&self) -> (r: &Repository<R>)
        requires
            self.wf(),
        ensures
            r.wf(),
            r@ == self@.repo,
            r.backend() == self.backend(),
    {
        &self.repo
    }

    /// Ingest pre-decoded modifications into this branch's store.
    pub fn ingest(&mut self, mods: Vec<Modification>)
        requires
            old(self).wf(),
        ensures
            final(self).wf(),
            final(self).same_place(*old(self)),
            final(self)@.repo == ingested(old(self)@.repo, mods_view(mods@)),
    {
        self.repo.ingest(mods);
    }

    /// Ingest a raw WAL byte stream into this branch's store.
    pub fn ingest_wal(&mut self, start_lsn: Lsn, wal: &[u8]) -> (r: Result<usize, WalDecodeError>)
        requires
            old(self).wf(),
            start_lsn.0 + wal@.len() + XLOG_BLCKSZ <= u64::MAX,
        ensures
            final(self).wf(),
            final(self).same_place(*old(self)),
            final(self)@.repo == stream_ingested(old(self)@.repo, stream_at(start_lsn, wal@)).0,
            match stream_ingested(old(self)@.repo, stream_at(start_lsn, wal@)).2 {
                Ok(n) => r matches Ok(x) && x == n,
                Err(e) => r matches Err(x) && x@ == e,
            },
    {
        self.repo.ingest_wal(start_lsn, wal)
    }

    /// Ingest every complete record of a stream into this branch's store.
    pub fn ingest_stream(&mut self, decoder: &mut WalStreamDecoder) -> (r: Result<
        usize,
        WalDecodeError,
    >)
        requires
            old(self).wf(),
            old(decoder).wf(),
        ensures
            final(self).wf(),
            final(decoder).wf(),
            final(self).same_place(*old(self)),
            final(self)@.repo == stream_ingested(old(self)@.repo, old(decoder)@).0,
            final(decoder)@ == stream_ingested(old(self)@.repo, old(decoder)@).1,
            match stream_ingested(old(self)@.repo, old(decoder)@).2 {
                Ok(n) => r matches Ok(x) && x == n,
                Err(e) => r matches Err(x) && x@ == e,
            },
    {
        self.repo.ingest_stream(decoder)
    }

    /// Ingest one already framed WAL record into this branch's store.
    pub fn ingest_record(&mut self, lsn: Lsn, record: &[u8]) -> (r: Result<(), WalDecodeError>)
        requires
            old(self).wf(),
        ensures
            final(self).wf(),
            final(self).same_place(*old(self)),
            match record_ingested(old(self)@.repo, lsn, record@) {
                Ok(w) => r is Ok && final(self)@.repo == w,
                Err(e) => r matches Err(x) && x@ == e && final(self)@.repo == old(self)@.repo,
            },
    {
        self.repo.ingest_record(lsn, record)
    }

    /// Freeze this branch's memtable.
    pub fn freeze(&mut self)
        requires
            old(self).wf(),
        ensures
            final(self).wf(),
            final(self).same_place(*old(self)),
            final(self)@.repo == frozen(old(self)@.repo),
    {
        self.repo.freeze();
    }

    /// Note that one of this branch's layers has been pushed to object storage.
    pub fn mark_uploaded(&mut self, id: crate::pageserver::layer::LayerId)
        requires
            old(self).wf(),
        ensures
            final(self).wf(),
            final(self).same_place(*old(self)),
            final(self)@.repo == (RepoV {
                uploaded: old(self)@.repo.uploaded.insert(id),
                ..old(self)@.repo
            }),
    {
        self.repo.mark_uploaded(id);
    }

    /// Compact this branch's frozen layers at `gc_horizon`. It is for the caller
    /// to choose a horizon that respects the branches that depend on this
    /// timeline's history.
    pub fn compact(&mut self, gc_horizon: Lsn) -> (r: CompactionStats)
        requires
            old(self).wf(),
        ensures
            final(self).wf(),
            final(self).same_place(*old(self)),
            final(self)@.repo == compacted(old(self)@.repo, gc_horizon),
            compaction_report(r, old(self)@.repo, gc_horizon),
    {
        self.repo.compact(gc_horizon)
    }

    /// Rebuild page `key` at `lsn` on this branch, inheriting from the ancestor
    /// chain, which `family` holds, where this branch knows no such page.
    pub fn get_page(&self, family: &Tenant<R>, key: PageKey, lsn: Lsn) -> (r: Result<
        PageLookup,
        PageError,
    >)
        requires
            family.wf(),
            family.holds(*self),
        ensures
            may_read(
                family.backend(),
                family@.timelines,
                self.number(),
                key,
                lsn,
                lookup_result(r),
            ),
        decreases self.number(),
    {
        let ghost tls = family@.timelines;
        let ghost i = self.number();
        proof {
            family.lemma_holds(*self);
        }
        let ancestor = match &self.ancestor {
            None => return self.repo.get_page(key, lsn),
            Some(a) => a,
        };
        let own = self.repo.get_page(key, lsn);
        assert(may_look_up(family.backend(), tls[i].repo, key, lsn, None, lookup_result(own)));
        match own {
            Ok(PageLookup::NotFound) => {},
            _ => {
                return own;
            },
        }
        let parent = family.timeline_at(ancestor.number);
        let up = parent.get_page(family, key, ancestor.ancestor_lsn);
        assert(may_read(
            family.backend(),
            tls,
            ancestor.number as int,
            key,
            ancestor.ancestor_lsn,
            lookup_result(up),
        ));
        assert(on_the_way(lookup_result(up)));
        match up {
            Ok(PageLookup::Page(base)) => self.repo.get_page_with_base(
                key,
                lsn,
                Some((ancestor.ancestor_lsn, base)),
            ),
            other => other,
        }
    }

    /// Relation fork size at `lsn`: the larger of this branch's own size and the
    /// size inherited from the ancestor, which `family` holds, at the branch
    /// point.
    pub fn get_rel_size(&self, family: &Tenant<R>, rel: RelTag, lsn: Lsn) -> (r: Option<u32>)
        requires
            family.wf(),
            family.holds(*self),
        ensures
            r == branch_size(family@.timelines, self.number(), rel, lsn),
        decreases self.number(),
    {
        proof {
            family.lemma_holds(*self);
        }
        let own = self.repo.get_rel_size(rel, lsn);
        match &self.ancestor {
            None => own,
            Some(a) => {
                let parent = family.timeline_at(a.number);
                let inherited = parent.get_rel_size(family, rel, a.ancestor_lsn);
                match (own, inherited) {
                    (Some(x), Some(y)) => Some(
                        if x > y {
                            x
                        } else {
                            y
                        },
                    ),
                    (None, y) => y,
                    (x, None) => x,
                }
            },
        }
    }
}

} // verus!
