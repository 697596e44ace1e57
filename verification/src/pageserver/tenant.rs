//! A *tenant*: one isolated database instance and the [`Timeline`]s (branches)
//! that make up its history.
//!
//! The tenant is the branch manager: it creates root timelines, branches child
//! timelines off existing ones at a chosen position, and finds a timeline by its
//! id.

use std::sync::Arc;

use vstd::prelude::*;

use crate::common::ids::{id_text, TimelineId};
use crate::common::lsn::Lsn;
use crate::pageserver::repository::{
    compacted, compaction_report, empty_repo, CompactionStats, Repository,
};
use crate::pageserver::timeline::{AncestorV, Timeline, TimelineV};
use crate::pageserver::walredo::{RustApplyRedoManager, WalRedoManager};
use crate::shared::share;
use crate::text::copy_str;

verus! {

/// Errors from branch management.
#[derive(Debug, PartialEq, Eq)]
pub enum TenantError {
    /// The id is taken.
    AlreadyExists(TimelineId),
    /// There is no timeline to branch off.
    NoSuchParent(TimelineId),
}

/// The sentence for an error.
pub open spec fn tenant_error_text(e: TenantError) -> Seq<char> {
    match e {
        TenantError::AlreadyExists(id) => "timeline "@ + id_text(id@) + " already exists"@,
        TenantError::NoSuchParent(id) => "parent timeline "@ + id_text(id@) + " does not exist"@,
    }
}

impl TenantError {
    /// The error as a sentence.
    pub fn to_string(&self) -> (r: String)
        ensures
            r@ == tenant_error_text(*self),
    {
        match self {
            TenantError::AlreadyExists(id) => {
                let mut m = copy_str("timeline ");
                m.push_str(id.to_string().as_str());
                m.push_str(" already exists");
                m
            },
            TenantError::NoSuchParent(id) => {
                let mut m = copy_str("parent timeline ");
                m.push_str(id.to_string().as_str());
                m.push_str(" does not exist");
                m
            },
        }
    }
}

/// What a [`Tenant`] holds: its timelines in the order in which they came.
pub struct TenantV {
    pub timelines: Seq<TimelineV>,
    pub freeze_threshold: usize,
}

/// An empty tenant.
pub open spec fn empty_tenant(freeze_threshold: usize) -> TenantV {
    TenantV { timelines: Seq::empty(), freeze_threshold }
}

/// The number of the first timeline with the id, or -1.
pub open spec fn number_of(tls: Seq<TimelineV>, id: TimelineId) -> int
    decreases tls.len(),
{
    if tls.len() == 0 {
        -1
    } else if number_of(tls.drop_last(), id) >= 0 {
        number_of(tls.drop_last(), id)
    } else if tls.last().id == id {
        tls.len() - 1
    } else {
        -1
    }
}

/// The tenant with a root timeline more, or why it cannot have it.
pub open spec fn created(t: TenantV, id: TimelineId) -> Result<TenantV, TenantError> {
    if number_of(t.timelines, id) >= 0 {
        Err(TenantError::AlreadyExists(id))
    } else {
        Ok(
            TenantV {
                timelines: t.timelines.push(
                    TimelineV { id, repo: empty_repo(t.freeze_threshold), ancestor: None },
                ),
                ..t
            },
        )
    }
}

/// The tenant with a branch more, or why it cannot have it.
pub open spec fn branched(t: TenantV, id: TimelineId, parent: TimelineId, lsn: Lsn) -> Result<
    TenantV,
    TenantError,
> {
    let p = number_of(t.timelines, parent);
    if number_of(t.timelines, id) >= 0 {
        Err(TenantError::AlreadyExists(id))
    } else if p < 0 {
        Err(TenantError::NoSuchParent(parent))
    } else {
        Ok(
            TenantV {
                timelines: t.timelines.push(
                    TimelineV {
                        id,
                        repo: empty_repo(t.freeze_threshold),
                        ancestor: Some(AncestorV { number: p, lsn }),
                    },
                ),
                ..t
            },
        )
    }
}

/// The lowest branch point that the first `n` timelines have on timeline `i`.
pub open spec fn lowest_pin(tls: Seq<TimelineV>, i: int, n: int) -> u64
    decreases n,
{
    if n <= 0 {
        u64::MAX
    } else {
        let rest = lowest_pin(tls, i, n - 1);
        match tls[n - 1].ancestor {
            Some(a) => if a.number == i && a.lsn.0 < rest {
                a.lsn.0
            } else {
                rest
            },
            None => rest,
        }
    }
}

/// Down to where timeline `i` is kept when `requested` is asked for: no higher
/// than any of its branch points.
pub open spec fn horizon_of(tls: Seq<TimelineV>, i: int, requested: Lsn) -> Lsn {
    let pin = lowest_pin(tls, i, tls.len() as int);
    if pin < requested.0 {
        Lsn(pin)
    } else {
        requested
    }
}

/// The tenant after a collection: every timeline compacted at its horizon.
pub open spec fn collected(t: TenantV, requested: Lsn) -> TenantV {
    TenantV {
        timelines: Seq::new(
            t.timelines.len(),
            |i: int|
                TimelineV {
                    repo: compacted(
                        t.timelines[i].repo,
                        horizon_of(t.timelines, i, requested),
                    ),
                    ..t.timelines[i]
                },
        ),
        ..t
    }
}

/// What a collection reports: one entry for each timeline.
pub open spec fn collection_report(
    r: Seq<(TimelineId, CompactionStats)>,
    t: TenantV,
    requested: Lsn,
) -> bool {
    &&& r.len() == t.timelines.len()
    &&& forall|i: int|
        0 <= i < r.len() ==> (#[trigger] r[i]).0 == t.timelines[i].id && compaction_report(
            r[i].1,
            t.timelines[i].repo,
            horizon_of(t.timelines, i, requested),
        )
}

/// What each timeline of a list holds.
pub open spec fn timelines_view<R: WalRedoManager>(t: Seq<Timeline<R>>) -> Seq<TimelineV> {
    Seq::new(t.len(), |i: int| t[i]@)
}

pub proof fn lemma_number_of(tls: Seq<TimelineV>, id: TimelineId)
    ensures
        -1 <= number_of(tls, id) < tls.len(),
        number_of(tls, id) >= 0 ==> tls[number_of(tls, id)].id == id,
        forall|i: int|
            0 <= i < tls.len() && (number_of(tls, id) < 0 || i < number_of(tls, id)) ==> (
            #[trigger] tls[i]).id != id,
    decreases tls.len(),
{
    if tls.len() > 0 {
        lemma_number_of(tls.drop_last(), id);
        assert forall|i: int|
            0 <= i < tls.len() && (number_of(tls, id) < 0 || i < number_of(tls, id)) implies (
        #[trigger] tls[i]).id != id by {
            if i < tls.len() - 1 {
                assert(tls.drop_last()[i] == tls[i]);
            }
        }
    }
}

/// One isolated database instance: a collection of branchable timelines.
pub struct Tenant<R: WalRedoManager> {
    timelines: Vec<Timeline<R>>,
    freeze_threshold: usize,
    redo: Arc<R>,
}

impl<R: WalRedoManager> View for Tenant<R> {
    type V = TenantV;

    closed spec fn view(&self) -> TenantV {
        TenantV {
            timelines: timelines_view(self.timelines@),
            freeze_threshold: self.freeze_threshold,
        }
    }
}

impl Tenant<RustApplyRedoManager> {
    /// Create an empty tenant with the native redo backend.
    pub fn new(freeze_threshold: usize) -> (r: Tenant<RustApplyRedoManager>)
        ensures
            r.wf(),
            r@ == empty_tenant(freeze_threshold),
    {
        Tenant::with_redo(freeze_threshold, Arc::new(RustApplyRedoManager))
    }
}

impl<R: WalRedoManager> Tenant<R> {
    /// Timelines are well-formed and in their places, no id occurs twice, every
    /// branch names the parent at its number, and all share the tenant's
    /// backend.
    pub closed spec fn wf(self) -> bool {
        &&& forall|i: int|
            0 <= i < self.timelines@.len() ==> (#[trigger] self.timelines@[i]).wf()
                && self.timelines@[i].number() == i && self.timelines@[i].backend() == *self.redo
        &&& forall|i: int, j: int|
            0 <= i < j < self.timelines@.len() ==> (#[trigger] self.timelines@[i])@.id != (
            #[trigger] self.timelines@[j])@.id
        &&& forall|i: int|
            0 <= i < self.timelines@.len() ==> ((#[trigger] self.timelines@[i])@.ancestor matches Some(
                a,
            ) ==> 0 <= a.number < i && self.timelines@[i].parent_id() == Some(
                self.timelines@[a.number]@.id,
            ))
    }

    /// The redo backend.
    pub closed spec fn backend(self) -> R {
        *self.redo
    }

    /// `t` is one of the tenant's timelines.
    pub closed spec fn holds(self, t: Timeline<R>) -> bool {
        0 <= t.number() < self.timelines@.len() && self.timelines@[t.number()] == t
    }

    /// What holds of a timeline of the tenant.
    pub proof fn lemma_holds(self, t: Timeline<R>)
        requires
            self.wf(),
            self.holds(t),
        ensures
            t.wf(),
            t.backend() == self.backend(),
            0 <= t.number() < self@.timelines.len(),
            self@.timelines[t.number()] == t@,
            t@.ancestor matches Some(a) ==> 0 <= a.number < t.number() && t.parent_id() == Some(
                self@.timelines[a.number].id,
            ),
    {
        assert(self.timelines@[t.number()].wf());
    }

    /// What holds of all timelines of the tenant.
    pub proof fn lemma_family(self)
        requires
            self.wf(),
        ensures
            crate::pageserver::timeline::rooted(self@.timelines),
            forall|i: int, j: int|
                0 <= i < j < self@.timelines.len() ==> (#[trigger] self@.timelines[i]).id != (
                #[trigger] self@.timelines[j]).id,
            forall|i: int|
                0 <= i < self@.timelines.len() ==> crate::pageserver::reads::finite_layers(
                    (#[trigger] self@.timelines[i]).repo.layers,
                ),
    {
        assert forall|i: int| 0 <= i < self@.timelines.len() implies ((
        #[trigger] self@.timelines[i]).ancestor matches Some(a) ==> 0 <= a.number < i)
            && crate::pageserver::reads::finite_layers(self@.timelines[i].repo.layers) by {
            assert(self.timelines@[i].wf());
            self.timelines@[i].lemma_wf();
        }
        assert forall|i: int, j: int| 0 <= i < j < self@.timelines.len() implies (
        #[trigger] self@.timelines[i]).id != (#[trigger] self@.timelines[j]).id by {
            assert(self.timelines@[i]@.id != self.timelines@[j]@.id);
        }
    }

    /// Create an empty tenant with an explicit redo backend, shared by every
    /// timeline's store.
    pub fn with_redo(freeze_threshold: usize, redo: Arc<R>) -> (r: Tenant<R>)
        ensures
            r.wf(),
            r@ == empty_tenant(freeze_threshold),
            r.backend() == *redo,
    {
        let r = Tenant { timelines: Vec::new(), freeze_threshold, redo };
        assert(timelines_view(r.timelines@) =~= Seq::empty());
        r
    }

    /// Timeline number `i`.
    pub(crate) fn timeline_at(&self, i: usize) -> (r: &Timeline<R>)
        requires
            self.wf(),
            i < self@.timelines.len(),
        ensures
            self.holds(*r),
            r.number() == i,
            r@ == self@.timelines[i as int],
    {
        &self.timelines[i]
    }

    /// How many timelines the tenant has.
    pub fn timeline_count(&self) -> (n: usize)
        ensures
            n == self@.timelines.len(),
    {
        self.timelines.len()
    }

    /// The number of the timeline with the id.
    fn find(&self, id: TimelineId) -> (r: Option<usize>)
        ensures
            match r {
                Some(i) => i == number_of(self@.timelines, id) && i < self.timelines@.len(),
                None => number_of(self@.timelines, id) < 0,
            },
    {
        let mut i: usize = 0;
        proof {
            lemma_number_of(self@.timelines, id);
        }
        while i < self.timelines.len()
            invariant
                i <= self.timelines@.len(),
                forall|j: int| 0 <= j < i ==> (#[trigger] self@.timelines[j]).id != id,
                -1 <= number_of(self@.timelines, id) < self@.timelines.len(),
                number_of(self@.timelines, id) >= 0 ==> self@.timelines[number_of(
                    self@.timelines,
                    id,
                )].id == id,
                forall|j: int|
                    0 <= j < self@.timelines.len() && (number_of(self@.timelines, id) < 0 || j
                        < number_of(self@.timelines, id)) ==> (#[trigger] self@.timelines[j]).id
                        != id,
            decreases self.timelines@.len() - i,
        {
            assert(self@.timelines[i as int] == self.timelines@[i as int]@);
            if self.timelines[i].id().same(&id) {
                return Some(i);
            }
            i += 1;
        }
        None
    }

    /// Create a fresh root timeline (no ancestor).
    pub fn create_timeline(&mut self, id: TimelineId) -> (r: Result<(), TenantError>)
        requires
            old(self).wf(),
        ensures
            final(self).wf(),
            final(self).backend() == old(self).backend(),
            match created(old(self)@, id) {
                Ok(t) => r is Ok && final(self)@ == t,
                Err(e) => r == Err::<(), TenantError>(e) && final(self)@ == old(self)@,
            },
    {
        if self.find(id).is_some() {
            return Err(TenantError::AlreadyExists(id));
        }
        let number: usize = self.timelines.len();
        let repo = Repository::with_redo(self.freeze_threshold, share(&self.redo));
        let t = Timeline::root(id, number, repo);
        let ghost before = self@.timelines;
        let ghost tv = t@;
        proof {
            lemma_number_of(before, id);
        }
        self.timelines.push(t);
        proof {
            assert(self@.timelines =~= before.push(tv));
            assert(self.timelines@.drop_last() =~= old(self).timelines@);
            self.lemma_pushed(*old(self));
        }
        Ok(())
    }

    /// Branch a new timeline `new_id` off `parent_id` at `ancestor_lsn`.
    ///
    /// The branch starts empty and shares all of the parent's history up to
    /// `ancestor_lsn`, diverging only as it is written to.
    pub fn branch_timeline(
        &mut self,
        new_id: TimelineId,
        parent_id: TimelineId,
        ancestor_lsn: Lsn,
    ) -> (r: Result<(), TenantError>)
        requires
            old(self).wf(),
        ensures
            final(self).wf(),
            final(self).backend() == old(self).backend(),
            match branched(old(self)@, new_id, parent_id, ancestor_lsn) {
                Ok(t) => r is Ok && final(self)@ == t,
                Err(e) => r == Err::<(), TenantError>(e) && final(self)@ == old(self)@,
            },
    {
        if self.find(new_id).is_some() {
            return Err(TenantError::AlreadyExists(new_id));
        }
        let p: usize = match self.find(parent_id) {
            Some(p) => p,
            None => return Err(TenantError::NoSuchParent(parent_id)),
        };
        let number: usize = self.timelines.len();
        let repo = Repository::with_redo(self.freeze_threshold, share(&self.redo));
        let t = Timeline::branched(new_id, number, repo, parent_id, p, ancestor_lsn);
        let ghost before = self@.timelines;
        let ghost tv = t@;
        proof {
            lemma_number_of(before, new_id);
            lemma_number_of(before, parent_id);
        }
        self.timelines.push(t);
        proof {
            assert(self@.timelines =~= before.push(tv));
            assert(self.timelines@.drop_last() =~= old(self).timelines@);
            self.lemma_pushed(*old(self));
        }
        Ok(())
    }

    /// A tenant stays well-formed when a timeline with a new id comes last.
    proof fn lemma_pushed(self, before: Tenant<R>)
        requires
            before.wf(),
            self.redo == before.redo,
            self.timelines@.len() == before.timelines@.len() + 1,
            self.timelines@.drop_last() == before.timelines@,
            ({
                let t = self.timelines@.last();
                &&& t.wf()
                &&& t.number() == before.timelines@.len()
                &&& t.backend() == *before.redo
                &&& forall|i: int|
                    0 <= i < before.timelines@.len() ==> (#[trigger] before@.timelines[i]).id
                        != t@.id
                &&& t@.ancestor matches Some(a) ==> 0 <= a.number < before.timelines@.len()
                    && t.parent_id() == Some(before@.timelines[a.number].id)
            }),
        ensures
            self.wf(),
    {
        let n = before.timelines@.len() as int;
        assert forall|i: int| 0 <= i < n implies self.timelines@[i] == before.timelines@[i] by {
            assert(self.timelines@.drop_last()[i] == self.timelines@[i]);
        }
        assert forall|i: int, j: int| 0 <= i < j < self.timelines@.len() implies (
        #[trigger] self.timelines@[i])@.id != (#[trigger] self.timelines@[j])@.id by {
            assert(before@.timelines[i] == before.timelines@[i]@);
        }
    }

    /// A tenant stays well-formed when what a timeline's store holds changes.
    proof fn lemma_replaced(self, after: Tenant<R>, i: int, t: Timeline<R>)
        requires
            self.wf(),
            0 <= i < self.timelines@.len(),
            after.redo == self.redo,
            after.timelines@ == self.timelines@.update(i, t),
            t.wf(),
            t.same_place(self.timelines@[i]),
        ensures
            after.wf(),
    {
        assert forall|j: int| 0 <= j < after.timelines@.len() implies (
        #[trigger] after.timelines@[j]).same_place(self.timelines@[j])
            && after.timelines@[j].wf() by {
            assert(self.timelines@[j].wf());
        }
        assert forall|a: int, b: int| 0 <= a < b < after.timelines@.len() implies (
        #[trigger] after.timelines@[a])@.id != (#[trigger] after.timelines@[b])@.id by {
            assert(self.timelines@[a]@.id != self.timelines@[b]@.id);
        }
        assert forall|j: int| 0 <= j < after.timelines@.len() implies ((
        #[trigger] after.timelines@[j])@.ancestor matches Some(a) ==> 0 <= a.number < j
            && after.timelines@[j].parent_id() == Some(after.timelines@[a.number]@.id)) by {
            if let Some(a) = after.timelines@[j]@.ancestor {
                assert(self.timelines@[j]@.ancestor == Some(a));
                assert(after.timelines@[a.number].same_place(self.timelines@[a.number]));
            }
        }
    }

    /// Find a timeline by id.
    pub fn get_timeline(&self, id: TimelineId) -> (r: Option<&Timeline<R>>)
        requires
            self.wf(),
        ensures
            match r {
                Some(t) => {
                    let n = number_of(self@.timelines, id);
                    0 <= n < self@.timelines.len() && self.holds(*t) && t.number() == n && t@
                        == self@.timelines[n]
                },
                None => number_of(self@.timelines, id) < 0,
            },
    {
        match self.find(id) {
            Some(i) => Some(&self.timelines[i]),
            None => None,
        }
    }

    /// Find a timeline by id, to change what its store holds.
    pub fn get_timeline_mut(&mut self, id: TimelineId) -> (r: Option<&mut Timeline<R>>)
        requires
            old(self).wf(),
        ensures
            final(self).backend() == old(self).backend(),
            match r {
                Some(t) => {
                    let n = number_of(old(self)@.timelines, id);
                    &&& n >= 0
                    &&& old(self).holds(*t)
                    &&& t.number() == n
                    &&& t@ == old(self)@.timelines[n]
                    &&& t.wf()
                    &&& final(self)@ == (TenantV {
                        timelines: old(self)@.timelines.update(n, final(t)@),
                        ..old(self)@
                    })
                    &&& final(t).wf() && final(t).same_place(*t) ==> final(self).wf()
                },
                None => number_of(old(self)@.timelines, id) < 0 && *final(self) == *old(self),
            },
    {
        match self.find(id) {
            Some(i) => {
                assert(self.timelines@[i as int].wf());
                let ghost was = *self;
                proof {
                    assert forall|now: Timeline<R>| #[trigger]
                        timelines_view(was.timelines@.update(i as int, now)) == timelines_view(
                            was.timelines@,
                        ).update(i as int, now@) by {
                        assert(timelines_view(was.timelines@.update(i as int, now))
                            =~= timelines_view(was.timelines@).update(i as int, now@));
                    }
                    assert forall|x: Tenant<R>, now: Timeline<R>|
                        #![trigger x.wf(), now.wf()]
                        x.redo == was.redo && x.timelines@ == was.timelines@.update(i as int, now)
                            && now.wf() && now.same_place(was.timelines@[i as int]) implies x.wf() by {
                        was.lemma_replaced(x, i as int, now);
                    }
                }
                let t = &mut self.timelines[i];
                Some(t)
            },
            None => None,
        }
    }

    /// All timeline ids currently known to this tenant.
    pub fn timeline_ids(&self) -> (r: Vec<TimelineId>)
        ensures
            r@ == Seq::new(self@.timelines.len(), |i: int| self@.timelines[i].id),
    {
        let mut out: Vec<TimelineId> = Vec::new();
        let mut i: usize = 0;
        while i < self.timelines.len()
            invariant
                i <= self.timelines@.len(),
                out@.len() == i,
                forall|j: int| 0 <= j < i ==> #[trigger] out@[j] == self@.timelines[j].id,
            decreases self.timelines@.len() - i,
        {
            out.push(self.timelines[i].id());
            i += 1;
        }
        assert(out@ =~= Seq::new(self@.timelines.len(), |i: int| self@.timelines[i].id));
        out
    }

    /// The lowest branch point on each timeline.
    fn pins(&self) -> (pins: Vec<u64>)
        requires
            self.wf(),
        ensures
            pins@.len() == self@.timelines.len(),
            forall|i: int|
                0 <= i < pins@.len() ==> #[trigger] pins@[i] == lowest_pin(
                    self@.timelines,
                    i,
                    self@.timelines.len() as int,
                ),
    {
        let n: usize = self.timelines.len();
        let mut pins: Vec<u64> = vec![u64::MAX; n];
        let mut k: usize = 0;
        while k < n
            invariant
                self.wf(),
                k <= n,
                n == self@.timelines.len(),
                n == self.timelines@.len(),
                pins@.len() == n,
                forall|i: int|
                    0 <= i < n ==> #[trigger] pins@[i] == lowest_pin(self@.timelines, i, k as int),
            decreases n - k,
        {
            let t = &self.timelines[k];
            let ghost before = pins@;
            assert(self@.timelines[k as int] == t@);
            if let (Some(p), Some(at)) = (t.ancestor_number(), t.ancestor_lsn()) {
                if at.0 < pins[p] {
                    pins.set(p, at.0);
                }
            }
            assert forall|i: int| 0 <= i < n implies #[trigger] pins@[i] == lowest_pin(
                self@.timelines,
                i,
                k + 1,
            ) by {
                assert(before[i] == lowest_pin(self@.timelines, i, k as int));
            }
            k += 1;
        }
        pins
    }

    /// Compact every timeline at `requested_horizon`.
    ///
    /// A timeline's horizon is lowered so that it never drops history that a
    /// child branch still depends on: a child reads its parent at the branch
    /// point, so each parent is kept down to the lowest branch point of its
    /// direct children.
    pub fn gc(&mut self, requested_horizon: Lsn) -> (r: Vec<(TimelineId, CompactionStats)>)
        requires
            old(self).wf(),
        ensures
            final(self).wf(),
            final(self).backend() == old(self).backend(),
            final(self)@ == collected(old(self)@, requested_horizon),
            collection_report(r@, old(self)@, requested_horizon),
    {
        let pins = self.pins();
        let n: usize = self.timelines.len();
        let ghost was = *self;
        let ghost tls = self@.timelines;
        let mut out: Vec<(TimelineId, CompactionStats)> = Vec::new();
        let mut i: usize = 0;
        while i < n
            invariant
                i <= n,
                n == self.timelines@.len(),
                n == was.timelines@.len(),
                was == *old(self),
                was.wf(),
                self.redo == was.redo,
                self.freeze_threshold == was.freeze_threshold,
                tls == was@.timelines,
                pins@.len() == n,
                forall|j: int|
                    0 <= j < n ==> #[trigger] pins@[j] == lowest_pin(tls, j, tls.len() as int),
                forall|j: int|
                    i <= j < n ==> #[trigger] self.timelines@[j] == was.timelines@[j],
                forall|j: int|
                    0 <= j < i ==> (#[trigger] self.timelines@[j]).wf()
                        && self.timelines@[j].same_place(was.timelines@[j])
                        && self.timelines@[j]@.repo == compacted(
                        tls[j].repo,
                        horizon_of(tls, j, requested_horizon),
                    ),
                out@.len() == i,
                forall|j: int|
                    0 <= j < i ==> (#[trigger] out@[j]).0 == tls[j].id && compaction_report(
                        out@[j].1,
                        tls[j].repo,
                        horizon_of(tls, j, requested_horizon),
                    ),
            decreases n - i,
        {
            let pin: u64 = pins[i];
            let horizon = if pin < requested_horizon.0 {
                Lsn(pin)
            } else {
                requested_horizon
            };
            let ghost before = self.timelines@;
            assert(before[i as int] == was.timelines@[i as int]);
            assert(was.timelines@[i as int].wf());
            assert(tls[i as int] == was.timelines@[i as int]@);
            let id = self.timelines[i].id();
            let stats = self.timelines[i].compact(horizon);
            assert(forall|j: int| 0 <= j < n && j != i ==> self.timelines@[j] == before[j]);
            out.push((id, stats));
            i += 1;
        }
        proof {
            assert forall|j: int| 0 <= j < n implies #[trigger] timelines_view(self.timelines@)[j]
                == collected(was@, requested_horizon).timelines[j] by {
                assert(self.timelines@[j].same_place(was.timelines@[j]));
            }
            assert(self@.timelines =~= collected(was@, requested_horizon).timelines);
            was.lemma_all_replaced(*self);
        }
        out
    }

    /// A tenant stays well-formed when what its timelines' stores hold changes.
    proof fn lemma_all_replaced(self, after: Tenant<R>)
        requires
            self.wf(),
            after.redo == self.redo,
            after.timelines@.len() == self.timelines@.len(),
            forall|j: int|
                0 <= j < after.timelines@.len() ==> (#[trigger] after.timelines@[j]).wf()
                    && after.timelines@[j].same_place(self.timelines@[j]),
        ensures
            after.wf(),
    {
        assert forall|j: int| 0 <= j < after.timelines@.len() implies (
        #[trigger] after.timelines@[j]).number() == j && after.timelines@[j].backend()
            == *after.redo by {
            assert(self.timelines@[j].wf());
        }
        assert forall|a: int, b: int| 0 <= a < b < after.timelines@.len() implies (
        #[trigger] after.timelines@[a])@.id != (#[trigger] after.timelines@[b])@.id by {
            assert(self.timelines@[a]@.id != self.timelines@[b]@.id);
        }
        assert forall|j: int| 0 <= j < after.timelines@.len() implies ((
        #[trigger] after.timelines@[j])@.ancestor matches Some(a) ==> 0 <= a.number < j
            && after.timelines@[j].parent_id() == Some(after.timelines@[a.number]@.id)) by {
            if let Some(a) = after.timelines@[j]@.ancestor {
                assert(self.timelines@[j]@.ancestor == Some(a));
                assert(after.timelines@[a.number].same_place(self.timelines@[a.number]));
            }
        }
    }
}

} // verus!
