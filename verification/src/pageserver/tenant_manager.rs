//! Multi-tenant ownership: a registry of isolated [`Tenant`]s by [`TenantId`].
//!
//! One pageserver hosts many tenants at once. Each is a fully isolated set of
//! timelines with its own page stores; nothing is shared between tenants but the
//! redo backend. A tenant comes into being the first time it is referenced.
//!
//! Who works on a tenant over time holds a [`TenantRef`]. It means one tenant for
//! good: once that is removed, it means the removed one, and not a later tenant
//! of the same id.

use std::sync::Arc;

use vstd::prelude::*;

use crate::common::ids::{id_text, TenantId, TimelineId};
use crate::common::lsn::Lsn;
use crate::pageserver::repository::{compaction_report, CompactionStats};
use crate::pageserver::timeline::rooted;
use crate::pageserver::tenant::{
    collected, collection_report, empty_tenant, horizon_of, Tenant, TenantV,
};
use crate::pageserver::walredo::{RustApplyRedoManager, WalRedoManager};
use crate::shared::share;
use crate::text::copy_str;

verus! {

/// Errors from explicit tenant management.
#[derive(Debug, PartialEq, Eq)]
pub enum TenantManagerError {
    /// The tenant exists already.
    AlreadyExists(TenantId),
}

/// The sentence for an error.
pub open spec fn manager_error_text(e: TenantManagerError) -> Seq<char> {
    match e {
        TenantManagerError::AlreadyExists(id) => "tenant "@ + id_text(id@) + " already exists"@,
    }
}

impl TenantManagerError {
    /// The error as a sentence.
    pub fn to_string(&self) -> (r: String)
        ensures
            r@ == manager_error_text(*self),
    {
        match self {
            TenantManagerError::AlreadyExists(id) => {
                let mut m = copy_str("tenant ");
                m.push_str(id.to_string().as_str());
                m.push_str(" already exists");
                m
            },
        }
    }
}

/// A tenant and its id.
pub struct HostedV {
    pub id: TenantId,
    pub tenant: TenantV,
}

/// What a [`TenantManager`] holds.
pub struct ManagerV {
    /// The tenants, in the order in which they came.
    pub tenants: Seq<HostedV>,
    /// The removed tenants that may still be referred to, in the order in which
    /// they went.
    pub removed: Seq<HostedV>,
    pub freeze_threshold: usize,
}

/// A manager of no tenants.
pub open spec fn empty_manager(freeze_threshold: usize) -> ManagerV {
    ManagerV { tenants: Seq::empty(), removed: Seq::empty(), freeze_threshold }
}

/// One tenant for good: its id, and how many tenants of that id went before it.
#[derive(Debug, Clone, Copy, PartialEq, Eq)]
pub struct TenantRef {
    id: TenantId,
    life: usize,
}

/// What a [`TenantRef`] says.
pub struct TenantRefV {
    pub id: TenantId,
    pub life: nat,
}

impl View for TenantRef {
    type V = TenantRefV;

    closed spec fn view(&self) -> TenantRefV {
        TenantRefV { id: self.id, life: self.life as nat }
    }
}

impl TenantRef {
    /// The tenant's id.
    pub fn id(&self) -> (r: TenantId)
        ensures
            r == self@.id,
    {
        self.id
    }
}

/// How many tenants of the id were removed.
pub open spec fn lives(removed: Seq<HostedV>, id: TenantId) -> nat
    decreases removed.len(),
{
    if removed.len() == 0 {
        0
    } else {
        lives(removed.drop_last(), id) + if removed.last().id == id {
            1nat
        } else {
            0
        }
    }
}

/// The number of the removed tenant that is referred to, or -1 where it is not
/// removed.
pub open spec fn grave_of(removed: Seq<HostedV>, r: TenantRefV) -> int
    decreases removed.len(),
{
    if removed.len() == 0 {
        -1
    } else if grave_of(removed.drop_last(), r) >= 0 {
        grave_of(removed.drop_last(), r)
    } else if removed.last().id == r.id && lives(removed.drop_last(), r.id) == r.life {
        removed.len() - 1
    } else {
        -1
    }
}

/// A reference to the tenant of the id that is hosted, or will be.
pub open spec fn ref_to(m: ManagerV, id: TenantId) -> TenantRefV {
    TenantRefV { id, life: lives(m.removed, id) }
}

/// The manager once the tenant that is referred to is there.
pub open spec fn with_referred(m: ManagerV, r: TenantRefV) -> ManagerV {
    if grave_of(m.removed, r) >= 0 {
        m
    } else {
        provisioned(m, r.id)
    }
}

/// The tenant that is referred to.
pub open spec fn referred(m: ManagerV, r: TenantRefV) -> TenantV {
    let g = grave_of(m.removed, r);
    if g >= 0 {
        m.removed[g].tenant
    } else {
        let p = provisioned(m, r.id);
        p.tenants[place_of(p.tenants, r.id)].tenant
    }
}

/// The manager with what the tenant that is referred to holds replaced.
pub open spec fn replaced(m: ManagerV, r: TenantRefV, tenant: TenantV) -> ManagerV {
    let g = grave_of(m.removed, r);
    if g >= 0 {
        ManagerV { removed: m.removed.update(g, HostedV { id: m.removed[g].id, tenant }), ..m }
    } else {
        let p = provisioned(m, r.id);
        with_tenant(p, place_of(p.tenants, r.id), tenant)
    }
}

/// The number of the first tenant with the id, or -1.
pub open spec fn place_of(tenants: Seq<HostedV>, id: TenantId) -> int
    decreases tenants.len(),
{
    if tenants.len() == 0 {
        -1
    } else if place_of(tenants.drop_last(), id) >= 0 {
        place_of(tenants.drop_last(), id)
    } else if tenants.last().id == id {
        tenants.len() - 1
    } else {
        -1
    }
}

/// The manager after a reference to the tenant: an empty one is provisioned
/// where there is none.
pub open spec fn provisioned(m: ManagerV, id: TenantId) -> ManagerV {
    if place_of(m.tenants, id) >= 0 {
        m
    } else {
        ManagerV {
            tenants: m.tenants.push(HostedV { id, tenant: empty_tenant(m.freeze_threshold) }),
            ..m
        }
    }
}

/// The manager with what one tenant holds replaced.
pub open spec fn with_tenant(m: ManagerV, n: int, tenant: TenantV) -> ManagerV {
    ManagerV { tenants: m.tenants.update(n, HostedV { id: m.tenants[n].id, tenant }), ..m }
}

/// The manager without the tenant, which is still there for those who refer to
/// it.
pub open spec fn removed(m: ManagerV, id: TenantId) -> ManagerV {
    let n = place_of(m.tenants, id);
    if n >= 0 {
        ManagerV {
            tenants: m.tenants.remove(n),
            removed: m.removed.push(m.tenants[n]),
            ..m
        }
    } else {
        m
    }
}

/// The manager after a collection of every tenant.
pub open spec fn all_collected(m: ManagerV, horizon: Lsn) -> ManagerV {
    ManagerV {
        tenants: Seq::new(
            m.tenants.len(),
            |i: int|
                HostedV {
                    id: m.tenants[i].id,
                    tenant: collected(m.tenants[i].tenant, horizon),
                },
        ),
        ..m
    }
}

/// Every timeline of every tenant, as the numbers of the two.
pub open spec fn all_timelines(tenants: Seq<HostedV>) -> Seq<(int, int)>
    decreases tenants.len(),
{
    if tenants.len() == 0 {
        Seq::empty()
    } else {
        all_timelines(tenants.drop_last()) + Seq::new(
            tenants.last().tenant.timelines.len(),
            |i: int| (tenants.len() - 1, i),
        )
    }
}

/// What a collection of every tenant reports: one entry for each timeline.
pub open spec fn collection_of_all_report(
    r: Seq<(TenantId, TimelineId, CompactionStats)>,
    m: ManagerV,
    horizon: Lsn,
) -> bool {
    let all = all_timelines(m.tenants);
    &&& r.len() == all.len()
    &&& forall|k: int|
        0 <= k < r.len() ==> {
            let t = m.tenants[all[k].0];
            let i = all[k].1;
            &&& (#[trigger] r[k]).0 == t.id
            &&& r[k].1 == t.tenant.timelines[i].id
            &&& compaction_report(
                r[k].2,
                t.tenant.timelines[i].repo,
                horizon_of(t.tenant.timelines, i, horizon),
            )
        }
}

pub proof fn lemma_place_of(tenants: Seq<HostedV>, id: TenantId)
    ensures
        -1 <= place_of(tenants, id) < tenants.len(),
        place_of(tenants, id) >= 0 ==> tenants[place_of(tenants, id)].id == id,
        forall|i: int|
            0 <= i < tenants.len() && (place_of(tenants, id) < 0 || i < place_of(tenants, id))
                ==> (#[trigger] tenants[i]).id != id,
    decreases tenants.len(),
{
    if tenants.len() > 0 {
        lemma_place_of(tenants.drop_last(), id);
        assert forall|i: int|
            0 <= i < tenants.len() && (place_of(tenants, id) < 0 || i < place_of(
                tenants,
                id,
            )) implies (#[trigger] tenants[i]).id != id by {
            if i < tenants.len() - 1 {
                assert(tenants.drop_last()[i] == tenants[i]);
            }
        }
    }
}

/// A tenant at number `k` with no earlier one of its id has the place `k`.
pub proof fn lemma_place_at(tenants: Seq<HostedV>, id: TenantId, k: int)
    requires
        0 <= k < tenants.len(),
        tenants[k].id == id,
        forall|i: int| 0 <= i < k ==> (#[trigger] tenants[i]).id != id,
    ensures
        place_of(tenants, id) == k,
{
    lemma_place_of(tenants, id);
    let p = place_of(tenants, id);
    if p < 0 {
        assert(tenants[k].id != id);
    } else if p < k {
        assert(tenants[p].id != id);
    } else if k < p {
        assert(tenants[k].id != id);
    }
}

struct Hosted<R: WalRedoManager> {
    id: TenantId,
    tenant: Tenant<R>,
}

/// A registry of isolated tenants, each owning its own timelines.
pub struct TenantManager<R: WalRedoManager> {
    freeze_threshold: usize,
    redo: Arc<R>,
    tenants: Vec<Hosted<R>>,
    removed: Vec<Hosted<R>>,
}

spec fn hosted_view<R: WalRedoManager>(t: Seq<Hosted<R>>) -> Seq<HostedV> {
    Seq::new(t.len(), |i: int| HostedV { id: t[i].id, tenant: t[i].tenant@ })
}

impl<R: WalRedoManager> View for TenantManager<R> {
    type V = ManagerV;

    closed spec fn view(&self) -> ManagerV {
        ManagerV {
            tenants: hosted_view(self.tenants@),
            removed: hosted_view(self.removed@),
            freeze_threshold: self.freeze_threshold,
        }
    }
}

impl TenantManager<RustApplyRedoManager> {
    /// An empty manager whose tenants freeze at `freeze_threshold` and use the
    /// native backend.
    pub fn new(freeze_threshold: usize) -> (r: TenantManager<RustApplyRedoManager>)
        ensures
            r.wf(),
            r@ == empty_manager(freeze_threshold),
    {
        TenantManager::with_redo(freeze_threshold, Arc::new(RustApplyRedoManager))
    }

    /// Host one tenant that exists already, under the all-zero id. Tenants that
    /// come later freeze at 100000 versions and use the native backend.
    pub fn single(tenant: Tenant<RustApplyRedoManager>) -> (r: TenantManager<RustApplyRedoManager>)
        requires
            tenant.wf(),
        ensures
            r.wf(),
            r@.freeze_threshold == 100000,
            r@.tenants.len() == 1,
            r@.tenants[0].id@ == Seq::new(16, |i: int| 0u8),
            r@.tenants[0].tenant == tenant@,
            r@.removed.len() == 0,
    {
        let mut tenants: Vec<Hosted<RustApplyRedoManager>> = Vec::new();
        tenants.push(Hosted { id: TenantId::zero(), tenant });
        TenantManager {
            freeze_threshold: 100000,
            redo: Arc::new(RustApplyRedoManager),
            tenants,
            removed: Vec::new(),
        }
    }
}

impl<R: WalRedoManager> TenantManager<R> {
    /// Tenants are well-formed, no id is hosted twice, and all share the backend.
    pub closed spec fn wf(self) -> bool {
        &&& forall|i: int|
            0 <= i < self.removed@.len() ==> (#[trigger] self.removed@[i]).tenant.wf()
                && self.removed@[i].tenant.backend() == *self.redo
        &&& forall|i: int|
            0 <= i < self.tenants@.len() ==> (#[trigger] self.tenants@[i]).tenant.wf()
                && self.tenants@[i].tenant.backend() == *self.redo
        &&& forall|i: int, j: int|
            0 <= i < j < self.tenants@.len() ==> (#[trigger] self.tenants@[i]).id != (
            #[trigger] self.tenants@[j]).id
    }

    /// The redo backend.
    pub closed spec fn backend(self) -> R {
        *self.redo
    }

    /// No id occurs twice.
    pub proof fn lemma_ids(self)
        requires
            self.wf(),
        ensures
            forall|i: int, j: int|
                0 <= i < j < self@.tenants.len() ==> (#[trigger] self@.tenants[i]).id != (
                #[trigger] self@.tenants[j]).id,
    {
        assert forall|i: int, j: int| 0 <= i < j < self@.tenants.len() implies (
        #[trigger] self@.tenants[i]).id != (#[trigger] self@.tenants[j]).id by {
            assert(self.tenants@[i].id != self.tenants@[j].id);
        }
    }

    /// In every tenant, each branch's parent is an older timeline, and no two
    /// timelines have the same id.
    pub proof fn every_family_is_rooted(self)
        requires
            self.wf(),
        ensures
            forall|i: int|
                0 <= i < self@.tenants.len() ==> rooted(
                    (#[trigger] self@.tenants[i]).tenant.timelines,
                ),
            forall|i: int, j: int, k: int|
                0 <= i < self@.tenants.len() && 0 <= j < k
                    < self@.tenants[i].tenant.timelines.len() ==> (
                #[trigger] self@.tenants[i].tenant.timelines[j]).id != (
                #[trigger] self@.tenants[i].tenant.timelines[k]).id,
    {
        assert forall|i: int| 0 <= i < self@.tenants.len() implies rooted(
            (#[trigger] self@.tenants[i]).tenant.timelines,
        ) by {
            assert(self.tenants@[i].tenant.wf());
            self.tenants@[i].tenant.lemma_family();
        }
        assert forall|i: int, j: int, k: int|
            0 <= i < self@.tenants.len() && 0 <= j < k
                < self@.tenants[i].tenant.timelines.len() implies (
        #[trigger] self@.tenants[i].tenant.timelines[j]).id != (
        #[trigger] self@.tenants[i].tenant.timelines[k]).id by {
            assert(self.tenants@[i].tenant.wf());
            self.tenants@[i].tenant.lemma_family();
        }
    }

    /// An empty manager whose tenants freeze at `freeze_threshold` and share the
    /// `redo` backend.
    pub fn with_redo(freeze_threshold: usize, redo: Arc<R>) -> (r: TenantManager<R>)
        ensures
            r.wf(),
            r@ == empty_manager(freeze_threshold),
            r.backend() == *redo,
    {
        let r = TenantManager {
            freeze_threshold,
            redo,
            tenants: Vec::new(),
            removed: Vec::new(),
        };
        assert(hosted_view(r.tenants@) =~= Seq::empty());
        assert(hosted_view(r.removed@) =~= Seq::empty());
        r
    }

    fn build_tenant(&self) -> (r: Tenant<R>)
        ensures
            r.wf(),
            r@ == empty_tenant(self@.freeze_threshold),
            r.backend() == self.backend(),
    {
        Tenant::with_redo(self.freeze_threshold, share(&self.redo))
    }

    fn find(&self, id: TenantId) -> (r: Option<usize>)
        ensures
            match r {
                Some(i) => i == place_of(self@.tenants, id) && i < self.tenants@.len(),
                None => place_of(self@.tenants, id) < 0,
            },
    {
        let mut i: usize = 0;
        proof {
            lemma_place_of(self@.tenants, id);
        }
        while i < self.tenants.len()
            invariant
                i <= self.tenants@.len(),
                forall|j: int| 0 <= j < i ==> (#[trigger] self@.tenants[j]).id != id,
                -1 <= place_of(self@.tenants, id) < self@.tenants.len(),
                place_of(self@.tenants, id) >= 0 ==> self@.tenants[place_of(
                    self@.tenants,
                    id,
                )].id == id,
            decreases self.tenants@.len() - i,
        {
            assert(self@.tenants[i as int].id == self.tenants@[i as int].id);
            if self.tenants[i].id.same(&id) {
                proof {
                    lemma_place_at(self@.tenants, id, i as int);
                }
                return Some(i);
            }
            i += 1;
        }
        None
    }

    /// Append a tenant with a new id.
    fn push_tenant(&mut self, id: TenantId)
        requires
            old(self).wf(),
            place_of(old(self)@.tenants, id) < 0,
        ensures
            final(self).wf(),
            final(self).backend() == old(self).backend(),
            final(self)@ == provisioned(old(self)@, id),
    {
        let tenant = self.build_tenant();
        proof {
            lemma_place_of(self@.tenants, id);
            assert forall|i: int| 0 <= i < self.tenants@.len() implies (#[trigger] self.tenants@[i]).id
                != id by {
                assert(self@.tenants[i].id != id);
            }
        }
        self.tenants.push(Hosted { id, tenant });
        assert(self@.tenants =~= provisioned(old(self)@, id).tenants);
    }

    /// Look up a tenant.
    pub fn get(&self, id: TenantId) -> (r: Option<&Tenant<R>>)
        requires
            self.wf(),
        ensures
            match r {
                Some(t) => {
                    let n = place_of(self@.tenants, id);
                    n >= 0 && t.wf() && t.backend() == self.backend() && t@
                        == self@.tenants[n].tenant
                },
                None => place_of(self@.tenants, id) < 0,
            },
    {
        match self.find(id) {
            Some(i) => {
                assert(self.tenants@[i as int].tenant.wf());
                Some(&self.tenants[i].tenant)
            },
            None => None,
        }
    }

    /// Tenant number `i`, to change what it holds.
    fn tenant_mut(&mut self, i: usize) -> (t: &mut Tenant<R>)
        requires
            old(self).wf(),
            i < old(self).tenants@.len(),
        ensures
            t.wf(),
            t@ == old(self)@.tenants[i as int].tenant,
            t.backend() == old(self).backend(),
            final(self).backend() == old(self).backend(),
            final(self)@ == with_tenant(old(self)@, i as int, final(t)@),
            final(t).wf() && final(t).backend() == t.backend() ==> final(self).wf(),
    {
        assert(self.tenants@[i as int].tenant.wf());
        let ghost was = *self;
        proof {
            assert forall|now: Hosted<R>|
                now.id == was.tenants@[i as int].id implies #[trigger] hosted_view(
                was.tenants@.update(i as int, now),
            ) == with_tenant(was@, i as int, now.tenant@).tenants by {
                assert(hosted_view(was.tenants@.update(i as int, now)) =~= with_tenant(
                    was@,
                    i as int,
                    now.tenant@,
                ).tenants);
            }
        }
        &mut self.tenants[i].tenant
    }

    /// Look up a tenant, to change what it holds.
    pub fn get_mut(&mut self, id: TenantId) -> (r: Option<&mut Tenant<R>>)
        requires
            old(self).wf(),
        ensures
            match r {
                Some(t) => {
                    let n = place_of(old(self)@.tenants, id);
                    &&& 0 <= n < old(self)@.tenants.len()
                    &&& t.wf()
                    &&& t@ == old(self)@.tenants[n].tenant
                    &&& t.backend() == old(self).backend()
                    &&& final(self).backend() == old(self).backend()
                    &&& final(self)@ == with_tenant(old(self)@, n, final(t)@)
                    &&& final(t).wf() && final(t).backend() == t.backend() ==> final(self).wf()
                },
                None => place_of(old(self)@.tenants, id) < 0 && *final(self) == *old(self),
            },
    {
        match self.find(id) {
            Some(i) => Some(self.tenant_mut(i)),
            None => None,
        }
    }

    /// Look up a tenant, provisioning an empty one on first reference.
    pub fn get_or_create(&mut self, id: TenantId) -> (t: &mut Tenant<R>)
        requires
            old(self).wf(),
        ensures
            ({
                let m = provisioned(old(self)@, id);
                let n = place_of(m.tenants, id);
                &&& 0 <= n < m.tenants.len()
                &&& t.wf()
                &&& t@ == m.tenants[n].tenant
                &&& t.backend() == old(self).backend()
                &&& final(self).backend() == old(self).backend()
                &&& final(self)@ == with_tenant(m, n, final(t)@)
                &&& final(t).wf() && final(t).backend() == t.backend() ==> final(self).wf()
            }),
    {
        proof {
            lemma_place_of(self@.tenants, id);
        }
        let n: usize = match self.find(id) {
            Some(i) => i,
            None => {
                let n: usize = self.tenants.len();
                let ghost before = self@.tenants;
                self.push_tenant(id);
                proof {
                    assert forall|i: int| 0 <= i < n implies (#[trigger] self@.tenants[i]).id
                        != id by {
                        assert(before[i].id != id);
                    }
                    lemma_place_at(self@.tenants, id, n as int);
                }
                n
            },
        };
        self.tenant_mut(n)
    }

    /// Provision an empty tenant where there is none.
    pub fn provision(&mut self, id: TenantId)
        requires
            old(self).wf(),
        ensures
            final(self).wf(),
            final(self).backend() == old(self).backend(),
            final(self)@ == provisioned(old(self)@, id),
    {
        if self.find(id).is_none() {
            self.push_tenant(id);
        }
    }

    /// Explicitly create a tenant; an error if it exists already.
    pub fn create(&mut self, id: TenantId) -> (r: Result<(), TenantManagerError>)
        requires
            old(self).wf(),
        ensures
            final(self).wf(),
            final(self).backend() == old(self).backend(),
            final(self)@ == provisioned(old(self)@, id),
            if place_of(old(self)@.tenants, id) >= 0 {
                r == Err::<(), TenantManagerError>(TenantManagerError::AlreadyExists(id))
            } else {
                r is Ok
            },
    {
        if self.find(id).is_some() {
            return Err(TenantManagerError::AlreadyExists(id));
        }
        self.push_tenant(id);
        Ok(())
    }

    /// Remove a tenant; whether it existed. Those who refer to it still do; where
    /// nobody does any more, [`drop_removed`](Self::drop_removed) drops what it
    /// holds.
    pub fn remove(&mut self, id: TenantId) -> (r: bool)
        requires
            old(self).wf(),
        ensures
            final(self).wf(),
            final(self).backend() == old(self).backend(),
            final(self)@ == removed(old(self)@, id),
            r == (place_of(old(self)@.tenants, id) >= 0),
    {
        match self.find(id) {
            Some(i) => {
                let ghost was = *self;
                let gone = self.tenants.remove(i);
                let ghost gone_view = HostedV { id: gone.id, tenant: gone.tenant@ };
                assert(gone == was.tenants@[i as int]);
                assert(was.tenants@[i as int].tenant.wf());
                self.removed.push(gone);
                proof {
                    assert(self@.removed =~= was@.removed.push(gone_view));
                    assert(self.tenants@ =~= was.tenants@.remove(i as int));
                    assert(self@.tenants =~= was@.tenants.remove(i as int));
                    assert forall|j: int| 0 <= j < self.tenants@.len() implies #[trigger] self.tenants@[j]
                        == was.tenants@[if j < i {
                        j
                    } else {
                        j + 1
                    }] by {
                    }
                }
                true
            },
            None => false,
        }
    }

    /// Drop the removed tenants with all they hold: for when nobody refers to one.
    pub fn drop_removed(&mut self)
        requires
            old(self).wf(),
        ensures
            final(self).wf(),
            final(self).backend() == old(self).backend(),
            final(self)@ == (ManagerV { removed: Seq::empty(), ..old(self)@ }),
    {
        self.removed = Vec::new();
        assert(hosted_view(self.removed@) =~= Seq::empty());
    }

    /// Refer to a tenant, provisioning an empty one on first reference.
    pub fn refer(&mut self, id: TenantId) -> (r: TenantRef)
        requires
            old(self).wf(),
        ensures
            final(self).wf(),
            final(self).backend() == old(self).backend(),
            final(self)@ == provisioned(old(self)@, id),
            r@ == ref_to(old(self)@, id),
    {
        self.provision(id);
        let mut life: usize = 0;
        let mut i: usize = 0;
        let ghost gone = self@.removed;
        assert(gone.take(0) =~= Seq::empty());
        while i < self.removed.len()
            invariant
                i <= self.removed@.len(),
                gone == hosted_view(self.removed@),
                life <= i,
                life == lives(gone.take(i as int), id),
            decreases self.removed@.len() - i,
        {
            assert(gone.take(i + 1).drop_last() =~= gone.take(i as int));
            assert(gone.take(i + 1).last() == gone[i as int]);
            if self.removed[i].id.same(&id) {
                life += 1;
            }
            i += 1;
        }
        assert(gone.take(i as int) =~= gone);
        TenantRef { id, life }
    }

    /// The number of the removed tenant that is referred to.
    fn find_removed(&self, r: TenantRef) -> (g: Option<usize>)
        ensures
            match g {
                Some(i) => i == grave_of(self@.removed, r@) && i < self.removed@.len(),
                None => grave_of(self@.removed, r@) < 0,
            },
    {
        let ghost gone = self@.removed;
        let mut before: usize = 0;
        let mut i: usize = 0;
        assert(gone.take(0) =~= Seq::empty());
        while i < self.removed.len()
            invariant
                i <= self.removed@.len(),
                gone == hosted_view(self.removed@),
                gone == self@.removed,
                before <= i,
                before == lives(gone.take(i as int), r@.id),
                grave_of(gone.take(i as int), r@) < 0,
            decreases self.removed@.len() - i,
        {
            assert(gone.take(i + 1).drop_last() =~= gone.take(i as int));
            assert(gone.take(i + 1).last() == gone[i as int]);
            if self.removed[i].id.same(&r.id) {
                if before == r.life {
                    proof {
                        lemma_grave_stays(gone, r@, i + 1);
                    }
                    return Some(i);
                }
                before += 1;
            }
            i += 1;
        }
        assert(gone.take(i as int) =~= gone);
        None
    }

    /// The tenant that is referred to, to change what it holds. Where it was
    /// never there, an empty one is provisioned.
    pub fn referred_mut(&mut self, r: TenantRef) -> (t: &mut Tenant<R>)
        requires
            old(self).wf(),
        ensures
            t.wf(),
            t@ == referred(old(self)@, r@),
            t.backend() == old(self).backend(),
            final(self).backend() == old(self).backend(),
            final(self)@ == replaced(old(self)@, r@, final(t)@),
            final(t).wf() && final(t).backend() == t.backend() ==> final(self).wf(),
    {
        match self.find_removed(r) {
            Some(i) => {
                assert(self.removed@[i as int].tenant.wf());
                let ghost was = *self;
                proof {
                    assert forall|now: Hosted<R>|
                        now.id == was.removed@[i as int].id implies #[trigger] hosted_view(
                        was.removed@.update(i as int, now),
                    ) == replaced(was@, r@, now.tenant@).removed by {
                        assert(hosted_view(was.removed@.update(i as int, now)) =~= replaced(
                            was@,
                            r@,
                            now.tenant@,
                        ).removed);
                    }
                }
                &mut self.removed[i].tenant
            },
            None => self.get_or_create(r.id),
        }
    }

    /// Ids of every provisioned tenant.
    pub fn tenant_ids(&self) -> (r: Vec<TenantId>)
        ensures
            r@ == Seq::new(self@.tenants.len(), |i: int| self@.tenants[i].id),
    {
        let mut out: Vec<TenantId> = Vec::new();
        let mut i: usize = 0;
        while i < self.tenants.len()
            invariant
                i <= self.tenants@.len(),
                out@.len() == i,
                forall|j: int| 0 <= j < i ==> #[trigger] out@[j] == self@.tenants[j].id,
            decreases self.tenants@.len() - i,
        {
            out.push(self.tenants[i].id);
            i += 1;
        }
        assert(out@ =~= Seq::new(self@.tenants.len(), |i: int| self@.tenants[i].id));
        out
    }

    /// Every tenant with its id, for work across tenants.
    pub fn tenants(&self) -> (r: Vec<(TenantId, &Tenant<R>)>)
        requires
            self.wf(),
        ensures
            r@.len() == self@.tenants.len(),
            forall|i: int|
                0 <= i < r@.len() ==> (#[trigger] r@[i]).0 == self@.tenants[i].id && r@[i].1@
                    == self@.tenants[i].tenant && r@[i].1.wf() && r@[i].1.backend()
                    == self.backend(),
    {
        let mut out: Vec<(TenantId, &Tenant<R>)> = Vec::new();
        let mut i: usize = 0;
        while i < self.tenants.len()
            invariant
                self.wf(),
                i <= self.tenants@.len(),
                out@.len() == i,
                forall|j: int|
                    0 <= j < i ==> (#[trigger] out@[j]).0 == self@.tenants[j].id && out@[j].1@
                        == self@.tenants[j].tenant && out@[j].1.wf() && out@[j].1.backend()
                        == self.backend(),
            decreases self.tenants@.len() - i,
        {
            assert(self.tenants@[i as int].tenant.wf());
            out.push((self.tenants[i].id, &self.tenants[i].tenant));
            i += 1;
        }
        out
    }

    /// Collect every tenant at `horizon`, respecting branch points; one report
    /// for each timeline, with its tenant.
    pub fn gc_all(&mut self, horizon: Lsn) -> (r: Vec<(TenantId, TimelineId, CompactionStats)>)
        requires
            old(self).wf(),
        ensures
            final(self).wf(),
            final(self).backend() == old(self).backend(),
            final(self)@ == all_collected(old(self)@, horizon),
            collection_of_all_report(r@, old(self)@, horizon),
    {
        let n: usize = self.tenants.len();
        let ghost was = *self;
        let ghost m = self@;
        let mut out: Vec<(TenantId, TimelineId, CompactionStats)> = Vec::new();
        let mut i: usize = 0;
        assert(m.tenants.take(0) =~= Seq::empty());
        while i < n
            invariant
                i <= n,
                n == self.tenants@.len(),
                n == was.tenants@.len(),
                was == *old(self),
                m == was@,
                was.wf(),
                self.redo == was.redo,
                self.removed == was.removed,
                self.freeze_threshold == was.freeze_threshold,
                forall|j: int|
                    i <= j < n ==> #[trigger] self.tenants@[j] == was.tenants@[j],
                forall|j: int|
                    0 <= j < i ==> (#[trigger] self.tenants@[j]).tenant.wf()
                        && self.tenants@[j].id == was.tenants@[j].id
                        && self.tenants@[j].tenant.backend() == *was.redo
                        && self.tenants@[j].tenant@ == collected(m.tenants[j].tenant, horizon),
                collection_of_all_report(
                    out@,
                    ManagerV { tenants: m.tenants.take(i as int), ..m },
                    horizon,
                ),
            decreases n - i,
        {
            let ghost before = self.tenants@;
            let ghost t = m.tenants[i as int];
            let ghost sofar = m.tenants.take(i as int);
            let ghost next = m.tenants.take(i + 1);
            assert(before[i as int] == was.tenants@[i as int]);
            assert(was.tenants@[i as int].tenant.wf());
            let id = self.tenants[i].id;
            let stats = self.tenants[i].tenant.gc(horizon);
            assert(forall|j: int| 0 <= j < n && j != i ==> self.tenants@[j] == before[j]);
            let ghost all = all_timelines(sofar);
            let ghost all_next = all_timelines(next);
            let ghost done = stats@;
            let ghost out_before = out@;
            proof {
                assert(next.drop_last() =~= sofar);
                assert(next.last() == t);
                lemma_all_timelines(sofar);
            }
            assert(all_next.len() == all.len() + done.len());
            let ghost given = stats@;
            for one in iter: stats
                invariant
                    iter.seq() == given,
                    done == given,
                    all_next == all_timelines(next),
                    all == all_timelines(sofar),
                    all_next.len() == all.len() + done.len(),
                    next == m.tenants.take(i + 1),
                    sofar == m.tenants.take(i as int),
                    0 <= i < m.tenants.len(),
                    t == m.tenants[i as int],
                    id == t.id,
                    next.drop_last() == sofar,
                    next.last() == t,
                    collection_report(done, t.tenant, horizon),
                    all.len() == out_before.len(),
                    collection_of_all_report(
                        out_before,
                        ManagerV { tenants: sofar, ..m },
                        horizon,
                    ),
                    forall|k: int| 0 <= k < all.len() ==> 0 <= (#[trigger] all[k]).0 < sofar.len(),
                    out@.len() == all.len() + iter.index(),
                    forall|k: int| 0 <= k < all.len() ==> #[trigger] out@[k] == out_before[k],
                    forall|k: int|
                        all.len() <= k < out@.len() ==> (#[trigger] out@[k]).0 == t.id && out@[k].1
                            == done[k - all.len()].0 && out@[k].2 == done[k - all.len()].1,
            {
                let ghost k = iter.index() as int;
                assert(one == done[k]);
                out.push((id, one.0, one.1));
            }
            proof {
                let mv = ManagerV { tenants: next, ..m };
                assert forall|k: int| 0 <= k < out@.len() implies ({
                    let x = mv.tenants[all_next[k].0];
                    let q = all_next[k].1;
                    &&& (#[trigger] out@[k]).0 == x.id
                    &&& out@[k].1 == x.tenant.timelines[q].id
                    &&& compaction_report(
                        out@[k].2,
                        x.tenant.timelines[q].repo,
                        horizon_of(x.tenant.timelines, q, horizon),
                    )
                }) by {
                    if k < all.len() {
                        assert(out@[k] == out_before[k]);
                        assert(all_next[k] == all[k]);
                        assert(next[all[k].0] == sofar[all[k].0]);
                    } else {
                        assert(all_next[k] == (i as int, k - all.len()));
                        assert(next[i as int] == t);
                        assert(done[k - all.len()].0 == t.tenant.timelines[k - all.len()].id);
                    }
                }
                assert(collection_of_all_report(out@, mv, horizon));
            }
            i += 1;
        }
        proof {
            assert(m.tenants.take(n as int) =~= m.tenants);
            assert forall|j: int| 0 <= j < n implies #[trigger] hosted_view(self.tenants@)[j]
                == all_collected(m, horizon).tenants[j] by {
                assert(self.tenants@[j].id == was.tenants@[j].id);
            }
            assert(self@.tenants =~= all_collected(m, horizon).tenants);
            assert forall|a: int, b: int| 0 <= a < b < self.tenants@.len() implies (
            #[trigger] self.tenants@[a]).id != (#[trigger] self.tenants@[b]).id by {
                assert(was.tenants@[a].id != was.tenants@[b].id);
            }
        }
        out
    }
}

/// A removed tenant that was found is found among more.
proof fn lemma_grave_stays(gone: Seq<HostedV>, r: TenantRefV, n: int)
    requires
        0 <= n <= gone.len(),
        grave_of(gone.take(n), r) >= 0,
    ensures
        grave_of(gone, r) == grave_of(gone.take(n), r),
    decreases gone.len(),
{
    if n < gone.len() {
        assert(gone.drop_last().take(n) =~= gone.take(n));
        lemma_grave_stays(gone.drop_last(), r, n);
    } else {
        assert(gone.take(n) =~= gone);
    }
}

/// A tenant is found among the removed ones just where enough of its id went.
pub proof fn lemma_grave_of(gone: Seq<HostedV>, r: TenantRefV)
    ensures
        grave_of(gone, r) >= 0 <==> r.life < lives(gone, r.id),
        -1 <= grave_of(gone, r) < gone.len(),
        grave_of(gone, r) >= 0 ==> gone[grave_of(gone, r)].id == r.id,
    decreases gone.len(),
{
    if gone.len() > 0 {
        lemma_grave_of(gone.drop_last(), r);
    }
}

/// A reference means one tenant for good. Right after it was taken it means the
/// hosted tenant of its id. It does not see what becomes of other tenants; and
/// when its tenant is removed, what it means stays the same, whatever tenant of
/// that id is provisioned later.
pub proof fn references_outlive_removals(m: ManagerV, r: TenantRefV, id: TenantId)
    requires
        r.life <= lives(m.removed, r.id),
        r.life == lives(m.removed, r.id) ==> place_of(m.tenants, r.id) >= 0,
    ensures
        r == ref_to(m, r.id) ==> referred(m, r) == m.tenants[place_of(m.tenants, r.id)].tenant,
        referred(removed(m, id), r) == referred(m, r),
        referred(provisioned(m, id), r) == referred(m, r),
        with_referred(m, r) == m,
{
    let g = grave_of(m.removed, r);
    lemma_grave_of(m.removed, r);
    lemma_place_of(m.tenants, r.id);
    lemma_place_of(m.tenants, id);
    let after = removed(m, id);
    let n = place_of(m.tenants, id);
    if n >= 0 {
        assert(after.removed.drop_last() =~= m.removed);
        lemma_grave_of(after.removed, r);
        if g < 0 && id != r.id {
            // The hosted one keeps its place, or moves up by one.
            let p = place_of(m.tenants, r.id);
            let q = if p < n {
                p
            } else {
                p - 1
            };
            assert forall|i: int| 0 <= i < q implies (#[trigger] after.tenants[i]).id != r.id by {
                if i < n {
                    assert(after.tenants[i] == m.tenants[i]);
                } else {
                    assert(after.tenants[i] == m.tenants[i + 1]);
                }
            }
            assert(after.tenants[q] == m.tenants[p]);
            lemma_place_at(after.tenants, r.id, q);
        }
    }
    if g < 0 {
        let p = provisioned(m, id);
        let k = place_of(m.tenants, r.id);
        assert forall|i: int| 0 <= i < k implies (#[trigger] p.tenants[i]).id != r.id by {
            assert(p.tenants[i] == m.tenants[i]);
        }
        assert(p.tenants[k] == m.tenants[k]);
        lemma_place_at(p.tenants, r.id, k);
    }
}

proof fn lemma_all_timelines(tenants: Seq<HostedV>)
    ensures
        forall|k: int|
            0 <= k < all_timelines(tenants).len() ==> 0 <= (#[trigger] all_timelines(tenants)[k]).0
                < tenants.len(),
    decreases tenants.len(),
{
    if tenants.len() > 0 {
        let front = tenants.drop_last();
        lemma_all_timelines(front);
        assert forall|k: int| 0 <= k < all_timelines(tenants).len() implies 0 <= (
        #[trigger] all_timelines(tenants)[k]).0 < tenants.len() by {
            if k < all_timelines(front).len() {
                assert(all_timelines(tenants)[k] == all_timelines(front)[k]);
            }
        }
    }
}

/// Tenants are isolated: whatever becomes of one tenant, provisioning it
/// included, every other tenant stays as it is.
pub proof fn tenants_are_isolated(m: ManagerV, id: TenantId, tenant: TenantV, other: TenantId)
    requires
        other != id,
        place_of(m.tenants, other) >= 0,
    ensures
        ({
            let p = provisioned(m, id);
            let n = place_of(p.tenants, id);
            let now = with_tenant(p, n, tenant);
            &&& place_of(now.tenants, other) == place_of(m.tenants, other)
            &&& now.tenants[place_of(m.tenants, other)] == m.tenants[place_of(m.tenants, other)]
        }),
{
    let p = provisioned(m, id);
    lemma_place_of(m.tenants, other);
    lemma_place_of(m.tenants, id);
    lemma_place_of(p.tenants, id);
    let k = place_of(m.tenants, other);
    if place_of(m.tenants, id) < 0 {
        let n = m.tenants.len() as int;
        assert forall|i: int| 0 <= i < n implies (#[trigger] p.tenants[i]).id != id by {
            assert(p.tenants[i] == m.tenants[i]);
        }
        lemma_place_at(p.tenants, id, n);
    }
    let n = place_of(p.tenants, id);
    let now = with_tenant(p, n, tenant);
    assert forall|i: int| 0 <= i < k implies (#[trigger] now.tenants[i]).id != other by {
        assert(now.tenants[i].id == m.tenants[i].id);
    }
    assert(now.tenants[k] == m.tenants[k]);
    lemma_place_at(now.tenants, other, k);
}

/// A second reference provisions nothing.
pub proof fn provisioning_is_idempotent(m: ManagerV, id: TenantId)
    ensures
        provisioned(provisioned(m, id), id) == provisioned(m, id),
        place_of(provisioned(m, id).tenants, id) >= 0,
{
    if place_of(m.tenants, id) < 0 {
        let p = provisioned(m, id);
        assert(p.tenants.drop_last() =~= m.tenants);
    }
}

/// The first reference to a tenant adds it, empty and behind the others; any other leaves
/// the tenants as they are.
pub proof fn the_first_reference_adds_an_empty_tenant(m: ManagerV, id: TenantId)
    ensures
        ({
            let now = provisioned(m, id);
            let n = m.tenants.len() as int;
            let known = exists|i: int| 0 <= i < n && (#[trigger] m.tenants[i]).id == id;
            &&& known ==> now == m
            &&& !known ==> {
                &&& now.tenants.len() == n + 1
                &&& now.tenants[n].id == id
                &&& now.tenants[n].tenant.timelines.len() == 0
                &&& now.tenants[n].tenant.freeze_threshold == m.freeze_threshold
                &&& now.removed == m.removed
                &&& now.freeze_threshold == m.freeze_threshold
            }
            &&& forall|i: int| 0 <= i < n ==> now.tenants[i] == #[trigger] m.tenants[i]
        }),
{
    lemma_place_of(m.tenants, id);
}

/// Removing takes one tenant of the id away, the first, and no other; the order of the
/// others stays. Where there is none, nothing happens.
pub proof fn removing_takes_one_tenant_away(m: ManagerV, id: TenantId, n: int)
    ensures
        0 <= n < m.tenants.len() && m.tenants[n].id == id && (forall|i: int|
            0 <= i < n ==> (#[trigger] m.tenants[i]).id != id) ==> {
            let now = removed(m, id);
            &&& now.tenants.len() == m.tenants.len() - 1
            &&& forall|i: int| 0 <= i < n ==> now.tenants[i] == #[trigger] m.tenants[i]
            &&& forall|i: int|
                n <= i < now.tenants.len() ==> #[trigger] now.tenants[i] == m.tenants[i + 1]
        },
        (forall|i: int| 0 <= i < m.tenants.len() ==> (#[trigger] m.tenants[i]).id != id) ==> removed(
            m,
            id,
        ) == m,
{
    lemma_place_of(m.tenants, id);
    if 0 <= n < m.tenants.len() && m.tenants[n].id == id && (forall|i: int|
        0 <= i < n ==> (#[trigger] m.tenants[i]).id != id) {
        lemma_place_at(m.tenants, id, n);
    }
}

/// A collection of every tenant reports every timeline of every tenant, and each once.
pub proof fn every_timeline_is_reported_once(tenants: Seq<HostedV>)
    ensures
        ({
            let all = all_timelines(tenants);
            &&& forall|i: int, j: int|
                0 <= i < tenants.len() && 0 <= j < tenants[i].tenant.timelines.len()
                    ==> #[trigger] all.contains((i, j))
            &&& forall|k: int|
                0 <= k < all.len() ==> 0 <= (#[trigger] all[k]).0 < tenants.len() && 0 <= all[k].1
                    < tenants[all[k].0].tenant.timelines.len()
            &&& forall|a: int, b: int| 0 <= a < b < all.len() ==> #[trigger] all[a] != #[trigger] all[b]
        }),
    decreases tenants.len(),
{
    if tenants.len() > 0 {
        let front = tenants.drop_last();
        let n = tenants.len() - 1;
        let before = all_timelines(front);
        let own = Seq::new(tenants.last().tenant.timelines.len(), |i: int| (n, i));
        let all = all_timelines(tenants);
        every_timeline_is_reported_once(front);
        assert(all =~= before + own);
        assert forall|i: int, j: int|
            0 <= i < tenants.len() && 0 <= j < tenants[i].tenant.timelines.len() implies #[trigger] all.contains(
            (i, j),
        ) by {
            if i < n {
                assert(front[i] == tenants[i]);
                assert(before.contains((i, j)));
                let k = choose|k: int| 0 <= k < before.len() && before[k] == (i, j);
                assert(all[k] == (i, j));
            } else {
                assert(all[before.len() + j] == own[j]);
            }
        }
        assert forall|k: int| 0 <= k < all.len() implies 0 <= (#[trigger] all[k]).0 < tenants.len()
            && 0 <= all[k].1 < tenants[all[k].0].tenant.timelines.len() by {
            if k < before.len() {
                assert(all[k] == before[k]);
                assert(front[before[k].0] == tenants[before[k].0]);
            } else {
                assert(all[k] == own[k - before.len()]);
            }
        }
        assert forall|a: int, b: int| 0 <= a < b < all.len() implies #[trigger] all[a]
            != #[trigger] all[b] by {
            if b < before.len() {
                assert(before[a] != before[b]);
            } else if a < before.len() {
                assert(all[a] == before[a]);
                assert(all[b] == own[b - before.len()]);
            } else {
                assert(all[a] == own[a - before.len()]);
                assert(all[b] == own[b - before.len()]);
            }
        }
    }
}

/// A collection of everything collects each tenant at the position, and changes nothing
/// else: the tenants stay where they were, and those that were removed as they were.
pub proof fn everything_is_collected(m: ManagerV, horizon: Lsn, i: int)
    requires
        0 <= i < m.tenants.len(),
    ensures
        ({
            let now = all_collected(m, horizon);
            &&& now.tenants.len() == m.tenants.len()
            &&& now.tenants[i].id == m.tenants[i].id
            &&& now.tenants[i].tenant == collected(m.tenants[i].tenant, horizon)
            &&& now.removed == m.removed
            &&& now.freeze_threshold == m.freeze_threshold
        }),
{
}

} // verus!
