//! The pageserver's two endpoints: what they answer.
//!
//! * *Page service*: [`answer`] serves the compute node's requests, routed to
//!   the tenant and timeline that each names.
//! * *Ingest*: a stream of length-prefixed
//!   [`Modification`]s, each applied to one timeline and acknowledged.

use vstd::prelude::*;

use crate::common::ids::{id_text, TenantId, TimelineId};
use crate::common::lsn::Lsn;
use crate::common::page::{PageKey, RelTag};
use crate::common::page_service::{Request, Response, ResponseV};
use crate::pageserver::page::{
    page_error_text, parse_modification, ModV, Modification, PageError, VersionV,
};
use crate::pageserver::reads::{not_in_layers, written_image_is_read_back};
use crate::pageserver::repository::{
    ingested, ingested_one, lookup_result, mods_view, LookupV, PageLookup, RepoV,
};
use crate::pageserver::tenant::{lemma_number_of, number_of};
use crate::pageserver::tenant_manager::{
    lemma_place_at, lemma_place_of, place_of, provisioned, provisioning_is_idempotent, ManagerV,
    TenantManager,
};
use crate::pageserver::timeline::{
    branch_page, branch_size, may_read, native_reads_are_exact, rooted, Timeline, TimelineV,
};
use crate::pageserver::walredo::{RustApplyRedoManager, WalRedoManager};
use crate::text::{copy_str, decimal, push_decimal};

verus! {

/// The tenant, timeline and position that a request names.
pub open spec fn request_target(r: Request) -> (TenantId, TimelineId) {
    match r {
        Request::GetPage { tenant, timeline, rel, block, lsn } => (tenant, timeline),
        Request::GetRelSize { tenant, timeline, rel, lsn } => (tenant, timeline),
    }
}

/// The position at which a page is read: the invalid one means the latest
/// version, which is what the last position shows.
pub open spec fn read_position(lsn: Lsn) -> Lsn {
    if lsn == Lsn(0) {
        Lsn(u64::MAX)
    } else {
        lsn
    }
}

/// The response that a page lookup amounts to.
pub open spec fn page_response(out: LookupV) -> ResponseV {
    match out {
        Ok(Some(p)) => ResponseV::Page(p),
        Ok(None) => ResponseV::NotFound,
        Err(e) => ResponseV::Error("reconstruction failed: "@ + page_error_text(e)),
    }
}

/// The response that a size amounts to.
pub open spec fn size_response(n: Option<u32>) -> ResponseV {
    match n {
        Some(n) => ResponseV::RelSize(n),
        None => ResponseV::NotFound,
    }
}

/// Whether `r` answers the request: the tenant is provisioned on first
/// reference; an unknown timeline is an error; a page is what a read on the
/// timeline may come to, of the latest version where the position is the invalid
/// one, and a size what the timeline knows.
pub open spec fn answers<R: WalRedoManager>(
    backend: R,
    m: ManagerV,
    req: Request,
    r: ResponseV,
) -> bool {
    let (tenant, timeline) = request_target(req);
    let p = provisioned(m, tenant);
    let tls = p.tenants[place_of(p.tenants, tenant)].tenant.timelines;
    let n = number_of(tls, timeline);
    if n < 0 {
        r == ResponseV::Error("unknown timeline "@ + id_text(timeline@))
    } else {
        match req {
            Request::GetPage { tenant, timeline, rel, block, lsn } => exists|out: LookupV|
                may_read(backend, tls, n, PageKey { rel, block }, read_position(lsn), out) && r
                    == #[trigger] page_response(out),
            Request::GetRelSize { tenant, timeline, rel, lsn } => r == size_response(
                branch_size(tls, n, rel, lsn),
            ),
        }
    }
}

/// Answer one page-service request.
pub fn answer<R: WalRedoManager>(tenants: &mut TenantManager<R>, req: &Request) -> (r: Response)
    requires
        old(tenants).wf(),
    ensures
        final(tenants).wf(),
        final(tenants).backend() == old(tenants).backend(),
        final(tenants)@ == provisioned(old(tenants)@, request_target(*req).0),
        answers(old(tenants).backend(), old(tenants)@, *req, r@),
{
    let (tenant_id, timeline_id) = match req {
        Request::GetPage { tenant, timeline, .. } => (*tenant, *timeline),
        Request::GetRelSize { tenant, timeline, .. } => (*tenant, *timeline),
    };
    let ghost p = provisioned(tenants@, tenant_id);
    tenants.provision(tenant_id);
    proof {
        crate::pageserver::tenant_manager::provisioning_is_idempotent(
            old(tenants)@,
            tenant_id,
        );
    }
    let tenant = match tenants.get(tenant_id) {
        Some(t) => t,
        None => {
            return Response::NotFound;
        },
    };
    let timeline = match tenant.get_timeline(timeline_id) {
        Some(t) => t,
        None => {
            let mut m = copy_str("unknown timeline ");
            m.push_str(timeline_id.to_string().as_str());
            return Response::Error(m);
        },
    };
    match req {
        Request::GetPage { rel, block, lsn, .. } => {
            let at = if lsn.is_valid() {
                *lsn
            } else {
                Lsn(u64::MAX)
            };
            let out = timeline.get_page(tenant, PageKey { rel: *rel, block: *block }, at);
            let ghost o = lookup_result(out);
            let r = match out {
                Ok(PageLookup::Page(page)) => Response::Page(page),
                Ok(PageLookup::NotFound) => Response::NotFound,
                Err(e) => {
                    let mut m = copy_str("reconstruction failed: ");
                    m.push_str(e.to_string().as_str());
                    Response::Error(m)
                },
            };
            assert(r@ == page_response(o));
            r
        },
        Request::GetRelSize { rel, lsn, .. } => match timeline.get_rel_size(tenant, *rel, *lsn) {
            Some(n) => Response::RelSize(n),
            None => Response::NotFound,
        },
    }
}

/// Largest accepted ingest body: 1 MiB.
pub const MAX_INGEST_BODY: usize = 1048576;

/// Accept an ingest body's length, or say why not.
pub fn check_ingest_len(len: usize) -> (r: Result<(), String>)
    ensures
        r is Ok <==> 0 < len <= MAX_INGEST_BODY,
        r matches Err(m) ==> m@ == "ingest body length "@ + decimal(len as nat)
            + " out of range"@,
{
    if len > 0 && len <= MAX_INGEST_BODY {
        Ok(())
    } else {
        let mut m = copy_str("ingest body length ");
        push_decimal(&mut m, len as u64);
        m.push_str(" out of range");
        Err(m)
    }
}

/// Decode an ingest body and apply it to the timeline.
pub fn ingest_body<R: WalRedoManager>(timeline: &mut Timeline<R>, body: &[u8]) -> (r: Result<
    (),
    PageError,
>)
    requires
        old(timeline).wf(),
    ensures
        final(timeline).wf(),
        final(timeline).same_place(*old(timeline)),
        match parse_modification(body@) {
            Ok(m) => r is Ok && final(timeline)@.repo == ingested(old(timeline)@.repo, seq![m]),
            Err(e) => r matches Err(x) && x@ == e && final(timeline)@.repo == old(
                timeline,
            )@.repo,
        },
{
    let m = Modification::decode(body)?;
    let ghost mv = m@;
    let mut mods: Vec<Modification> = Vec::new();
    mods.push(m);
    assert(mods_view(mods@) =~= seq![mv]);
    timeline.ingest(mods);
    Ok(())
}

/// A request is answered with what its tenant's timeline reads, of the very page or
/// relation fork and at the very position that it names; for a page, the invalid position
/// stands for the latest. A page that is not known is answered as not found, and so is a
/// size; a timeline that is not known is an error that names it.
pub proof fn requests_are_answered_with_the_reads(
    backend: RustApplyRedoManager,
    m: ManagerV,
    p: int,
    n: int,
    rel: RelTag,
    block: u32,
    lsn: Lsn,
    page_reply: ResponseV,
    size_reply: ResponseV,
)
    requires
        0 <= p < m.tenants.len(),
        forall|i: int| 0 <= i < p ==> (#[trigger] m.tenants[i]).id != m.tenants[p].id,
        rooted(m.tenants[p].tenant.timelines),
        0 <= n < m.tenants[p].tenant.timelines.len(),
        forall|i: int|
            0 <= i < n ==> (#[trigger] m.tenants[p].tenant.timelines[i]).id
                != m.tenants[p].tenant.timelines[n].id,
        answers(
            backend,
            m,
            Request::GetPage {
                tenant: m.tenants[p].id,
                timeline: m.tenants[p].tenant.timelines[n].id,
                rel,
                block,
                lsn,
            },
            page_reply,
        ),
        answers(
            backend,
            m,
            Request::GetRelSize {
                tenant: m.tenants[p].id,
                timeline: m.tenants[p].tenant.timelines[n].id,
                rel,
                lsn,
            },
            size_reply,
        ),
    ensures
        ({
            let tls = m.tenants[p].tenant.timelines;
            let at = if lsn.0 == 0 {
                Lsn(0xFFFF_FFFF_FFFF_FFFF)
            } else {
                lsn
            };
            &&& match branch_page(tls, n, PageKey { rel, block }, at) {
                Ok(Some(page)) => page_reply == ResponseV::Page(page),
                Ok(None) => page_reply == ResponseV::NotFound,
                Err(_) => page_reply is Error,
            }
            &&& match branch_size(tls, n, rel, lsn) {
                Some(blocks) => size_reply == ResponseV::RelSize(blocks),
                None => size_reply == ResponseV::NotFound,
            }
        }),
{
    let tls = m.tenants[p].tenant.timelines;
    lemma_place_at(m.tenants, m.tenants[p].id, p);
    lemma_number_at(tls, n);
    assert forall|out: LookupV| #[trigger]
        may_read(backend, tls, n, PageKey { rel, block }, read_position(lsn), out) implies out
        == branch_page(tls, n, PageKey { rel, block }, read_position(lsn)) by {
        native_reads_are_exact(backend, tls, n, PageKey { rel, block }, read_position(lsn), out);
    }
}

/// The first timeline of an id has its number.
proof fn lemma_number_at(tls: Seq<TimelineV>, n: int)
    requires
        0 <= n < tls.len(),
        forall|i: int| 0 <= i < n ==> (#[trigger] tls[i]).id != tls[n].id,
    ensures
        number_of(tls, tls[n].id) == n,
{
    lemma_number_of(tls, tls[n].id);
    let k = number_of(tls, tls[n].id);
    if 0 <= k < n {
        assert(tls[k].id != tls[n].id);
    }
}

/// A page image that was written to a timeline is what a request for it gives.
pub proof fn written_images_are_served(
    backend: RustApplyRedoManager,
    m: ManagerV,
    p: int,
    n: int,
    before: RepoV,
    written: ModV,
    img: Seq<u8>,
    reply: ResponseV,
)
    requires
        0 <= p < m.tenants.len(),
        forall|i: int| 0 <= i < p ==> (#[trigger] m.tenants[i]).id != m.tenants[p].id,
        rooted(m.tenants[p].tenant.timelines),
        0 <= n < m.tenants[p].tenant.timelines.len(),
        forall|i: int|
            0 <= i < n ==> (#[trigger] m.tenants[p].tenant.timelines[i]).id
                != m.tenants[p].tenant.timelines[n].id,
        m.tenants[p].tenant.timelines[n].repo == ingested_one(before, written),
        not_in_layers(before.layers, (written.key, written.lsn)),
        written.version == VersionV::Image(img),
        img.len() == 8192,
        written.lsn.0 != 0,
        answers(
            backend,
            m,
            Request::GetPage {
                tenant: m.tenants[p].id,
                timeline: m.tenants[p].tenant.timelines[n].id,
                rel: written.key.rel,
                block: written.key.block,
                lsn: written.lsn,
            },
            reply,
        ),
    ensures
        reply == ResponseV::Page(img),
{
    let tls = m.tenants[p].tenant.timelines;
    lemma_place_at(m.tenants, m.tenants[p].id, p);
    lemma_number_at(tls, n);
    written_image_is_read_back(before, written, img);
    assert(PageKey { rel: written.key.rel, block: written.key.block } == written.key);
    assert forall|out: LookupV| #[trigger]
        may_read(backend, tls, n, written.key, written.lsn, out) implies out == branch_page(
        tls,
        n,
        written.key,
        written.lsn,
    ) by {
        native_reads_are_exact(backend, tls, n, written.key, written.lsn, out);
    }
}

/// A request that names a timeline that its tenant does not have, or a tenant that is not
/// there, is answered with an error that names the timeline.
pub proof fn unknown_timelines_are_named<R: WalRedoManager>(
    backend: R,
    m: ManagerV,
    req: Request,
    reply: ResponseV,
)
    requires
        answers(backend, m, req, reply),
        forall|p: int, n: int|
            #![trigger m.tenants[p].tenant.timelines[n]]
            0 <= p < m.tenants.len() && m.tenants[p].id == (match req {
                Request::GetPage { tenant, .. } => tenant,
                Request::GetRelSize { tenant, .. } => tenant,
            }) && 0 <= n < m.tenants[p].tenant.timelines.len()
                ==> m.tenants[p].tenant.timelines[n].id != (match req {
                Request::GetPage { timeline, .. } => timeline,
                Request::GetRelSize { timeline, .. } => timeline,
            }),
    ensures
        reply == ResponseV::Error(
            "unknown timeline "@ + id_text(
                (match req {
                    Request::GetPage { timeline, .. } => timeline,
                    Request::GetRelSize { timeline, .. } => timeline,
                })@,
            ),
        ),
{
    let (tenant, timeline) = request_target(req);
    let q = provisioned(m, tenant);
    let k = place_of(q.tenants, tenant);
    lemma_place_of(m.tenants, tenant);
    lemma_place_of(q.tenants, tenant);
    provisioning_is_idempotent(m, tenant);
    let tls = q.tenants[k].tenant.timelines;
    lemma_number_of(tls, timeline);
    if number_of(tls, timeline) >= 0 {
        if place_of(m.tenants, tenant) >= 0 {
            assert(m.tenants[k].tenant.timelines[number_of(tls, timeline)].id != timeline);
        } else {
            if k < m.tenants.len() {
                assert(q.tenants[k] == m.tenants[k]);
                assert(m.tenants[k].id != tenant);
            }
        }
    }
}

} // verus!
