//! What the commands of the control protocol and the requests of the HTTP control plane
//! do to the tenants, in terms of what they name.

use vstd::prelude::*;

use crate::common::ids::{
    id_text, id_text_round_trip, lemma_tenant_id_of, lemma_timeline_id_of, tenant_id_named,
    timeline_id_named, TenantId, TimelineId,
};
use crate::common::lsn::Lsn;
use crate::json::{texts_list, JsonV};
use crate::pageserver::control::{
    executed, handled, layers_replaced, number_word, reported_drops, tenant_list, timeline_list,
    timeline_word, word, ControlActionV, ControlSessionV,
};
use crate::pageserver::httpapi::{
    on_tenant, routed, tenant_in_query, tenant_named_by, tenant_op, tenant_piece, RouteBodyV,
    RouteStepV,
};
use crate::pageserver::tenant::{
    branched, collected, created, lemma_number_of, tenant_error_text, TenantV,
};
use crate::pageserver::tenant_manager::{
    grave_of, lemma_grave_of, lemma_place_at, lemma_place_of, lives, place_of, provisioned,
    provisioning_is_idempotent, ref_to, referred, with_tenant, HostedV, ManagerV, TenantRefV,
};
use crate::text::{decimal, digits_round_trip, hex_fixed, split_on, starts_with, words};

verus! {

/// Which removed tenant is meant goes by the ids alone.
proof fn lemma_graves(a: Seq<HostedV>, b: Seq<HostedV>, r: TenantRefV)
    requires
        a.len() == b.len(),
        forall|i: int| 0 <= i < a.len() ==> (#[trigger] a[i]).id == b[i].id,
    ensures
        lives(a, r.id) == lives(b, r.id),
        grave_of(a, r) == grave_of(b, r),
    decreases a.len(),
{
    if a.len() > 0 {
        let x = a.drop_last();
        let y = b.drop_last();
        assert forall|i: int| 0 <= i < x.len() implies (#[trigger] x[i]).id == y[i].id by {
            assert(x[i] == a[i] && y[i] == b[i]);
        }
        lemma_graves(x, y, r);
        assert(a[a.len() - 1].id == b[b.len() - 1].id);
    }
}

/// The words of the commands differ.
proof fn lemma_verbs()
    ensures
        "create"@ != "branch"@,
        "create"@ != "list"@,
        "create"@ != "gc"@,
        "create"@ != "tenant"@,
        "create"@ != "tenants"@,
        "create"@ != "receive"@,
        "branch"@ != "list"@,
        "branch"@ != "gc"@,
        "branch"@ != "tenant"@,
        "branch"@ != "tenants"@,
        "branch"@ != "receive"@,
        "list"@ != "gc"@,
        "list"@ != "tenant"@,
        "list"@ != "tenants"@,
        "list"@ != "receive"@,
        "gc"@ != "tenant"@,
        "gc"@ != "tenants"@,
        "gc"@ != "receive"@,
        "tenant"@ != "tenants"@,
        "tenant"@ != "receive"@,
        "tenants"@ != "receive"@,
{
    reveal_strlit("create");
    reveal_strlit("branch");
    reveal_strlit("list");
    reveal_strlit("gc");
    reveal_strlit("tenant");
    reveal_strlit("tenants");
    reveal_strlit("receive");
    assert("create"@[0] == 'c' && "branch"@[0] == 'b' && "tenant"@[0] == 't');
    assert("tenants"@[0] == 't' && "receive"@[0] == 'r');
    assert("list"@.len() == 4 && "gc"@.len() == 2);
    assert("tenant"@.len() == 6 && "tenants"@.len() == 7);
}

/// `create` and a timeline's id create that timeline: where the tenant can have it, it has
/// it, and the reply is `ok`; else nothing changes.
pub proof fn create_creates(t: TenantV, line: Seq<char>, id: TimelineId)
    requires
        words(line).len() >= 2,
        words(line)[0] == "create"@,
        words(line)[1] == id_text(id@),
    ensures
        executed(t, line).0 == (match created(t, id) {
            Ok(now) => now,
            Err(_) => t,
        }),
        executed(t, line).1 == (match created(t, id) {
            Ok(_) => "ok created "@ + id_text(id@),
            Err(e) => "err "@ + tenant_error_text(e),
        }),
{
    lemma_verbs();
    lemma_timeline_id_of(id);
}

/// `branch`, a new timeline's id, its parent's and a position branch the new one off the
/// parent at the position: where the tenant can have the branch, it has it, and the reply
/// is `ok`; else nothing changes.
pub proof fn branch_branches(
    t: TenantV,
    line: Seq<char>,
    new: TimelineId,
    parent: TimelineId,
    at: Lsn,
)
    requires
        words(line).len() >= 4,
        words(line)[0] == "branch"@,
        words(line)[1] == id_text(new@),
        words(line)[2] == id_text(parent@),
        words(line)[3] == decimal(at.0 as nat),
    ensures
        executed(t, line).0 == (match branched(t, new, parent, at) {
            Ok(now) => now,
            Err(_) => t,
        }),
        executed(t, line).1 == (match branched(t, new, parent, at) {
            Ok(_) => "ok branched "@ + id_text(new@) + " from "@ + id_text(parent@) + " @ "@
                + decimal(at.0 as nat),
            Err(e) => "err "@ + tenant_error_text(e),
        }),
{
    lemma_verbs();
    lemma_timeline_id_of(new);
    lemma_timeline_id_of(parent);
    digits_round_trip(at.0 as nat, 10, false, u64::MAX as nat);
    assert(timeline_word(words(line), 1) == Some(new));
    assert(timeline_word(words(line), 2) == Some(parent));
    assert(number_word(words(line), 3) == Some(at.0));
}

/// `gc` and a position collect the tenant at the position; `list` changes nothing.
pub proof fn gc_collects(t: TenantV, line: Seq<char>, at: Lsn)
    requires
        words(line).len() >= 2,
        words(line)[0] == "gc"@,
        words(line)[1] == decimal(at.0 as nat),
    ensures
        executed(t, line).0 == collected(t, at),
        executed(t, line).1 == "ok gc @ "@ + decimal(at.0 as nat) + ": "@ + decimal(
            t.timelines.len(),
        ) + " timelines, "@ + decimal(reported_drops(t, at)) + " versions removed"@,
{
    lemma_verbs();
    digits_round_trip(at.0 as nat, 10, false, u64::MAX as nat);
}

/// A session's commands act on its tenant and on no other: after the line, its tenant is
/// what the command makes of it, and the session still means that tenant.
pub proof fn commands_act_on_the_current_tenant(
    m: ManagerV,
    s: ControlSessionV,
    token: Option<Seq<char>>,
    line: Seq<char>,
    addr_ok: bool,
)
    requires
        s.authed,
        words(line).len() > 0,
        words(line)[0] == "create"@ || words(line)[0] == "branch"@ || words(line)[0] == "list"@
            || words(line)[0] == "gc"@,
    ensures
        ({
            let (now, s2, a) = handled(m, s, token, line, addr_ok);
            &&& s2 == s
            &&& referred(now, s.tenant) == executed(referred(m, s.tenant), line).0
            &&& forall|i: int|
                0 <= i < m.tenants.len() && (#[trigger] m.tenants[i]).id != s.tenant.id
                    ==> now.tenants[i] == m.tenants[i]
            &&& words(line)[0] != "gc"@ ==> (a matches ControlActionV::Reply { text, persist } && text
                == executed(referred(m, s.tenant), line).1)
        }),
{
    lemma_verbs();
    let r = s.tenant;
    let p = provisioned(m, r.id);
    let (now, s2, a) = handled(m, s, token, line, addr_ok);
    lemma_grave_of(m.removed, r);
    lemma_grave_of(now.removed, r);
    lemma_place_of(m.tenants, r.id);
    lemma_place_of(p.tenants, r.id);
    provisioning_is_idempotent(m, r.id);
    lemma_graves(m.removed, now.removed, r);
    if grave_of(m.removed, r) < 0 {
        let k = place_of(p.tenants, r.id);
        assert forall|i: int| 0 <= i < k implies (#[trigger] now.tenants[i]).id != r.id by {
            assert(now.tenants[i].id == p.tenants[i].id);
        }
        lemma_place_at(now.tenants, r.id, k);
    }
}

/// `tenant` and an id switch the session to the tenant of that id, which is there then; the
/// tenants that were there stay as they were.
pub proof fn tenant_switches(
    m: ManagerV,
    s: ControlSessionV,
    token: Option<Seq<char>>,
    line: Seq<char>,
    addr_ok: bool,
    id: TenantId,
)
    requires
        s.authed,
        words(line).len() >= 2,
        words(line)[0] == "tenant"@,
        words(line)[1] == id_text(id@),
    ensures
        ({
            let (now, s2, a) = handled(m, s, token, line, addr_ok);
            &&& s2.tenant == ref_to(m, id)
            &&& s2.tenant.id == id
            &&& s2.authed
            &&& exists|i: int| 0 <= i < now.tenants.len() && (#[trigger] now.tenants[i]).id == id
            &&& forall|i: int|
                0 <= i < m.tenants.len() ==> now.tenants[i] == #[trigger] m.tenants[i]
        }),
{
    lemma_verbs();
    lemma_tenant_id_of(id);
    lemma_place_of(m.tenants, id);
    provisioning_is_idempotent(m, id);
    let p = provisioned(m, id);
    lemma_place_of(p.tenants, id);
    assert(word(words(line), 0) == Some("tenant"@));
    assert(word(words(line), 1) == Some(id_text(id@)));
    let now = handled(m, s, token, line, addr_ok).0;
    assert(now == p);
    assert(now.tenants[place_of(p.tenants, id)].id == id);
    assert forall|i: int| 0 <= i < m.tenants.len() implies now.tenants[i]
        == #[trigger] m.tenants[i] by {}
}

// ---------------------------------------------------------------------------
// The HTTP control plane
// ---------------------------------------------------------------------------

/// What the tenant of an id holds: the first of that id, or, where there is none, what a
/// new one would.
pub open spec fn holds(m: ManagerV, id: TenantId, t: TenantV) -> bool {
    (exists|n: int|
        0 <= n < m.tenants.len() && (#[trigger] m.tenants[n]).id == id && m.tenants[n].tenant == t
            && (forall|i: int| 0 <= i < n ==> (#[trigger] m.tenants[i]).id != id)) || ((forall|i: int|

        0 <= i < m.tenants.len() ==> (#[trigger] m.tenants[i]).id != id) && t.timelines.len() == 0
        && t.freeze_threshold == m.freeze_threshold)
}

/// From `m` to `now`, only the tenant of the id has changed, and it holds `t`.
pub open spec fn only_changed(m: ManagerV, now: ManagerV, id: TenantId, t: TenantV) -> bool {
    &&& holds(now, id, t)
    &&& forall|i: int|
        0 <= i < m.tenants.len() && (#[trigger] m.tenants[i]).id != id ==> now.tenants[i]
            == m.tenants[i]
    &&& m.tenants.len() <= now.tenants.len()
    &&& now.removed == m.removed
}

/// The tenant of a request: the one that it names, or the all-zero one.
pub open spec fn names_tenant(raw: Option<Seq<char>>, id: TenantId) -> bool {
    match raw {
        Some(t) => t == id_text(id@),
        None => id@ == Seq::new(16, |i: int| 0u8),
    }
}

proof fn lemma_on_tenant(
    m: ManagerV,
    raw: Option<Seq<char>>,
    id: TenantId,
    t: TenantV,
    body: RouteBodyV,
    addr_ok: bool,
)
    requires
        names_tenant(raw, id),
        holds(m, id, t),
    ensures
        ({
            let (now, step) = on_tenant(m, raw, body, addr_ok);
            let (t2, step2) = tenant_op(id, t, body, addr_ok);
            step == step2 && only_changed(m, now, id, t2)
        }),
{
    lemma_tenant_id_of(id);
    assert(tenant_named_by(raw) == Some(id));
    let p = provisioned(m, id);
    lemma_place_of(m.tenants, id);
    lemma_place_of(p.tenants, id);
    provisioning_is_idempotent(m, id);
    let n = place_of(p.tenants, id);
    let was = p.tenants[n].tenant;
    assert(was == t) by {
        if exists|k: int|
            0 <= k < m.tenants.len() && (#[trigger] m.tenants[k]).id == id && m.tenants[k].tenant
                == t && (forall|i: int| 0 <= i < k ==> (#[trigger] m.tenants[i]).id != id) {
            let k = choose|k: int|
                0 <= k < m.tenants.len() && (#[trigger] m.tenants[k]).id == id
                    && m.tenants[k].tenant == t && (forall|i: int|
                    0 <= i < k ==> (#[trigger] m.tenants[i]).id != id);
            lemma_place_at(m.tenants, id, k);
        } else {
            if n < m.tenants.len() {
                assert(p.tenants[n] == m.tenants[n]);
            }
            assert(t.timelines =~= was.timelines);
        }
    }
    let (t2, step) = tenant_op(id, t, body, addr_ok);
    let now = with_tenant(p, n, t2);
    assert(now.tenants[n].id == id && now.tenants[n].tenant == t2);
    assert forall|i: int| 0 <= i < n implies (#[trigger] now.tenants[i]).id != id by {
        assert(now.tenants[i].id == p.tenants[i].id);
    }
    assert forall|i: int|
        0 <= i < m.tenants.len() && (#[trigger] m.tenants[i]).id != id implies now.tenants[i]
        == m.tenants[i] by {
        assert(i != n);
    }
}

proof fn lemma_paths()
    ensures
        "GET"@ != "POST"@,
        "/v1/tenants"@ != "/v1/timelines"@,
        "/v1/tenants"@ != "/v1/branches"@,
        "/v1/tenants"@ != "/v1/timelines/receive"@,
        "/v1/tenants"@ != "/v1/gc"@,
        "/v1/timelines"@ != "/v1/branches"@,
        "/v1/timelines"@ != "/v1/timelines/receive"@,
        "/v1/timelines"@ != "/v1/gc"@,
        "/v1/branches"@ != "/v1/timelines/receive"@,
        "/v1/branches"@ != "/v1/gc"@,
        "/v1/timelines/receive"@ != "/v1/gc"@,
        "/healthz"@ != "/v1/timelines"@,
        "/healthz"@ != "/v1/tenants"@,
{
    reveal_strlit("GET");
    reveal_strlit("POST");
    reveal_strlit("/v1/tenants");
    reveal_strlit("/v1/timelines");
    reveal_strlit("/v1/branches");
    reveal_strlit("/v1/timelines/receive");
    reveal_strlit("/v1/gc");
    reveal_strlit("/healthz");
    assert("GET"@.len() == 3 && "POST"@.len() == 4 && "/v1/tenants"@.len() == 11);
    assert("/v1/timelines"@.len() == 13 && "/v1/branches"@.len() == 12);
    assert("/v1/timelines/receive"@.len() == 21 && "/v1/gc"@.len() == 6 && "/healthz"@.len() == 8);
}

/// A request to create a timeline creates it, in the tenant that it names: the answer is
/// 201 where the tenant can have the timeline, and else 409 with nothing changed in it. No
/// other tenant changes.
pub proof fn create_requests_create(
    m: ManagerV,
    query: Seq<char>,
    raw: Option<Seq<char>>,
    tenant: TenantId,
    t: TenantV,
    id: TimelineId,
    addr_ok: bool,
)
    requires
        names_tenant(raw, tenant),
        holds(m, tenant, t),
    ensures
        ({
            let (now, step) = routed(
                m,
                "POST"@,
                "/v1/timelines"@,
                query,
                RouteBodyV::Create { id: id_text(id@), tenant: raw },
                addr_ok,
            );
            match created(t, id) {
                Ok(t2) => only_changed(m, now, tenant, t2) && step == RouteStepV::Reply(
                    201,
                    JsonV::Object(seq![("created"@, JsonV::Text(id_text(id@)))]),
                ),
                Err(e) => only_changed(m, now, tenant, t) && step == RouteStepV::Reply(
                    409,
                    JsonV::Object(seq![("error"@, JsonV::Text(tenant_error_text(e)))]),
                ),
            }
        }),
{
    lemma_paths();
    lemma_timeline_id_of(id);
    lemma_on_tenant(
        m,
        raw,
        tenant,
        t,
        RouteBodyV::Create { id: id_text(id@), tenant: raw },
        addr_ok,
    );
}

/// A request to branch branches the timeline that it names off the parent that it names, at
/// its position and in its tenant: the answer is 201 where the tenant can have the branch,
/// and else 409 with nothing changed in it. No other tenant changes.
pub proof fn branch_requests_branch(
    m: ManagerV,
    query: Seq<char>,
    raw: Option<Seq<char>>,
    tenant: TenantId,
    t: TenantV,
    new: TimelineId,
    parent: TimelineId,
    lsn: u64,
    addr_ok: bool,
)
    requires
        names_tenant(raw, tenant),
        holds(m, tenant, t),
    ensures
        ({
            let (now, step) = routed(
                m,
                "POST"@,
                "/v1/branches"@,
                query,
                RouteBodyV::Branch {
                    timeline: id_text(new@),
                    parent: id_text(parent@),
                    lsn,
                    tenant: raw,
                },
                addr_ok,
            );
            match branched(t, new, parent, Lsn(lsn)) {
                Ok(t2) => only_changed(m, now, tenant, t2) && step == RouteStepV::Reply(
                    201,
                    JsonV::Object(
                        seq![
                            ("branched"@, JsonV::Text(id_text(new@))),
                            ("parent"@, JsonV::Text(id_text(parent@))),
                            ("lsn"@, JsonV::Uint(lsn)),
                        ],
                    ),
                ),
                Err(e) => only_changed(m, now, tenant, t) && step == RouteStepV::Reply(
                    409,
                    JsonV::Object(seq![("error"@, JsonV::Text(tenant_error_text(e)))]),
                ),
            }
        }),
{
    lemma_paths();
    lemma_timeline_id_of(new);
    lemma_timeline_id_of(parent);
    lemma_on_tenant(
        m,
        raw,
        tenant,
        t,
        RouteBodyV::Branch { timeline: id_text(new@), parent: id_text(parent@), lsn, tenant: raw },
        addr_ok,
    );
}

/// A request to collect collects the tenant that it names at its position, and no other; a
/// request to stream connects to the safekeeper that it names, for the tenant and timeline
/// that it names and from its position, where the tenant has the timeline.
pub proof fn gc_and_receive_requests(
    m: ManagerV,
    query: Seq<char>,
    raw: Option<Seq<char>>,
    tenant: TenantId,
    t: TenantV,
    timeline: TimelineId,
    safekeeper: Seq<char>,
    at: u64,
)
    requires
        names_tenant(raw, tenant),
        holds(m, tenant, t),
    ensures
        ({
            let (now, step) = routed(
                m,
                "POST"@,
                "/v1/gc"@,
                query,
                RouteBodyV::Gc { horizon_lsn: at, tenant: raw },
                true,
            );
            &&& only_changed(m, now, tenant, collected(t, Lsn(at)))
            &&& step == (RouteStepV::Collected {
                horizon_lsn: at,
                timelines: t.timelines.len() as int,
                dropped: reported_drops(t, Lsn(at)) as u64,
                replaced: layers_replaced(t.timelines, t.timelines.len() as int),
            })
        }),
        ({
            let (now, step) = routed(
                m,
                "POST"@,
                "/v1/timelines/receive"@,
                query,
                RouteBodyV::Receive {
                    timeline: id_text(timeline@),
                    safekeeper,
                    start_lsn: at,
                    tenant: raw,
                },
                true,
            );
            &&& only_changed(m, now, tenant, t)
            &&& (exists|i: int|
                0 <= i < t.timelines.len() && (#[trigger] t.timelines[i]).id == timeline) ==> step
                == (RouteStepV::Connect { tenant, timeline, safekeeper, start_lsn: at })
            &&& !(exists|i: int|
                0 <= i < t.timelines.len() && (#[trigger] t.timelines[i]).id == timeline) ==> (
            step matches RouteStepV::Reply(status, _) && status == 404)
        }),
{
    lemma_paths();
    lemma_timeline_id_of(timeline);
    lemma_number_of(t.timelines, timeline);
    lemma_on_tenant(
        m,
        raw,
        tenant,
        t,
        RouteBodyV::Gc { horizon_lsn: at, tenant: raw },
        true,
    );
    lemma_on_tenant(
        m,
        raw,
        tenant,
        t,
        RouteBodyV::Receive {
            timeline: id_text(timeline@),
            safekeeper,
            start_lsn: at,
            tenant: raw,
        },
        true,
    );
}

/// A request to create a tenant adds it, empty, with the answer 201, where there is none of
/// the id, and else is answered 409 and changes nothing.
pub proof fn tenant_requests_create(
    m: ManagerV,
    query: Seq<char>,
    id: TenantId,
    addr_ok: bool,
)
    ensures
        ({
            let (now, step) = routed(
                m,
                "POST"@,
                "/v1/tenants"@,
                query,
                RouteBodyV::Tenant { id: id_text(id@) },
                addr_ok,
            );
            let n = m.tenants.len() as int;
            let known = exists|i: int| 0 <= i < n && (#[trigger] m.tenants[i]).id == id;
            &&& known ==> now == m && step == RouteStepV::Reply(
                409,
                JsonV::Object(
                    seq![("error"@, JsonV::Text("tenant "@ + id_text(id@) + " already exists"@))],
                ),
            )
            &&& !known ==> {
                &&& now.tenants.len() == n + 1
                &&& now.tenants[n].id == id
                &&& now.tenants[n].tenant.timelines.len() == 0
                &&& step == RouteStepV::Reply(
                    201,
                    JsonV::Object(seq![("created"@, JsonV::Text(id_text(id@)))]),
                )
            }
            &&& forall|i: int| 0 <= i < n ==> now.tenants[i] == #[trigger] m.tenants[i]
        }),
{
    lemma_paths();
    lemma_tenant_id_of(id);
    lemma_place_of(m.tenants, id);
}

/// Asking changes nothing but that the tenant asked about is there then: its timelines are
/// listed in the order of their ids, and so are the tenants.
pub proof fn listing_requests_list(
    m: ManagerV,
    tenant: TenantId,
    t: TenantV,
    body: RouteBodyV,
    addr_ok: bool,
)
    requires
        holds(m, tenant, t),
        tenant@ == Seq::new(16, |i: int| 0u8),
    ensures
        routed(m, "GET"@, "/v1/tenants"@, ""@, body, addr_ok) == (
            m,
            RouteStepV::Reply(
                200,
                JsonV::Object(seq![("tenants"@, texts_list(tenant_list(m.tenants)))]),
            ),
        ),
        ({
            let (now, step) = routed(m, "GET"@, "/v1/timelines"@, ""@, body, addr_ok);
            &&& only_changed(m, now, tenant, t)
            &&& step == RouteStepV::Reply(
                200,
                JsonV::Object(seq![("timelines"@, texts_list(timeline_list(t.timelines)))]),
            )
        }),
{
    lemma_paths();
    reveal_strlit("");
    reveal_strlit("tenant=");
    let none = ""@;
    assert(none =~= Seq::empty());
    let pieces = split_on(none, '&');
    assert(pieces == seq![Seq::<char>::empty()]);
    assert(!starts_with(pieces[0], "tenant="@));
    assert(tenant_piece(pieces, 1) is None);
    assert(tenant_in_query(none) is None);
    lemma_on_tenant(m, None, tenant, t, RouteBodyV::Unread, addr_ok);
}

/// A query that is `tenant=` and an id asks about the tenant of that id.
pub proof fn tenant_queries_name_the_tenant(
    m: ManagerV,
    tenant: TenantId,
    t: TenantV,
    body: RouteBodyV,
    addr_ok: bool,
)
    requires
        holds(m, tenant, t),
    ensures
        ({
            let (now, step) = routed(
                m,
                "GET"@,
                "/v1/timelines"@,
                "tenant="@ + id_text(tenant@),
                body,
                addr_ok,
            );
            &&& only_changed(m, now, tenant, t)
            &&& step == RouteStepV::Reply(
                200,
                JsonV::Object(seq![("timelines"@, texts_list(timeline_list(t.timelines)))]),
            )
        }),
{
    lemma_paths();
    reveal_strlit("tenant=");
    let q = "tenant="@ + id_text(tenant@);
    id_text_round_trip("TenantId"@, tenant@);
    assert forall|i: int| 0 <= i < q.len() implies q[i] != '&' by {
        if i >= 7 {
            lemma_id_char(tenant@, i - 7);
        }
    }
    lemma_one_piece(q, '&');
    assert(split_on(q, '&')[0] == q);
    assert(q.take(7) =~= "tenant="@);
    assert(q.skip(7) =~= id_text(tenant@));
    assert(tenant_in_query(q) == Some(id_text(tenant@)));
    lemma_on_tenant(m, Some(id_text(tenant@)), tenant, t, RouteBodyV::Unread, addr_ok);
}

/// A text without the separator is one piece.
pub(crate) proof fn lemma_one_piece(s: Seq<char>, sep: char)
    requires
        forall|i: int| 0 <= i < s.len() ==> s[i] != sep,
    ensures
        split_on(s, sep) == seq![s],
    decreases s.len(),
{
    if s.len() > 0 {
        lemma_one_piece(s.drop_last(), sep);
        assert(s.drop_last().push(s.last()) =~= s);
        assert(split_on(s, sep) =~= seq![s]);
    } else {
        assert(s =~= Seq::empty());
    }
}

/// An id's text is of hexadecimal digits.
proof fn lemma_id_char(b: Seq<u8>, i: int)
    requires
        0 <= i < id_text(b).len(),
    ensures
        id_text(b)[i] != '&',
        id_text(b)[i] != '/',
    decreases b.len(),
{
    if b.len() > 0 {
        let head = id_text(b.drop_last());
        let p = hex_fixed(b.last() as nat, 2);
        if i < head.len() {
            lemma_id_char(b.drop_last(), i);
        } else {
            reveal_with_fuel(hex_fixed, 3);
            assert(p[i - head.len()] != '&');
        }
    }
}

/// `gc` in a session asks for what its tenant's collection comes to: the horizon that was
/// named, the number of the tenant's timelines, and what the collection reports.
pub proof fn gc_tells_what_was_collected(
    m: ManagerV,
    s: ControlSessionV,
    token: Option<Seq<char>>,
    line: Seq<char>,
    addr_ok: bool,
    at: Lsn,
)
    requires
        s.authed,
        words(line).len() >= 2,
        words(line)[0] == "gc"@,
        words(line)[1] == decimal(at.0 as nat),
    ensures
        ({
            let t = referred(m, s.tenant);
            handled(m, s, token, line, addr_ok).2 == (ControlActionV::Collected {
                horizon: at.0,
                timelines: t.timelines.len() as int,
                dropped: reported_drops(t, at) as u64,
                replaced: layers_replaced(t.timelines, t.timelines.len() as int),
            })
        }),
{
    lemma_verbs();
    digits_round_trip(at.0 as nat, 10, false, u64::MAX as nat);
}

/// `receive`, a timeline's id, an address and a position ask for WAL to be streamed from
/// that position into that timeline of the session's tenant, where the tenant has it and
/// the address is one; else the reply is an error. No tenant that is there changes.
pub proof fn receive_asks_for_the_stream(
    m: ManagerV,
    s: ControlSessionV,
    token: Option<Seq<char>>,
    line: Seq<char>,
    addr_ok: bool,
    timeline: TimelineId,
    start: u64,
)
    requires
        s.authed,
        words(line).len() >= 4,
        words(line)[0] == "receive"@,
        words(line)[1] == id_text(timeline@),
        words(line)[3] == decimal(start as nat),
    ensures
        ({
            let (now, s2, a) = handled(m, s, token, line, addr_ok);
            let known = exists|i: int|
                0 <= i < referred(m, s.tenant).timelines.len() && (#[trigger] referred(
                    m,
                    s.tenant,
                ).timelines[i]).id == timeline;
            &&& s2 == s
            &&& addr_ok && known ==> a == (ControlActionV::Receive {
                tenant: s.tenant,
                timeline,
                start_lsn: start,
            })
            &&& !(addr_ok && known) ==> (a matches ControlActionV::Reply { text, persist } && !persist
                && starts_with(text, "err "@))
            &&& forall|i: int|
                0 <= i < m.tenants.len() ==> now.tenants[i] == #[trigger] m.tenants[i]
            &&& grave_of(m.removed, s.tenant) < 0 ==> exists|i: int|
                0 <= i < now.tenants.len() && (#[trigger] now.tenants[i]).id == s.tenant.id
        }),
{
    lemma_verbs();
    let r = s.tenant;
    let t = referred(m, r);
    lemma_timeline_id_of(timeline);
    digits_round_trip(start as nat, 10, false, u64::MAX as nat);
    lemma_number_of(t.timelines, timeline);
    lemma_grave_of(m.removed, r);
    lemma_place_of(m.tenants, r.id);
    lemma_place_of(provisioned(m, r.id).tenants, r.id);
    provisioning_is_idempotent(m, r.id);
    if grave_of(m.removed, r) < 0 {
        let now = handled(m, s, token, line, addr_ok).0;
        let k = place_of(provisioned(m, r.id).tenants, r.id);
        assert(now.tenants[k].id == r.id);
    }
    reveal_strlit("err ");
    reveal_strlit("err unknown timeline ");
    reveal_strlit("err usage: receive <timeline-hex> <safekeeper-host:port> <start-lsn>");
    let unknown = "err unknown timeline "@ + id_text(timeline@);
    assert(unknown.take(4) =~= "err "@);
    assert("err usage: receive <timeline-hex> <safekeeper-host:port> <start-lsn>"@.take(4)
        =~= "err "@);
}

/// After a command that added a timeline or a branch the catalog is to be written; after
/// one that could not, it is not.
pub proof fn what_was_added_is_persisted(
    m: ManagerV,
    s: ControlSessionV,
    token: Option<Seq<char>>,
    line: Seq<char>,
    addr_ok: bool,
    new: TimelineId,
    parent: TimelineId,
    at: Lsn,
)
    requires
        s.authed,
        words(line).len() >= 4,
        words(line)[0] == "create"@ || words(line)[0] == "branch"@,
        words(line)[1] == id_text(new@),
        words(line)[2] == id_text(parent@),
        words(line)[3] == decimal(at.0 as nat),
    ensures
        ({
            let t = referred(m, s.tenant);
            let added = if words(line)[0] == "create"@ {
                created(t, new) is Ok
            } else {
                branched(t, new, parent, at) is Ok
            };
            handled(m, s, token, line, addr_ok).2 matches ControlActionV::Reply { text, persist }
                && persist == added
        }),
{
    lemma_verbs();
    let t = referred(m, s.tenant);
    lemma_timeline_id_of(new);
    lemma_timeline_id_of(parent);
    digits_round_trip(at.0 as nat, 10, false, u64::MAX as nat);
    let text = executed(t, line).1;
    reveal_strlit("ok");
    reveal_strlit("err ");
    reveal_strlit("ok created ");
    reveal_strlit("ok branched ");
    assert("ok"@[0] == 'o' && "err "@[0] == 'e');
    if starts_with(text, "ok"@) {
        assert(text.take(2)[0] == text[0]);
    } else if text[0] == 'o' && text[1] == 'k' && text.len() >= 2 {
        assert(text.take(2) =~= "ok"@);
    }
}

/// A request whose id cannot be read is answered 400, as is one whose body cannot, and one
/// for a path or a method that there is not 404; none of them changes a tenant.
pub proof fn requests_that_cannot_be_read_are_refused(
    m: ManagerV,
    query: Seq<char>,
    raw: Option<Seq<char>>,
    tenant: TenantId,
    t: TenantV,
    text: Seq<char>,
    addr_ok: bool,
)
    requires
        names_tenant(raw, tenant),
        holds(m, tenant, t),
        timeline_id_named(text) is None,
        tenant_id_named(text) is None,
    ensures
        ({
            let (now, step) = routed(
                m,
                "POST"@,
                "/v1/timelines"@,
                query,
                RouteBodyV::Create { id: text, tenant: raw },
                addr_ok,
            );
            only_changed(m, now, tenant, t) && refuses(step, 400)
        }),
        ({
            let (now, step) = routed(
                m,
                "POST"@,
                "/v1/tenants"@,
                query,
                RouteBodyV::Tenant { id: text },
                addr_ok,
            );
            now == m && refuses(step, 400)
        }),
        ({
            let (now, step) = routed(
                m,
                "POST"@,
                "/v1/gc"@,
                query,
                RouteBodyV::Invalid(text),
                addr_ok,
            );
            now == m && refuses(step, 400)
        }),
        ({
            let (now, step) = routed(m, "DELETE"@, "/v1/gc"@, query, RouteBodyV::Unread, addr_ok);
            now == m && refuses(step, 404)
        }),
{
    lemma_paths();
    reveal_strlit("DELETE");
    reveal_strlit("GET");
    reveal_strlit("POST");
    assert("DELETE"@.len() == 6 && "GET"@.len() == 3 && "POST"@.len() == 4);
    lemma_on_tenant(m, raw, tenant, t, RouteBodyV::Create { id: text, tenant: raw }, addr_ok);
}

/// An answer of that status with an error in it.
pub open spec fn refuses(step: RouteStepV, status: u16) -> bool {
    step matches RouteStepV::Reply(s, doc) && s == status && doc.text_field("error"@) is Some
}

/// A request that names a tenant by something that is no id is answered 400, and no tenant
/// comes of it.
pub proof fn requests_for_no_tenant_are_refused(
    m: ManagerV,
    query: Seq<char>,
    text: Seq<char>,
    at: u64,
    addr_ok: bool,
)
    requires
        tenant_id_named(text) is None,
    ensures
        ({
            let (now, step) = routed(
                m,
                "POST"@,
                "/v1/gc"@,
                query,
                RouteBodyV::Gc { horizon_lsn: at, tenant: Some(text) },
                addr_ok,
            );
            now == m && refuses(step, 400)
        }),
{
    lemma_paths();
}

} // verus!
