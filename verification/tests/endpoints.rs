//! The control line protocol, the HTTP control plane and the page endpoint.

use aetheldb::aethelctl::client::{server_error, string_array, ApiRequest, Client};
use aetheldb::common::ids::{TenantId, TimelineId};
use aetheldb::common::lsn::Lsn;
use aetheldb::common::page::{ForkNumber, PageKey, RelTag, PAGE_SIZE};
use aetheldb::common::page_service::{Request, Response};
use aetheldb::common::wal_service::{ReadRequest, ReadResponse, STATUS_OK};
use aetheldb::json::{parse, Json};
use aetheldb::pageserver::catalog::{restore, snapshot};
use aetheldb::pageserver::control::{
    connecting_failed, exec, gc_reply, receive_target, receiving_reply, ControlAction,
    ControlSession,
};
use aetheldb::pageserver::httpapi::{
    authorized, body_kind, changes_topology, find_subsequence, gc_done, handle_request,
    http_response, not_connected, query_tenant, read_head, receiving, resolve_tenant, target_path,
    BodyKind, BranchBody, CreateBody, GcBody, ReadEnd, ReadStep, ReceiveBody, RequestHead,
    RequestReader, RouteBody, RouteStep, TenantBody,
};
use aetheldb::pageserver::page::{ByteEdit, Modification, PageVersion};
use aetheldb::pageserver::repository::PageLookup;
use aetheldb::pageserver::server::{answer, check_ingest_len, ingest_body};
use aetheldb::pageserver::tenant::Tenant;
use aetheldb::pageserver::tenant_manager::TenantManager;
use aetheldb::pageserver::waldecode::{SIZE_OF_XLOG_LONG_PHD, XLOG_PAGE_MAGIC_PG16};
use aetheldb::pageserver::walreceiver::{WalCursor, DEFAULT_MAX_CHUNK};
use aetheldb::pageserver::walredo::RustApplyRedoManager;

type Tenants = TenantManager<RustApplyRedoManager>;

fn id(n: u8) -> TimelineId {
    TimelineId::from_bytes([n; 16])
}

// ---------------------------------------------------------------------------
// The control line protocol
// ---------------------------------------------------------------------------

#[test]
fn create_branch_and_list() {
    let mut tenant = Tenant::new(1_000);
    let main = id(1).to_string();
    let dev = id(2).to_string();

    assert!(exec(&mut tenant, &format!("create {main}")).starts_with("ok created"));
    // Re-creating the same timeline is an error.
    assert!(exec(&mut tenant, &format!("create {main}")).starts_with("err"));

    // Branch dev off main at LSN 100.
    assert!(exec(&mut tenant, &format!("branch {dev} {main} 100")).starts_with("ok branched"));
    // Branching off a missing parent fails.
    assert!(exec(&mut tenant, &format!("branch {} {} 1", id(3).to_string(), id(9).to_string()))
        .starts_with("err"));

    let listed = exec(&mut tenant, "list");
    assert!(listed.contains(&main) && listed.contains(&dev));

    // GC is reachable over the control endpoint.
    assert!(exec(&mut tenant, "gc 50").starts_with("ok gc"));

    // The branch really exists in the tenant.
    let branch = tenant.get_timeline(id(2)).expect("branch created");
    assert_eq!(branch.ancestor_timeline(), Some(id(1)));
    assert_eq!(branch.ancestor_lsn(), Some(Lsn(100)));
}

#[test]
fn malformed_commands_are_rejected() {
    let mut tenant = Tenant::new(1_000);
    assert!(exec(&mut tenant, "create").starts_with("err usage"));
    assert!(exec(&mut tenant, "branch only-one-arg").starts_with("err usage"));
    assert!(exec(&mut tenant, "create not-hex").starts_with("err usage"));
    assert!(exec(&mut tenant, "gc not-a-number").starts_with("err usage"));
    assert!(exec(&mut tenant, "frobnicate").starts_with("err unknown"));
    assert_eq!(exec(&mut tenant, ""), "err empty command");
}

#[test]
fn replies_are_exact() {
    let mut tenant = Tenant::new(1_000);
    let a = id(0xaa).to_string();
    let b = id(0xbb).to_string();
    assert_eq!(exec(&mut tenant, "list"), "ok ");
    assert_eq!(exec(&mut tenant, &format!("create {b}")), format!("ok created {b}"));
    assert_eq!(exec(&mut tenant, &format!("create {b}")), format!("err timeline {b} already exists"));
    assert_eq!(
        exec(&mut tenant, &format!("  branch\t{a} {b} 7 ")),
        format!("ok branched {a} from {b} @ 7")
    );
    assert_eq!(
        exec(&mut tenant, &format!("branch {a} {b} -7")),
        "err usage: branch <new-hex> <parent-hex> <lsn>"
    );
    // In order of the ids' texts.
    assert_eq!(exec(&mut tenant, "list"), format!("ok {a} {b}"));
    assert_eq!(exec(&mut tenant, "gc 9"), "ok gc @ 9: 2 timelines, 0 versions removed");
    assert_eq!(exec(&mut tenant, "gc"), "err usage: gc <horizon-lsn>");
    assert_eq!(exec(&mut tenant, "create"), "err usage: create <timeline-hex>");
    assert_eq!(exec(&mut tenant, "bye now"), "err unknown command 'bye'");
}

fn say(
    session: &mut ControlSession,
    tenants: &mut Tenants,
    token: Option<&str>,
    line: &str,
) -> String {
    match session.handle_line(tenants, token, line, true) {
        ControlAction::Reply { text, .. } => text,
        ControlAction::Refused { text } => text,
        ControlAction::Collected { horizon, timelines, dropped, .. } => {
            gc_reply(horizon, timelines, dropped, 0)
        }
        ControlAction::Receive { timeline, start_lsn, .. } => {
            receiving_reply(timeline, &receive_target(line).unwrap(), start_lsn)
        }
    }
}

#[test]
fn control_requires_auth_when_token_set() {
    let mut tenants = TenantManager::new(1_000);
    let token = Some("s3cr3t");
    let mut s = ControlSession::open(&mut tenants, token.is_some());

    // Before authenticating, any real command is rejected.
    assert!(say(&mut s, &mut tenants, token, "list").starts_with("err unauthorized"));
    // A wrong token is rejected.
    assert!(say(&mut s, &mut tenants, token, "auth nope").starts_with("err"));
    // The correct token authenticates the connection.
    assert_eq!(say(&mut s, &mut tenants, token, "auth s3cr3t"), "ok authenticated");
    // Now commands work.
    assert!(say(&mut s, &mut tenants, token, "list").starts_with("ok"));
}

#[test]
fn refused_lines_change_nothing() {
    let mut tenants = TenantManager::new(1_000);
    let mut s = ControlSession::open(&mut tenants, true);
    let before = snapshot(&tenants);
    let line = format!("create {}", id(1).to_string());
    for l in [line.as_str(), "auth", "auth wrong", "tenant 00", ""] {
        let a = s.handle_line(&mut tenants, Some("right"), l, true);
        assert!(matches!(a, ControlAction::Refused { .. }));
        assert_eq!(snapshot(&tenants), before);
    }
}

#[test]
fn sessions_select_tenants() {
    let mut tenants = TenantManager::new(1_000);
    let mut s = ControlSession::open(&mut tenants, false);
    let acme = TenantId::from_bytes([0xAC; 16]).to_string();
    let zero = TenantId::zero().to_string();
    assert_eq!(say(&mut s, &mut tenants, None, &format!("tenant {acme}")), format!("ok tenant {acme}"));
    assert_eq!(say(&mut s, &mut tenants, None, "tenants"), format!("ok {zero} {acme}"));
    assert_eq!(say(&mut s, &mut tenants, None, "tenant x"), "err usage: tenant <tenant-hex>");
    let line = format!("create {}", id(1).to_string());
    match s.handle_line(&mut tenants, None, &line, true) {
        ControlAction::Reply { text, persist } => {
            assert!(text.starts_with("ok created"));
            assert!(persist);
        }
        _ => panic!("expected a reply"),
    }
    // Made for the selected tenant only; a failure is not written down.
    assert!(tenants.get(TenantId::zero()).unwrap().get_timeline(id(1)).is_none());
    assert!(tenants.get(TenantId::from_bytes([0xAC; 16])).unwrap().get_timeline(id(1)).is_some());
    match s.handle_line(&mut tenants, None, &line, true) {
        ControlAction::Reply { persist, .. } => assert!(!persist),
        _ => panic!("expected a reply"),
    }
    assert_eq!(
        say(&mut s, &mut tenants, None, "gc 5"),
        "ok gc @ 5: 1 timelines, 0 versions removed, 0 objects deleted"
    );
    assert_eq!(say(&mut s, &mut tenants, None, "gc x"), "err usage: gc <horizon-lsn>");
}

#[test]
fn receiving_needs_an_address_and_a_timeline() {
    let mut tenants = TenantManager::new(1_000);
    let mut s = ControlSession::open(&mut tenants, false);
    let one = id(1).to_string();
    let line = format!("receive {one} 127.0.0.1:5454 77");
    assert_eq!(receive_target(&line), Some("127.0.0.1:5454".to_string()));
    assert_eq!(receive_target("receive x"), None);
    assert_eq!(say(&mut s, &mut tenants, None, &line), format!("err unknown timeline {one}"));
    tenants.get_mut(TenantId::zero()).unwrap().create_timeline(id(1)).unwrap();
    assert_eq!(
        say(&mut s, &mut tenants, None, &line),
        format!("ok receiving {one} from 127.0.0.1:5454 @ 77")
    );
    // The address was no address.
    match s.handle_line(&mut tenants, None, &line, false) {
        ControlAction::Reply { text, .. } => assert_eq!(
            text,
            "err usage: receive <timeline-hex> <safekeeper-host:port> <start-lsn>"
        ),
        _ => panic!("expected a reply"),
    }
    assert_eq!(connecting_failed("no route"), "err connecting to safekeeper: no route");
}

// ---------------------------------------------------------------------------
// The HTTP control plane
// ---------------------------------------------------------------------------

fn text(j: &Json, key: &str) -> Result<String, String> {
    match j.get_str(key) {
        Some(t) => Ok(t.to_string()),
        None => Err(format!("missing field `{key}`")),
    }
}

fn read_body(kind: BodyKind, bytes: &[u8]) -> RouteBody {
    if kind == BodyKind::Unread {
        return RouteBody::Unread;
    }
    let j = match serde_json::from_slice::<serde_json::Value>(bytes) {
        Ok(v) => parse(&v.to_string()),
        Err(e) => return RouteBody::Invalid(e.to_string()),
    };
    let tenant = j.get_str("tenant").map(|t| t.to_string());
    let number = |key| j.get_u64(key).ok_or(format!("missing field `{key}`"));
    let read = || -> Result<RouteBody, String> {
        Ok(match kind {
            BodyKind::Unread => RouteBody::Unread,
            BodyKind::Tenant => RouteBody::Tenant(TenantBody { id: text(&j, "id")? }),
            BodyKind::Create => RouteBody::Create(CreateBody { id: text(&j, "id")?, tenant }),
            BodyKind::Branch => RouteBody::Branch(BranchBody {
                timeline: text(&j, "timeline")?,
                parent: text(&j, "parent")?,
                lsn: number("lsn")?,
                tenant,
            }),
            BodyKind::Receive => RouteBody::Receive(ReceiveBody {
                timeline: text(&j, "timeline")?,
                safekeeper: text(&j, "safekeeper")?,
                start_lsn: number("start_lsn")?,
                tenant,
            }),
            BodyKind::Gc => {
                RouteBody::Gc(GcBody { horizon_lsn: number("horizon_lsn")?, tenant })
            }
        })
    };
    match read() {
        Ok(b) => b,
        Err(e) => RouteBody::Invalid(e),
    }
}

/// What the server answers to a request's bytes.
fn serve(tenants: &mut Tenants, token: Option<&str>, bytes: &[u8]) -> (u16, String) {
    let mut reader = RequestReader::new();
    let (head, body): (RequestHead, Vec<u8>) = match reader.feed(bytes) {
        ReadStep::Ready(h, b) => (h, b),
        _ => panic!("request not read"),
    };
    let kind = body_kind(&head.method, &target_path(&head.path));
    let body = read_body(kind, &body);
    let step = match handle_request(tenants, token, &head, &body, true) {
        RouteStep::Connect { timeline, safekeeper, .. } => receiving(timeline, &safekeeper),
        RouteStep::Collected { horizon_lsn, timelines, dropped, .. } => {
            gc_done(horizon_lsn, timelines, dropped, 0)
        }
        step => step,
    };
    match step {
        RouteStep::Reply(status, json) => {
            let sent = http_response(status, &json.to_string());
            let body = sent.split("\r\n\r\n").nth(1).unwrap().to_string();
            (status, body)
        }
        _ => panic!("no reply"),
    }
}

fn request(tenants: &mut Tenants, method: &str, path: &str, body: &str) -> (u16, String) {
    let req = format!(
        "{method} {path} HTTP/1.1\r\nHost: x\r\nContent-Type: application/json\r\nContent-Length: {}\r\nConnection: close\r\n\r\n{body}",
        body.len()
    );
    serve(tenants, None, req.as_bytes())
}

#[test]
fn http_control_plane_manages_timelines() {
    let mut t = TenantManager::single(Tenant::new(1_000));
    let id = |n: u8| id(n).to_string();

    // Health.
    let (s, b) = request(&mut t, "GET", "/healthz", "");
    assert_eq!(s, 200);
    assert!(b.contains("ok"));

    // Create a root timeline.
    let (s, b) = request(&mut t, "POST", "/v1/timelines", &format!(r#"{{"id":"{}"}}"#, id(1)));
    assert_eq!(s, 201, "body: {b}");
    assert!(b.contains(&id(1)));

    // Creating it again conflicts.
    let (s, _) = request(&mut t, "POST", "/v1/timelines", &format!(r#"{{"id":"{}"}}"#, id(1)));
    assert_eq!(s, 409);

    // Branch off it.
    let (s, b) = request(
        &mut t,
        "POST",
        "/v1/branches",
        &format!(r#"{{"timeline":"{}","parent":"{}","lsn":100}}"#, id(2), id(1)),
    );
    assert_eq!(s, 201, "body: {b}");

    // List shows both.
    let (s, b) = request(&mut t, "GET", "/v1/timelines", "");
    assert_eq!(s, 200);
    assert!(b.contains(&id(1)) && b.contains(&id(2)));

    // GC runs and reports stats.
    let (s, b) = request(&mut t, "POST", "/v1/gc", r#"{"horizon_lsn":50}"#);
    assert_eq!(s, 200);
    assert!(b.contains("versions_removed"));

    // Errors: bad body, unknown route.
    let (s, _) = request(&mut t, "POST", "/v1/timelines", "not json");
    assert_eq!(s, 400);
    let (s, _) = request(&mut t, "GET", "/v1/nope", "");
    assert_eq!(s, 404);
}

#[test]
fn topology_survives_restart() {
    // Boot 1: tenants behind the HTTP control plane.
    let mut m1 = TenantManager::new(1_000);
    let acme = TenantId::from_bytes([0xAC; 16]).to_string();
    let tl = |n: u8| id(n).to_string();
    // Create a tenant, a root timeline, and a branch off it: each is written down.
    let mut statuses = Vec::new();
    statuses.push(request(&mut m1, "POST", "/v1/tenants", &format!(r#"{{"id":"{acme}"}}"#)).0);
    statuses.push(
        request(
            &mut m1,
            "POST",
            "/v1/timelines",
            &format!(r#"{{"id":"{}","tenant":"{acme}"}}"#, tl(0)),
        )
        .0,
    );
    statuses.push(
        request(
            &mut m1,
            "POST",
            "/v1/branches",
            &format!(
                r#"{{"timeline":"{}","parent":"{}","lsn":250,"tenant":"{acme}"}}"#,
                tl(2),
                tl(0)
            ),
        )
        .0,
    );
    assert_eq!(statuses, vec![201, 201, 201]);
    assert!(statuses.iter().all(|s| changes_topology(*s)));
    assert!(!changes_topology(200) && !changes_topology(409));
    let saved = snapshot(&m1);

    // Boot 2: a brand-new manager restored from the same catalog.
    let mut m2 = TenantManager::new(1_000);
    restore(&mut m2, &saved);

    let acme_id = TenantId::from_bytes([0xAC; 16]);
    let tenant = m2.get(acme_id).expect("tenant restored after restart");
    assert!(tenant.get_timeline(TimelineId::from_bytes([0; 16])).is_some(), "root restored");
    let branch = tenant
        .get_timeline(TimelineId::from_bytes([2; 16]))
        .expect("branch restored after restart");
    assert_eq!(branch.ancestor_timeline(), Some(TimelineId::from_bytes([0; 16])));
    assert_eq!(branch.ancestor_lsn(), Some(Lsn(250)));
}

/// Send a client's request, as `aethelctl` does.
fn call(tenants: &mut Tenants, token: Option<&str>, req: ApiRequest) -> Result<Json, String> {
    let path = req.url.strip_prefix("http://server").unwrap();
    let body = match &req.body {
        Some(j) => j.to_string(),
        None => String::new(),
    };
    let auth = match &req.authorization {
        Some(a) => format!("Authorization: {a}\r\n"),
        None => String::new(),
    };
    let bytes =
        format!("{} {path} HTTP/1.1\r\n{auth}Content-Length: {}\r\n\r\n{body}", req.method, body.len());
    let (status, body) = serve(tenants, token, bytes.as_bytes());
    if status >= 400 {
        return Err(server_error(status, &body));
    }
    Ok(parse(&body))
}

fn hex(n: u8) -> String {
    format!("{n:02x}").repeat(16) // 32 hex chars
}

#[test]
fn cli_drives_the_control_plane() {
    let mut t = TenantManager::new(1_000);
    let c = Client::new("http://server/", None);

    // Health.
    call(&mut t, None, c.healthz()).expect("healthz");

    // Tenant create + list; duplicate is an error.
    let acme = hex(0xAA);
    call(&mut t, None, c.create_tenant(&acme)).expect("create tenant");
    let listed = call(&mut t, None, c.list_tenants()).unwrap();
    assert!(string_array(&listed, "tenants").contains(&acme));
    assert!(call(&mut t, None, c.create_tenant(&acme)).is_err(), "duplicate tenant should fail");

    // Timeline create + branch + list, scoped to the tenant.
    let root = hex(0x00);
    let dev = hex(0x0b);
    call(&mut t, None, c.create_timeline(&root, Some(&acme))).expect("create timeline");
    call(&mut t, None, c.branch(&dev, &root, 100, Some(&acme))).expect("branch");
    let listed = call(&mut t, None, c.list_timelines(Some(&acme))).unwrap();
    let timelines = string_array(&listed, "timelines");
    assert!(timelines.contains(&root) && timelines.contains(&dev), "got {timelines:?}");

    // GC reports stats.
    let gc = call(&mut t, None, c.gc(50, Some(&acme))).expect("gc");
    assert!(gc.get("versions_removed").is_some(), "gc result: {gc:?}");

    // Isolation: another tenant doesn't see acme's branch.
    let other = hex(0xCC);
    call(&mut t, None, c.create_tenant(&other)).unwrap();
    let listed = call(&mut t, None, c.list_timelines(Some(&other))).unwrap();
    assert!(!string_array(&listed, "timelines").contains(&dev));
}

#[test]
fn token_is_required_when_configured() {
    let mut t = TenantManager::new(1_000);
    let token = Some("s3cr3t");

    // No token / wrong token are rejected.
    assert!(call(&mut t, token, Client::new("http://server", None).list_tenants()).is_err());
    let wrong = Client::new("http://server", Some("nope".into()));
    let refused = call(&mut t, token, wrong.list_tenants());
    assert_eq!(refused.unwrap_err(), "server returned 401: unauthorized");

    // The correct token works.
    let ok = Client::new("http://server", Some("s3cr3t".into()));
    call(&mut t, token, ok.list_tenants()).expect("authorized list");
    call(&mut t, token, ok.create_tenant(&hex(0x11))).expect("authorized create");

    // Liveness needs none.
    call(&mut t, token, Client::new("http://server", None).healthz()).expect("healthz");
}

#[test]
fn refused_http_requests_change_nothing() {
    let mut t = TenantManager::new(1_000);
    let before = snapshot(&t);
    let bytes = format!(
        "POST /v1/tenants HTTP/1.1\r\nContent-Length: 41\r\n\r\n{{\"id\":\"{}\"}}",
        hex(0x22)
    );
    assert_eq!(serve(&mut t, Some("x"), bytes.as_bytes()), (401, r#"{"error":"unauthorized"}"#.to_string()));
    assert_eq!(snapshot(&t), before);
    assert!(authorized("/healthz", Some("x"), &None));
    assert!(!authorized("/v1/tenants", Some("x"), &None));
    assert!(!authorized("/v1/tenants", Some("x"), &Some("x".to_string())));
    assert!(authorized("/v1/tenants", Some("x"), &Some("Bearer x".to_string())));
    assert!(authorized("/v1/tenants", None, &None));
}

#[test]
fn receiving_over_http() {
    let mut t = TenantManager::new(1_000);
    t.get_or_create(TenantId::zero()).create_timeline(id(1)).unwrap();
    let one = id(1).to_string();
    let (s, b) = request(
        &mut t,
        "POST",
        "/v1/timelines/receive",
        &format!(r#"{{"timeline":"{one}","safekeeper":"127.0.0.1:1","start_lsn":7}}"#),
    );
    assert_eq!(s, 200, "{b}");
    assert!(b.contains("127.0.0.1:1") && b.contains(&one));
    let (s, _) = request(
        &mut t,
        "POST",
        "/v1/timelines/receive",
        &format!(r#"{{"timeline":"{}","safekeeper":"127.0.0.1:1","start_lsn":7}}"#, hex(9)),
    );
    assert_eq!(s, 404);
    match not_connected("refused") {
        RouteStep::Reply(s, j) => {
            assert_eq!(s, 502);
            assert!(j.to_string().contains("refused"));
        }
        _ => panic!("expected a reply"),
    }
}

#[test]
fn bad_ids_and_parents_are_answered() {
    let mut t = TenantManager::new(1_000);
    assert_eq!(request(&mut t, "POST", "/v1/tenants", r#"{"id":"zz"}"#).0, 400);
    assert_eq!(request(&mut t, "POST", "/v1/timelines", r#"{"id":"zz"}"#).0, 400);
    assert_eq!(
        request(&mut t, "POST", "/v1/timelines", &format!(r#"{{"id":"{}","tenant":"z"}}"#, hex(1))).0,
        400
    );
    let (s, _) = request(
        &mut t,
        "POST",
        "/v1/branches",
        &format!(r#"{{"timeline":"{}","parent":"{}","lsn":1}}"#, hex(1), hex(2)),
    );
    assert_eq!(s, 409);
    assert_eq!(request(&mut t, "GET", "/v1/timelines?tenant=zz", "").0, 400);
    assert_eq!(request(&mut t, "GET", &format!("/v1/timelines?tenant={}", hex(4)), "").0, 200);
    assert_eq!(query_tenant("a=1&tenant=x"), Some("x".to_string()));
    assert_eq!(query_tenant("a=1"), None);
    assert_eq!(resolve_tenant(&None), Some(TenantId::zero()));
    assert_eq!(resolve_tenant(&Some("zz".to_string())), None);
}

#[test]
fn requests_may_come_in_pieces() {
    let bytes = b"POST /v1/gc HTTP/1.1\r\ncontent-length: 5\r\nAUTHORIZATION:  Bearer t \r\n\r\nhello, more";
    let mut reader = RequestReader::new();
    let mut got = None;
    for chunk in bytes.chunks(3) {
        match reader.feed(chunk) {
            ReadStep::More => {}
            ReadStep::Ready(h, b) => {
                got = Some((h, b));
                break;
            }
            ReadStep::TooLarge => panic!("too large"),
        }
    }
    let (head, body) = got.unwrap();
    assert_eq!(head.method, "POST");
    assert_eq!(head.path, "/v1/gc");
    assert_eq!(head.length, 5);
    assert_eq!(head.authorization, Some("Bearer t".to_string()));
    assert_eq!(body, b"hello");

    assert!(matches!(RequestReader::new().finish(), ReadEnd::Nothing));
    let mut reader = RequestReader::new();
    assert!(matches!(reader.feed(b"GET / HTTP/1.1\r\n"), ReadStep::More));
    assert!(matches!(reader.finish(), ReadEnd::Incomplete));
    let mut reader = RequestReader::new();
    assert!(matches!(reader.feed(b"GET / HTTP/1.1\r\nContent-Length: 9\r\n\r\nabc"), ReadStep::More));
    match reader.finish() {
        ReadEnd::Ready(_, b) => assert_eq!(b, b"abc"),
        _ => panic!("expected the request"),
    }
    let mut reader = RequestReader::new();
    assert!(matches!(reader.feed(&vec![b'a'; (1 << 20) + 1]), ReadStep::TooLarge));
}

#[test]
fn heads_are_read_line_by_line() {
    let h = read_head("GET /a?b=c HTTP/1.1\r\nX: y\r\nContent-Length: nonsense");
    assert_eq!(h.method, "GET");
    assert_eq!(h.path, "/a?b=c");
    assert_eq!(h.length, 0);
    assert_eq!(h.authorization, None);
    let h = read_head("");
    assert_eq!(h.method, "");
    assert_eq!(h.path, "");
    assert_eq!(find_subsequence(b"abcabc", b"ca"), Some(2));
    assert_eq!(find_subsequence(b"abc", b"x"), None);
    assert_eq!(find_subsequence(b"ab", b"abc"), None);
    assert_eq!(target_path("/a?b"), "/a");
    assert_eq!(body_kind("POST", "/v1/gc"), BodyKind::Gc);
    assert_eq!(body_kind("GET", "/v1/gc"), BodyKind::Unread);
}

#[test]
fn answers_are_whole_http_messages() {
    let r = http_response(201, "{}");
    assert!(r.starts_with("HTTP/1.1 201 OK\r\n"));
    assert!(r.contains("Content-Length: 2\r\n"));
    assert!(r.ends_with("\r\n\r\n{}"));
    assert!(http_response(404, "").starts_with("HTTP/1.1 404 Error\r\n"));
}

// ---------------------------------------------------------------------------
// The page endpoint
// ---------------------------------------------------------------------------

fn rel() -> RelTag {
    RelTag { spc_node: 1663, db_node: 5, rel_node: 16384, fork: ForkNumber::Main }
}

/// Send one ingest frame to the default tenant's root timeline.
fn ingest(tenants: &mut Tenants, m: &Modification) {
    let body = m.encode();
    assert_eq!(check_ingest_len(body.len()), Ok(()));
    let tenant = tenants.get_mut(TenantId::zero()).unwrap();
    ingest_body(tenant.get_timeline_mut(TimelineId::zero()).unwrap(), &body).unwrap();
}

/// Send a page request and read the answer.
fn ask(tenants: &mut Tenants, req: &Request) -> Response {
    let req = Request::decode(&req.encode()).unwrap();
    Response::decode(&answer(tenants, &req).encode()).unwrap()
}

fn get_page(tenants: &mut Tenants, timeline: TimelineId, block: u32, lsn: u64) -> Response {
    let tenant = TenantId::zero();
    ask(tenants, &Request::GetPage { tenant, timeline, rel: rel(), block, lsn: Lsn(lsn) })
}

#[test]
fn ingest_then_getpage_reconstructs_history() {
    let mut tenant = Tenant::new(100_000);
    tenant.create_timeline(TimelineId::zero()).unwrap();
    let mut t = TenantManager::single(tenant);

    // 1. Stream a base image at LSN 10 and two deltas at 20 and 30.
    ingest(
        &mut t,
        &Modification {
            rel: rel(),
            block: 0,
            lsn: Lsn(10),
            version: PageVersion::Image(vec![0u8; PAGE_SIZE]),
        },
    );
    ingest(
        &mut t,
        &Modification {
            rel: rel(),
            block: 0,
            lsn: Lsn(20),
            version: PageVersion::Delta(vec![ByteEdit { offset: 0, data: vec![0xAA] }]),
        },
    );
    ingest(
        &mut t,
        &Modification {
            rel: rel(),
            block: 0,
            lsn: Lsn(30),
            version: PageVersion::Delta(vec![ByteEdit { offset: 1, data: vec![0xBB] }]),
        },
    );

    // 2. Ask the page-service endpoint for the page at several LSNs.
    match get_page(&mut t, TimelineId::zero(), 0, 25) {
        Response::Page(p) => {
            assert_eq!(p.len(), PAGE_SIZE);
            assert_eq!(p[0], 0xAA); // first delta applied
            assert_eq!(p[1], 0x00); // second delta not yet
        }
        other => panic!("expected Page, got {other:?}"),
    }
    match get_page(&mut t, TimelineId::zero(), 0, 30) {
        Response::Page(p) => {
            assert_eq!(p[0], 0xAA);
            assert_eq!(p[1], 0xBB); // both deltas applied
        }
        other => panic!("expected Page, got {other:?}"),
    }

    // 3. Relation size is reported from the ingested writes.
    let relsize = Request::GetRelSize {
        tenant: TenantId::zero(),
        timeline: TimelineId::zero(),
        rel: rel(),
        lsn: Lsn(30),
    };
    match ask(&mut t, &relsize) {
        Response::RelSize(n) => assert_eq!(n, 1),
        other => panic!("expected RelSize, got {other:?}"),
    }

    // 4. A page that doesn't exist is reported NotFound.
    assert_eq!(get_page(&mut t, TimelineId::zero(), 999, 30), Response::NotFound);
}

#[test]
fn branch_over_the_network_is_isolated() {
    let mut tenant = Tenant::new(100_000);
    tenant.create_timeline(TimelineId::zero()).unwrap();
    let mut t = TenantManager::single(tenant);
    let branch_id = TimelineId::from_bytes([2; 16]);

    // 1. Write a base image to the root timeline at LSN 10.
    ingest(
        &mut t,
        &Modification {
            rel: rel(),
            block: 0,
            lsn: Lsn(10),
            version: PageVersion::Image(vec![1u8; PAGE_SIZE]),
        },
    );

    // 2. Branch off the root at LSN 20 via the control endpoint.
    let mut c = ControlSession::open(&mut t, false);
    let line = format!("branch {} {} 20", branch_id.to_string(), TimelineId::zero().to_string());
    let reply = say(&mut c, &mut t, None, &line);
    assert!(reply.starts_with("ok branched"), "branch reply: {reply}");
    let listed = say(&mut c, &mut t, None, "list");
    assert!(listed.contains(&branch_id.to_string()));

    // 3. Diverge the branch: modify byte 0 on the branch only.
    let branch = t.get_mut(TenantId::zero()).unwrap().get_timeline_mut(branch_id).unwrap();
    branch.ingest(vec![Modification {
        rel: rel(),
        block: 0,
        lsn: Lsn(30),
        version: PageVersion::Delta(vec![ByteEdit { offset: 0, data: vec![0xAB] }]),
    }]);

    // 4. Read both timelines over the page service: isolation holds.
    match get_page(&mut t, branch_id, 0, 100) {
        Response::Page(p) => assert_eq!(p[0], 0xAB, "branch sees its own write"),
        other => panic!("branch read: {other:?}"),
    }
    match get_page(&mut t, TimelineId::zero(), 0, 100) {
        Response::Page(p) => assert_eq!(p[0], 1, "root is unaffected by the branch"),
        other => panic!("root read: {other:?}"),
    }

    // 5. An unknown timeline is a clean error, not a panic.
    match get_page(&mut t, TimelineId::from_bytes([9; 16]), 0, 100) {
        Response::Error(msg) => assert!(msg.contains("unknown"), "msg: {msg}"),
        other => panic!("expected error, got {other:?}"),
    }
}

#[test]
fn oversized_and_odd_ingest_bodies_are_refused() {
    assert_eq!(check_ingest_len(1 << 20), Ok(()));
    assert!(check_ingest_len((1 << 20) + 1).is_err());
    let mut tenant = Tenant::new(10);
    tenant.create_timeline(id(1)).unwrap();
    let tl = tenant.get_timeline_mut(id(1)).unwrap();
    assert!(ingest_body(tl, &[1, 2, 3]).is_err());
    assert_eq!(tl.repository().layer_count(), 0);
}

#[test]
fn asking_provisions_the_tenant() {
    let mut t = TenantManager::new(10);
    let tenant = TenantId::from_bytes([5; 16]);
    let r = ask(
        &mut t,
        &Request::GetRelSize { tenant, timeline: id(1), rel: rel(), lsn: Lsn(1) },
    );
    assert!(matches!(r, Response::Error(_)));
    assert_eq!(t.tenant_ids(), vec![tenant]);
    t.get_mut(tenant).unwrap().create_timeline(id(1)).unwrap();
    let r = ask(
        &mut t,
        &Request::GetRelSize { tenant, timeline: id(1), rel: rel(), lsn: Lsn(1) },
    );
    assert_eq!(r, Response::NotFound);
}

// ---------------------------------------------------------------------------
// Streaming from a safekeeper
// ---------------------------------------------------------------------------

fn wal_rel() -> RelTag {
    RelTag { spc_node: 1, db_node: 2, rel_node: 3, fork: ForkNumber::Main }
}

/// One-page WAL stream: long header + a full-page-image record for block 0.
fn wal_with_fpi() -> Vec<u8> {
    let mut page = vec![0u8; SIZE_OF_XLOG_LONG_PHD];
    page[0..2].copy_from_slice(&XLOG_PAGE_MAGIC_PG16.to_le_bytes());
    page[2..4].copy_from_slice(&0x0002u16.to_le_bytes()); // long header

    let stored: [u8; 8] = [1, 2, 3, 4, 5, 6, 7, 8];
    let hole_offset: u16 = 4;
    let mut body = Vec::new();
    body.push(0u8);
    body.push(0x10 | (ForkNumber::Main as u8)); // has image | fork
    body.extend_from_slice(&0u16.to_le_bytes());
    body.extend_from_slice(&(stored.len() as u16).to_le_bytes());
    body.extend_from_slice(&hole_offset.to_le_bytes());
    body.push(0x01 | 0x02); // has hole | apply
    body.extend_from_slice(&wal_rel().spc_node.to_le_bytes());
    body.extend_from_slice(&wal_rel().db_node.to_le_bytes());
    body.extend_from_slice(&wal_rel().rel_node.to_le_bytes());
    body.extend_from_slice(&0u32.to_le_bytes()); // blkno
    body.push(255u8); // main data, short
    body.push(0u8);
    body.extend_from_slice(&stored);

    let tot = 24 + body.len();
    let mut rec = Vec::with_capacity(tot);
    rec.extend_from_slice(&(tot as u32).to_le_bytes());
    rec.extend_from_slice(&0u32.to_le_bytes());
    rec.extend_from_slice(&0u64.to_le_bytes());
    rec.push(0);
    rec.push(10);
    rec.extend_from_slice(&[0, 0]);
    rec.extend_from_slice(&0u32.to_le_bytes());
    rec.extend_from_slice(&body);
    page.extend_from_slice(&rec);
    page
}

/// What a safekeeper that holds `wal` from position 0 answers.
fn safekeeper(wal: &[u8], req: &ReadRequest) -> ReadResponse {
    let req = ReadRequest::decode(&req.encode()).unwrap();
    let from = (req.start_lsn.raw() as usize).min(wal.len());
    let to = wal.len().min(from + req.max_bytes as usize);
    let resp = ReadResponse {
        status: STATUS_OK,
        commit_lsn: Lsn(wal.len() as u64),
        start_lsn: req.start_lsn,
        payload: wal[from..to].to_vec(),
    };
    ReadResponse::decode(&resp.encode()).unwrap()
}

#[test]
fn wal_streams_from_safekeeper_into_the_page_store() {
    let wal = wal_with_fpi();
    let commit = Lsn(wal.len() as u64);

    // The receiver pulls it and ingests it into the tenant's root timeline.
    let mut tenant = Tenant::new(1_000);
    tenant.create_timeline(TimelineId::zero()).unwrap();
    let mut receiver =
        WalCursor::new(TenantId::zero(), TimelineId::zero(), Lsn(0), DEFAULT_MAX_CHUNK);

    let root = tenant.get_timeline_mut(TimelineId::zero()).unwrap();
    let chunk = safekeeper(&wal, &receiver.next_request());
    let ingested = receiver.accept(root, &chunk).unwrap();
    assert_eq!(ingested, 1, "one WAL record should be decoded and ingested");
    assert_eq!(receiver.cursor(), commit, "cursor advances to the commit LSN");

    // The page materializes exactly as the WAL described it.
    let root = tenant.get_timeline(TimelineId::zero()).unwrap();
    let key = PageKey { rel: wal_rel(), block: 0 };
    match root.get_page(&tenant, key, Lsn(commit.raw())).unwrap() {
        PageLookup::Page(p) => {
            assert_eq!(p.len(), 8192);
            assert_eq!(&p[0..4], &[1, 2, 3, 4]); // before the hole
            assert_eq!(&p[8188..8192], &[5, 6, 7, 8]); // after the hole
            assert!(p[4..8188].iter().all(|&b| b == 0)); // the hole
        }
        other => panic!("expected reconstructed page, got {other:?}"),
    }

    // Once caught up, the receiver reports nothing new.
    let root = tenant.get_timeline_mut(TimelineId::zero()).unwrap();
    let chunk = safekeeper(&wal, &receiver.next_request());
    assert_eq!(receiver.accept(root, &chunk).unwrap(), 0);
}

#[test]
fn timeline_ingests_wal_from_a_safekeeper_via_control() {
    let wal = wal_with_fpi();
    let commit = Lsn(wal.len() as u64);
    let mut t = TenantManager::new(1_000);
    let tl_id = TimelineId::from_bytes([7; 16]);
    let one = tl_id.to_string();

    let mut c = ControlSession::open(&mut t, false);
    assert!(say(&mut c, &mut t, None, &format!("create {one}")).starts_with("ok created"));
    let line = format!("receive {one} 127.0.0.1:5454 0");
    let mut receiver = match c.handle_line(&mut t, None, &line, true) {
        ControlAction::Receive { tenant, timeline, start_lsn } => {
            assert_eq!((tenant.id(), timeline), (TenantId::zero(), tl_id));
            WalCursor::new(tenant.id(), timeline, Lsn(start_lsn), 20)
        }
        _ => panic!("expected a receiver"),
    };

    // The receiver streams the WAL into the timeline, twenty bytes at a time.
    let mut records = 0;
    while receiver.cursor() < commit {
        let tl = t.get_mut(TenantId::zero()).unwrap().get_timeline_mut(tl_id).unwrap();
        let chunk = safekeeper(&wal, &receiver.next_request());
        records += receiver.accept(tl, &chunk).unwrap();
    }
    assert_eq!(records, 1);
    let tenant = t.get(TenantId::zero()).unwrap();
    let tl = tenant.get_timeline(tl_id).unwrap();
    let key = PageKey { rel: wal_rel(), block: 0 };
    match tl.get_page(tenant, key, commit).unwrap() {
        PageLookup::Page(p) => {
            assert_eq!(&p[0..4], &[1, 2, 3, 4]);
            assert_eq!(&p[8188..8192], &[5, 6, 7, 8]);
        }
        other => panic!("timeline did not ingest the WAL: {other:?}"),
    }
}

#[test]
fn the_invalid_position_asks_for_the_latest_version() {
    let mut tenant = Tenant::new(100_000);
    tenant.create_timeline(TimelineId::zero()).unwrap();
    let mut t = TenantManager::single(tenant);
    for (lsn, byte) in [(10, 1u8), (20, 2), (30, 3)] {
        ingest(
            &mut t,
            &Modification {
                rel: rel(),
                block: 0,
                lsn: Lsn(lsn),
                version: PageVersion::Image(vec![byte; PAGE_SIZE]),
            },
        );
    }
    assert_eq!(
        get_page(&mut t, TimelineId::zero(), 0, 0),
        Response::Page(vec![3; PAGE_SIZE])
    );
    assert_eq!(get_page(&mut t, TimelineId::zero(), 0, 1), Response::NotFound);
    assert_eq!(get_page(&mut t, TimelineId::zero(), 1, 0), Response::NotFound);

    // A branch shows the branch point, with its own versions on top.
    let dev = TimelineId::from_bytes([2; 16]);
    t.get_mut(TenantId::zero())
        .unwrap()
        .branch_timeline(dev, TimelineId::zero(), Lsn(20))
        .unwrap();
    assert_eq!(get_page(&mut t, dev, 0, 0), Response::Page(vec![2; PAGE_SIZE]));

    // Sizes are as of the position.
    let size = |lsn: u64| Request::GetRelSize {
        tenant: TenantId::zero(),
        timeline: TimelineId::zero(),
        rel: rel(),
        lsn: Lsn(lsn),
    };
    assert_eq!(ask(&mut t, &size(0)), Response::NotFound);
    assert_eq!(ask(&mut t, &size(30)), Response::RelSize(1));
}

#[test]
fn every_reply_is_one_line_and_errors_change_nothing() {
    let mut tenant = Tenant::new(1_000);
    let (a, b) = (id(7).to_string(), id(3).to_string());
    assert!(exec(&mut tenant, &format!("create {a}")).starts_with("ok "));
    assert!(exec(&mut tenant, &format!("create {b}")).starts_with("ok "));
    let before = exec(&mut tenant, "list");
    assert_eq!(before, format!("ok {b} {a}"));
    for line in [
        "".to_string(),
        " \t ".to_string(),
        "odd\r\nline".to_string(),
        format!("create {a}"),
        "create".to_string(),
        format!("branch {a} {b} 5"),
        format!("branch {} {} 5", id(1).to_string(), id(2).to_string()),
        "gc many".to_string(),
    ] {
        let reply = exec(&mut tenant, &line);
        assert!(reply.starts_with("err "), "{reply}");
        assert!(!reply.contains('\n') && !reply.contains('\r'));
        assert_eq!(exec(&mut tenant, "list"), before);
    }
    assert_eq!(exec(&mut tenant, ""), "err empty command");
    assert_eq!(exec(&mut tenant, "odd one"), "err unknown command 'odd'");
}

#[test]
fn a_connection_keeps_its_tenant_when_that_is_removed() {
    let mut t = TenantManager::new(1_000);
    let mut old = ControlSession::open(&mut t, false);
    let (a, b) = (id(1).to_string(), id(2).to_string());
    assert!(say(&mut old, &mut t, None, &format!("create {a}")).starts_with("ok "));

    // The tenant goes; the connection still works on it.
    assert!(t.remove(TenantId::zero()));
    assert_eq!(t.tenant_ids(), vec![]);
    assert_eq!(say(&mut old, &mut t, None, "list"), format!("ok {a}"));
    assert!(say(&mut old, &mut t, None, &format!("create {b}")).starts_with("ok "));
    assert_eq!(say(&mut old, &mut t, None, "list"), format!("ok {a} {b}"));
    assert_eq!(say(&mut old, &mut t, None, "tenants"), "ok ");

    // A later connection gets a new tenant of the same id.
    let mut new = ControlSession::open(&mut t, false);
    assert_eq!(t.tenant_ids(), vec![TenantId::zero()]);
    assert_eq!(say(&mut new, &mut t, None, "list"), "ok ");
    assert_eq!(say(&mut old, &mut t, None, "list"), format!("ok {a} {b}"));

    // It goes as well, and each keeps its own.
    assert!(say(&mut new, &mut t, None, &format!("create {b}")).starts_with("ok "));
    assert!(t.remove(TenantId::zero()));
    assert_eq!(say(&mut new, &mut t, None, "list"), format!("ok {b}"));
    assert_eq!(say(&mut old, &mut t, None, "list"), format!("ok {a} {b}"));

    // Switching to the id means the tenant that is hosted then.
    let zero = TenantId::zero().to_string();
    assert!(say(&mut old, &mut t, None, &format!("tenant {zero}")).starts_with("ok tenant"));
    assert_eq!(say(&mut old, &mut t, None, "list"), "ok ");
    assert_eq!(say(&mut new, &mut t, None, "list"), format!("ok {b}"));
}

#[test]
fn removed_tenants_are_dropped_when_nobody_refers_to_them() {
    let mut t = TenantManager::new(1_000);
    let zero = TenantId::zero();
    let held = t.refer(zero);
    t.referred_mut(held).create_timeline(id(1)).unwrap();
    assert!(t.remove(zero));
    assert_eq!(t.referred_mut(held).timeline_ids(), vec![id(1)]);
    t.drop_removed();
    let held = t.refer(zero);
    assert_eq!(held.id(), zero);
    assert!(t.referred_mut(held).timeline_ids().is_empty());
}

#[test]
fn lines_before_the_token_are_refused_and_those_behind_it_served() {
    let mut tenants = TenantManager::new(1_000);
    let token = Some("s3cr3t");
    let mut s = ControlSession::open(&mut tenants, true);
    let before = snapshot(&tenants);
    let create = format!("create {}", hex(7));
    let tenant = format!("tenant {}", hex(9));
    for line in [create.as_str(), tenant.as_str(), "list", "gc 5", "auth", "auth nope", "s3cr3t", ""] {
        assert!(say(&mut s, &mut tenants, token, line).starts_with("err "), "{line}");
        assert_eq!(snapshot(&tenants), before);
    }
    assert_eq!(say(&mut s, &mut tenants, token, "auth s3cr3t behind"), "ok authenticated");
    assert_eq!(say(&mut s, &mut tenants, token, &create), format!("ok created {}", hex(7)));
    assert_eq!(say(&mut s, &mut tenants, token, "list"), format!("ok {}", hex(7)));
    // Once open, the session takes `auth` for any other word.
    assert_eq!(say(&mut s, &mut tenants, token, "auth nope"), "err unknown command 'auth'");
    assert_eq!(say(&mut s, &mut tenants, token, "list"), format!("ok {}", hex(7)));
}

#[test]
fn commands_that_cannot_be_understood_are_answered() {
    let mut tenant = Tenant::new(1_000);
    for line in ["", "   ", "\t \u{3000}"] {
        assert_eq!(exec(&mut tenant, line), "err empty command");
    }
    assert_eq!(exec(&mut tenant, "Create 00"), "err unknown command 'Create'");
    assert_eq!(exec(&mut tenant, "create xyz"), "err usage: create <timeline-hex>");
    let h = hex(1);
    for line in
        ["branch".to_string(), format!("branch {h}"), format!("branch {h} {h}"), format!("branch {h} {h} -1")]
    {
        assert_eq!(exec(&mut tenant, &line), "err usage: branch <new-hex> <parent-hex> <lsn>");
    }
    assert_eq!(exec(&mut tenant, "gc x"), "err usage: gc <horizon-lsn>");
    assert_eq!(exec(&mut tenant, "list"), "ok ");
}
