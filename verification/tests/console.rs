//! `aethelctl`: databases, deployment and the console; documents and texts.

use aetheldb::aethelctl::client::{
    error_detail, request_failed, server_error, string_array, timelines_path, Client,
};
use aetheldb::aethelctl::databases::{
    add_branch, connection_string, find, id_from_digest, id_from_name, remove, set_current, upsert,
    Database, RestorePoint,
};
use aetheldb::aethelctl::deploy::{
    apply_command, command_preview, compose, deploy, helm_args, uninstall, DeployOpts,
};
use aetheldb::aethelctl::serve::{
    api, branch_database, branched_database, compute_states, count, created_database, deploy_opts,
    field, flagged_database, ignore_conflict, list_databases, lookup_state, metric_expr, opt,
    pin_path, proxy_url, query_param, restore_database, restored_database, route, running_count,
    status, tenant_path, text_object, url_path, ConsoleRoute, ServeCfg,
};
use aetheldb::common::lsn::Lsn;
use aetheldb::common::page::{ForkNumber, RelTag, PAGE_SIZE};
use aetheldb::json::{json_text, json_texts, json_uint, parse, Fields, Json};
use aetheldb::pageserver::basebackup::{import_file, ingest_frame, parse_relfile};
use aetheldb::pageserver::objstore::{listed_key, valid_key};
use aetheldb::pageserver::page::{Modification, PageVersion};
use aetheldb::text::{is_less, join_texts, sort_texts};

// ---------------------------------------------------------------------------
// Databases
// ---------------------------------------------------------------------------

#[test]
fn id_is_deterministic_32_hex() {
    let a = id_from_name("orders");
    assert_eq!(a.len(), 32);
    assert!(a.chars().all(|c| c.is_ascii_hexdigit()));
    assert_eq!(a, id_from_name("orders"));
    assert_ne!(a, id_from_name("analytics"));
}

#[test]
fn ids_are_the_first_half_of_the_digest() {
    // SHA-256 of "abc" starts with these sixteen bytes.
    assert_eq!(id_from_name("abc"), "ba7816bf8f01cfea414140de5dae2223");
    assert_eq!(id_from_name("  abc\n"), id_from_name("abc"));
    // And of nothing.
    assert_eq!(id_from_name(""), "e3b0c44298fc1c149afbf4c8996fb924");
    assert_eq!(id_from_digest(&[0x0f; 32]), "0f".repeat(16));
}

#[test]
fn connection_string_format() {
    assert_eq!(
        connection_string("orders", "db.example.com:5432"),
        "postgresql://postgres@db.example.com:5432/orders"
    );
}

#[test]
fn upsert_is_idempotent_and_persists() {
    let mut dbs = Vec::new();
    let a = upsert(&mut dbs, "orders").unwrap();
    let b = upsert(&mut dbs, "orders").unwrap();
    assert_eq!(a, b);
    upsert(&mut dbs, "analytics").unwrap();
    assert_eq!(dbs.len(), 2);
    assert!(dbs.iter().any(|d| d.name == "orders"));
}

#[test]
fn names_are_trimmed_and_not_empty() {
    let mut dbs = Vec::new();
    assert_eq!(upsert(&mut dbs, " \t"), Err("database name must not be empty".to_string()));
    assert!(dbs.is_empty());
    assert_eq!(upsert(&mut dbs, " a ").unwrap().name, "a");
    assert_eq!(find(&dbs, "a"), Some(0));
    assert_eq!(find(&dbs, " a "), None);
    assert_eq!(remove(&mut dbs, "b"), None);
    assert_eq!(remove(&mut dbs, "a").unwrap().id, id_from_name("a"));
    assert!(dbs.is_empty());
}

#[test]
fn restore_points_are_recorded_once() {
    let mut dbs = Vec::new();
    upsert(&mut dbs, "a").unwrap();
    upsert(&mut dbs, "b").unwrap();
    assert!(add_branch(&mut dbs, "a", "monday", "t1", 7));
    assert!(!add_branch(&mut dbs, "a", "monday", "t2", 8));
    assert!(!add_branch(&mut dbs, "c", "monday", "t2", 8));
    let point =
        RestorePoint { name: "monday".to_string(), timeline: "t1".to_string(), lsn: 7 };
    assert_eq!(dbs[0].branches, vec![point]);
    assert!(dbs[1].branches.is_empty());
    assert!(set_current(&mut dbs, "a", Some("t1".to_string())));
    assert!(!set_current(&mut dbs, "c", None));
    assert_eq!(dbs[0].current, Some("t1".to_string()));
    assert_eq!(dbs[1].current, None);
}

// ---------------------------------------------------------------------------
// Deployment
// ---------------------------------------------------------------------------

fn options() -> DeployOpts {
    DeployOpts {
        release: "aethel".into(),
        namespace: "ns".into(),
        values_files: vec!["prod.yaml".into()],
        sets: vec!["safekeeper.replicas=3".into()],
        object_store_url: Some("s3://bucket".into()),
        image_repo: Some("ghcr.io/me/aetheldb".into()),
        image_tag: Some("v0.2.0".into()),
        expose: true,
        wait: true,
        dry_run: true,
    }
}

#[test]
fn helm_args_compose_values_sets_and_flags() {
    let opts = options();
    let args = helm_args(&opts, "/tmp/chart");
    let joined = args.join(" ");
    assert!(
        joined.starts_with("upgrade --install aethel /tmp/chart --namespace ns --create-namespace")
    );
    assert!(joined.contains("--values prod.yaml"));
    assert!(joined.contains("--set safekeeper.replicas=3"));
    assert!(joined.contains("--set objectStore.url=s3://bucket"));
    assert!(joined.contains("--set image.repository=ghcr.io/me/aetheldb"));
    assert!(joined.contains("--set image.tag=v0.2.0"));
    assert!(joined.contains("--set proxy.service.type=LoadBalancer"));
    assert!(joined.contains("--wait"));
    assert!(joined.contains("--dry-run"));
}

#[test]
fn commands_are_exact() {
    let mut opts = options();
    assert_eq!(deploy(&opts, Some("/c"), "/e"), helm_args(&opts, "/c"));
    assert_eq!(deploy(&opts, None, "/e"), helm_args(&opts, "/e"));
    opts.values_files.clear();
    opts.sets.clear();
    opts.object_store_url = None;
    opts.image_repo = None;
    opts.image_tag = None;
    opts.expose = false;
    opts.wait = false;
    opts.dry_run = false;
    assert_eq!(
        command_preview(&opts),
        "helm upgrade --install aethel <chart> --namespace ns --create-namespace"
    );
    assert_eq!(
        apply_command(&opts, "/c"),
        "helm upgrade --install aethel /c --namespace ns --create-namespace 2>&1"
    );
    assert_eq!(uninstall("r", "n"), vec!["uninstall", "r", "--namespace", "n"]);
    assert_eq!(compose("up", "f", true), vec!["compose", "-f", "f", "up", "-d"]);
    assert_eq!(compose("up", "f", false), vec!["compose", "-f", "f", "up"]);
    assert_eq!(compose("down", "f", true), vec!["compose", "-f", "f", "down"]);
}

#[test]
fn deploy_opts_map_cloud_and_toggles() {
    let body = parse(
        r#"{
            "cloud": "aws", "namespace": "ns", "release": "r",
            "objectStoreUrl": "s3://b", "imageRepo": "me/x", "imageTag": "v1",
            "safekeeperReplicas": 3, "autoscaling": true, "autoMin": 2, "autoMax": 9,
            "pdb": true, "spread": true, "pooling": false, "expose": false
        }"#,
    );
    let o = deploy_opts(&body, true);
    assert_eq!(o.namespace, "ns");
    assert_eq!(o.object_store_url.as_deref(), Some("s3://b"));
    assert!(o.expose, "a cloud target should expose the proxy");
    assert!(o.dry_run);
    let joined = o.sets.join(" ");
    assert!(joined.contains("safekeeper.replicas=3"));
    assert!(joined.contains("autoscaling.proxy.enabled=true"));
    assert!(joined.contains("autoscaling.proxy.maxReplicas=9"));
    assert!(joined.contains("topologySpread.enabled=true"));
}

#[test]
fn an_empty_form_deploys_the_defaults() {
    let o = deploy_opts(&parse("not json"), false);
    assert_eq!(o.release, "aethel");
    assert_eq!(o.namespace, "aethel");
    assert!(!o.expose && !o.wait && !o.dry_run);
    assert_eq!(o.object_store_url, None);
    assert_eq!(
        o.sets,
        vec![
            "safekeeper.replicas=1",
            "autoscaling.proxy.enabled=false",
            "autoscaling.proxy.minReplicas=2",
            "autoscaling.proxy.maxReplicas=10",
            "podDisruptionBudget.safekeeper.enabled=false",
            "podDisruptionBudget.proxy.enabled=false",
            "topologySpread.enabled=false",
            "pooling.enabled=false",
        ]
    );
    let o = deploy_opts(&parse(r#"{"autoMin":-4,"release":""}"#), false);
    assert_eq!(o.sets[2], "autoscaling.proxy.minReplicas=-4");
    assert_eq!(o.release, "aethel");
}

// ---------------------------------------------------------------------------
// The console
// ---------------------------------------------------------------------------

#[test]
fn query_param_extracts_tenant() {
    assert_eq!(query_param("/api/timelines?tenant=abc", "tenant"), Some("abc".into()));
    assert_eq!(query_param("/api/timelines", "tenant"), None);
}

#[test]
fn query_parameters_are_found_by_name() {
    assert_eq!(query_param("/x?a=1&b=2&b=3", "b"), Some("2".into()));
    assert_eq!(query_param("/x?a&b=2=3", "b"), Some("2=3".into()));
    assert_eq!(query_param("/x?ab=2", "b"), None);
    assert_eq!(url_path("/x?y?z"), "/x");
    assert_eq!(url_path("/x"), "/x");
}

#[test]
fn console_routes() {
    let db = |s: &str| s.to_string();
    assert_eq!(route("GET", "/"), ConsoleRoute::Index);
    assert_eq!(route("GET", "/index.html"), ConsoleRoute::Index);
    assert_eq!(route("GET", "/api/status"), ConsoleRoute::Status);
    assert_eq!(route("GET", "/api/databases"), ConsoleRoute::ListDatabases);
    assert_eq!(route("POST", "/api/databases"), ConsoleRoute::CreateDatabase);
    assert_eq!(route("DELETE", "/api/databases/a"), ConsoleRoute::DeleteDatabase(db("a")));
    assert_eq!(route("DELETE", "/api/databases/a/b"), ConsoleRoute::NotFound);
    assert_eq!(route("POST", "/api/databases/a/start"), ConsoleRoute::StartDatabase(db("a")));
    assert_eq!(route("POST", "/api/databases/a/b/stop"), ConsoleRoute::StopDatabase(db("a/b")));
    assert_eq!(route("POST", "/api/databases/a/branch"), ConsoleRoute::BranchDatabase(db("a")));
    assert_eq!(route("POST", "/api/databases/a/restore"), ConsoleRoute::RestoreDatabase(db("a")));
    assert_eq!(route("POST", "/api/databases/a/keepwarm"), ConsoleRoute::KeepWarm(db("a"), true));
    assert_eq!(
        route("POST", "/api/databases/a/nokeepwarm"),
        ConsoleRoute::KeepWarm(db("a"), false)
    );
    assert_eq!(route("GET", "/api/databases/a/metrics"), ConsoleRoute::DatabaseMetrics(db("a")));
    assert_eq!(route("GET", "/api/databases/a/start"), ConsoleRoute::NotFound);
    assert_eq!(route("GET", "/api/tenants"), ConsoleRoute::ListTenants);
    assert_eq!(route("POST", "/api/tenants"), ConsoleRoute::CreateTenant);
    assert_eq!(route("GET", "/api/timelines"), ConsoleRoute::ListTimelines);
    assert_eq!(route("POST", "/api/timelines"), ConsoleRoute::CreateTimeline);
    assert_eq!(route("POST", "/api/branches"), ConsoleRoute::BranchTimeline);
    assert_eq!(route("POST", "/api/gc"), ConsoleRoute::Gc);
    assert_eq!(route("POST", "/api/deploy/preview"), ConsoleRoute::DeployPreview);
    assert_eq!(route("POST", "/api/deploy/command"), ConsoleRoute::DeployCommand);
    assert_eq!(route("POST", "/api/deploy/apply"), ConsoleRoute::DeployApply);
    assert_eq!(route("GET", "/nope"), ConsoleRoute::NotFound);
}

fn config() -> ServeCfg {
    ServeCfg {
        control_url: "http://c".to_string(),
        allow_apply: true,
        grafana_url: None,
        client_endpoint: "e:5432".to_string(),
        proxy_url: Some("http://p/".to_string()),
        prometheus_url: None,
    }
}

#[test]
fn the_overview_says_what_is_configured() {
    let j = status(&config(), 3, 2);
    assert_eq!(j.get_str("server"), Some("http://c"));
    assert_eq!(j.get_u64("databases"), Some(3));
    assert_eq!(j.get_u64("running"), Some(2));
    assert_eq!(j.get_bool("computeControl"), Some(true));
    assert_eq!(j.get_bool("metrics"), Some(false));
    assert_eq!(j.get_bool("allowApply"), Some(true));
    assert_eq!(j.get("grafanaUrl"), Some(&Json::Null));
    assert_eq!(j.get_str("clientEndpoint"), Some("e:5432"));
}

#[test]
fn databases_are_listed_with_their_state() {
    let mut dbs = Vec::new();
    upsert(&mut dbs, "a").unwrap();
    upsert(&mut dbs, "b").unwrap();
    add_branch(&mut dbs, "b", "monday", "t1", 7);
    set_current(&mut dbs, "b", Some("t1".to_string()));
    let proxy = parse(
        r#"{"tenants":[{"tenant":"a","running":true,"keepWarm":true},{"tenant":"x"},
            {"tenant":"b","running":true},{"tenant":"b","running":false}]}"#,
    );
    let running = compute_states(&proxy, "running");
    let warm = compute_states(&proxy, "keepWarm");
    assert_eq!(lookup_state(&running, "a"), Some(true));
    assert_eq!(lookup_state(&running, "b"), Some(false)); // the last one counts
    assert_eq!(lookup_state(&running, "x"), None);
    assert_eq!(running_count(&running), 1);
    let live = vec![id_from_name("a")];
    let j = list_databases(&dbs, &live, &running, &warm, &config());
    assert_eq!(j.get_str("endpoint"), Some("e:5432"));
    assert_eq!(j.get_bool("computeControl"), Some(true));
    let list = j.get_list("databases").unwrap();
    assert_eq!(list.len(), 2);
    assert_eq!(list[0].get_str("status"), Some("active"));
    assert_eq!(list[0].get_str("compute"), Some("running"));
    assert_eq!(list[0].get_bool("keepWarm"), Some(true));
    assert_eq!(list[0].get_str("current"), Some("live"));
    assert_eq!(list[0].get_str("connection"), Some("postgresql://postgres@e:5432/a"));
    assert_eq!(list[1].get_str("status"), Some("pending"));
    assert_eq!(list[1].get_str("compute"), Some("hibernated"));
    assert_eq!(list[1].get_bool("keepWarm"), Some(false));
    assert_eq!(list[1].get_str("current"), Some("monday"));
    assert_eq!(list[1].get_list("branches").unwrap()[0].get_u64("lsn"), Some(7));
    assert_eq!(list[1].get_str("id"), Some(id_from_name("b").as_str()));
}

#[test]
fn provisioning_answers() {
    let d = Database { name: "a".into(), id: "i".into(), branches: vec![], current: None };
    assert_eq!(
        created_database(&d, "e").to_string(),
        r#"{"connection":"postgresql://postgres@e/a","id":"i","name":"a","status":"active"}"#
    );
    let p = branch_database("a", &parse(r#"{"branch":"","lsn":9}"#));
    assert_eq!(p.name, "restore");
    assert_eq!(p.lsn, 9);
    assert_eq!(p.timeline, id_from_name("a/restore"));
    assert_eq!(branch_database("a", &Json::Null).lsn, 0);
    assert_eq!(branched_database("a", &p).get_str("timeline"), Some(p.timeline.as_str()));
    assert_eq!(restore_database(&parse(r#"{"timeline":"live"}"#)), None);
    assert_eq!(restore_database(&parse(r#"{"timeline":""}"#)), None);
    assert_eq!(restore_database(&parse(r#"{"timeline":"t"}"#)), Some("t".to_string()));
    assert_eq!(restored_database("a", &None).to_string(), r#"{"current":null,"database":"a"}"#);
    assert_eq!(flagged_database("a", "running", true).to_string(), r#"{"name":"a","running":true}"#);
    assert_eq!(text_object("deleted", "a").to_string(), r#"{"deleted":"a"}"#);
    assert_eq!(api(Ok(Json::Null)), (200, Json::Null));
    let (code, j) = api(Err("no".to_string()));
    assert_eq!((code, j.to_string()), (400, r#"{"error":"no"}"#.to_string()));
}

#[test]
fn forms_are_read_field_by_field() {
    let j = parse(r#"{"a":"x","b":"","n":4,"m":-4}"#);
    assert_eq!(field(&j, "a"), Ok("x".to_string()));
    assert_eq!(field(&j, "b"), Ok(String::new()));
    assert_eq!(field(&j, "c"), Err("missing field `c`".to_string()));
    assert_eq!(field(&j, "n"), Err("missing field `n`".to_string()));
    assert_eq!(opt(&j, "a"), Some("x".to_string()));
    assert_eq!(opt(&j, "b"), None);
    assert_eq!(count(&j, "n"), 4);
    assert_eq!(count(&j, "m"), 0);
    assert_eq!(count(&j, "c"), 0);
}

#[test]
fn conflicts_are_no_failures() {
    assert!(ignore_conflict("server returned 409: x"));
    assert!(ignore_conflict("tenant already EXISTS"));
    assert!(!ignore_conflict("server returned 404: x"));
}

#[test]
fn urls_of_the_proxy_and_of_the_metrics() {
    assert_eq!(proxy_url("http://p//", "/tenants"), "http://p/tenants");
    assert_eq!(tenant_path("a", "/start"), "/tenants/a/start");
    assert_eq!(tenant_path("a", ""), "/tenants/a");
    assert_eq!(pin_path("a", Some("t")), "/tenants/a/pin/t");
    assert_eq!(pin_path("a", None), "/tenants/a/unpin");
    assert_eq!(
        metric_expr("wakes_total", "a", true),
        "rate(aethel_proxy_database_wakes_total{database=\"a\"}[5m])"
    );
    assert_eq!(
        metric_expr("compute_up", "a", false),
        "aethel_proxy_database_compute_up{database=\"a\"}"
    );
}

#[test]
fn clients_address_the_control_plane() {
    let c = Client::new("http://h:1//", Some("t".to_string()));
    assert_eq!(c.base(), "http://h:1");
    let r = c.receive("tl", "s:1", 7, Some("ten"));
    assert_eq!(r.method, "POST");
    assert_eq!(r.url, "http://h:1/v1/timelines/receive");
    assert_eq!(r.authorization, Some("Bearer t".to_string()));
    assert_eq!(
        r.body.unwrap().to_string(),
        r#"{"safekeeper":"s:1","start_lsn":7,"tenant":"ten","timeline":"tl"}"#
    );
    let r = Client::new("x", None).list_timelines(None);
    assert_eq!((r.method, r.url.as_str()), ("GET", "x/v1/timelines"));
    assert_eq!(r.authorization, None);
    assert!(r.body.is_none());
    assert_eq!(timelines_path(Some("t")), "/v1/timelines?tenant=t");
}

#[test]
fn server_errors_carry_the_servers_words() {
    assert_eq!(server_error(409, r#"{"error":"taken"}"#), "server returned 409: taken");
    assert_eq!(server_error(500, "oops"), "server returned 500: oops");
    assert_eq!(server_error(500, r#"{"error":5}"#), r#"server returned 500: {"error":5}"#);
    assert_eq!(error_detail(&None, "raw"), "raw");
    assert_eq!(request_failed("http://h", "refused"), "request to http://h failed: refused");
    assert_eq!(
        string_array(&parse(r#"{"t":["a",1,"b"]}"#), "t"),
        vec!["a".to_string(), "b".to_string()]
    );
    assert!(string_array(&parse(r#"{"t":1}"#), "t").is_empty());
}

// ---------------------------------------------------------------------------
// Documents and texts
// ---------------------------------------------------------------------------

#[test]
fn documents_are_read_and_written() {
    let j = parse(r#" {"b": [1, -2, 1.5, true, null, "x\n"], "a": {}} "#);
    assert_eq!(j.to_string(), r#"{"a":{},"b":[1,-2,1.5,true,null,"x\n"]}"#);
    let list = j.get_list("b").unwrap();
    assert_eq!(list[0], Json::Uint(1));
    assert_eq!(list[1], Json::Int(-2));
    assert!(matches!(list[2], Json::Other(_)));
    assert_eq!(parse("{"), Json::Null);
    assert_eq!(j.get("c"), None);
    assert_eq!(parse(r#"{"x":18446744073709551615}"#).get_u64("x"), Some(u64::MAX));
    assert_eq!(parse(r#"{"x":-5}"#).get_i64("x"), Some(-5));
    let mut f = Fields::new();
    f.put("n", json_uint(7));
    f.put("t", json_text("q\""));
    f.put("l", json_texts(&vec!["a".to_string()]));
    assert_eq!(f.done().to_string(), r#"{"l":["a"],"n":7,"t":"q\""}"#);
}

#[test]
fn texts_sort_as_std_sorts_them() {
    let v: Vec<String> =
        ["b", "a", "", "ab", "\u{e9}", "a"].iter().map(|s| s.to_string()).collect();
    let mut want = v.clone();
    want.sort();
    let got = sort_texts(v);
    assert_eq!(got, want);
    assert_eq!(join_texts(&got, ","), want.join(","));
    assert!(is_less("a", "ab") && !is_less("ab", "a") && !is_less("a", "a"));
}

// ---------------------------------------------------------------------------
// Base backups and object keys
// ---------------------------------------------------------------------------

#[test]
fn relation_files_are_told_by_their_names() {
    assert_eq!(parse_relfile("16384"), Some((16384, ForkNumber::Main)));
    assert_eq!(parse_relfile("16384_fsm"), Some((16384, ForkNumber::Fsm)));
    assert_eq!(parse_relfile("16384_vm"), Some((16384, ForkNumber::VisibilityMap)));
    assert_eq!(parse_relfile("16384_init"), None);
    assert_eq!(parse_relfile("16384.1"), None);
    assert_eq!(parse_relfile("PG_VERSION"), None);
    assert_eq!(parse_relfile("pg_filenode.map"), None);
    assert_eq!(parse_relfile("4294967296"), None);
    assert_eq!(parse_relfile(""), None);
}

#[test]
fn files_are_imported_page_by_page() {
    let rel = RelTag { spc_node: 1663, db_node: 5, rel_node: 16384, fork: ForkNumber::Main };
    let mut data = vec![1u8; PAGE_SIZE];
    data.extend_from_slice(&[2, 3]);
    let mods = import_file(&data, rel, Lsn(9));
    assert_eq!(mods.len(), 2);
    assert_eq!((mods[1].block, mods[1].lsn, mods[1].rel), (1, Lsn(9), rel));
    match &mods[1].version {
        PageVersion::Image(p) => {
            assert_eq!(p.len(), PAGE_SIZE);
            assert_eq!(&p[0..3], &[2, 3, 0]); // padded
        }
        other => panic!("{other:?}"),
    }
    assert!(import_file(&[], rel, Lsn(9)).is_empty());
    let frame = ingest_frame(&mods[0]);
    assert_eq!(&frame[0..4], &((frame.len() - 4) as u32).to_be_bytes());
    assert_eq!(Modification::decode(&frame[4..]).unwrap(), mods[0]);
}

#[test]
fn rejects_path_traversal() {
    assert!(!valid_key("../escape"));
    assert!(!valid_key("/root"));
    assert!(!valid_key("a/../b"));
    assert!(valid_key("layers/0001.layer"));
}

#[test]
fn listings_name_finished_files() {
    assert_eq!(listed_key("layers/0001.layer", "layers/"), Some("layers/0001.layer".to_string()));
    assert_eq!(listed_key("layers\\1", "layers/"), Some("layers/1".to_string()));
    assert_eq!(listed_key("other/1", "layers/"), None);
    assert_eq!(listed_key("layers/0001.tmp", "layers/"), None);
    assert_eq!(listed_key("a.tmp/b", ""), Some("a.tmp/b".to_string()));
    assert_eq!(listed_key(".tmp", ""), Some(".tmp".to_string()));
    assert_eq!(listed_key("x.tmp", ""), None);
}
