//! The web console: its routes, and the documents it answers with.
//!
//! The console proxies the control plane, shows deployment dry-runs, and keeps
//! the registry of named databases. What is decided here is which action a
//! request names, what is asked of the control plane and of the proxy, and what
//! is answered; the calls themselves are for the caller.

use vstd::prelude::*;

use crate::aethelctl::databases::{
    connection_string, connection_text, databases_view, id_from_name, name_id, points_view,
    Database, DatabaseV, RestorePoint, RestorePointV,
};
use crate::aethelctl::deploy::{opt_text, DeployOpts, DeployOptsV};
use crate::json::{json_text, json_uint, lemma_json_view, list_view, uint, Fields, Json, JsonV};
use crate::pageserver::control::optional_text;
use crate::text::{
    chars_of, contains_text, copy_str, has_text, lower, pieces_of, position, push_signed,
    same_chars, signed_decimal, same_text, split_on, split_once, split_once_at, string_of,
    strip_prefix, strip_suffix, texts, to_lower, trim_end_char, without_prefix, without_suffix,
    without_trailing,
};

verus! {

/// Configuration of the console.
#[derive(Debug)]
pub struct ServeCfg {
    /// The control plane's URL.
    pub control_url: String,
    /// Whether the console may really apply a deployment.
    pub allow_apply: bool,
    /// Grafana's URL, for metrics panels.
    pub grafana_url: Option<String>,
    /// The endpoint that connection strings show.
    pub client_endpoint: String,
    /// The proxy's compute-control URL.
    pub proxy_url: Option<String>,
    /// Prometheus's URL, for per-database charts.
    pub prometheus_url: Option<String>,
}

// ---------------------------------------------------------------------------
// Routes
// ---------------------------------------------------------------------------

/// What a request to the console asks for.
#[derive(Debug, PartialEq, Eq)]
pub enum ConsoleRoute {
    /// The page itself.
    Index,
    Status,
    ListDatabases,
    CreateDatabase,
    DeleteDatabase(String),
    StartDatabase(String),
    StopDatabase(String),
    BranchDatabase(String),
    RestoreDatabase(String),
    /// Keep the database's compute running, or let it scale to zero.
    KeepWarm(String, bool),
    DatabaseMetrics(String),
    ListTenants,
    CreateTenant,
    ListTimelines,
    CreateTimeline,
    BranchTimeline,
    Gc,
    DeployPreview,
    DeployCommand,
    DeployApply,
    NotFound,
}

/// What a [`ConsoleRoute`] says.
pub enum ConsoleRouteV {
    Index,
    Status,
    ListDatabases,
    CreateDatabase,
    DeleteDatabase(Seq<char>),
    StartDatabase(Seq<char>),
    StopDatabase(Seq<char>),
    BranchDatabase(Seq<char>),
    RestoreDatabase(Seq<char>),
    KeepWarm(Seq<char>, bool),
    DatabaseMetrics(Seq<char>),
    ListTenants,
    CreateTenant,
    ListTimelines,
    CreateTimeline,
    BranchTimeline,
    Gc,
    DeployPreview,
    DeployCommand,
    DeployApply,
    NotFound,
}

impl View for ConsoleRoute {
    type V = ConsoleRouteV;

    open spec fn view(&self) -> ConsoleRouteV {
        match *self {
            ConsoleRoute::Index => ConsoleRouteV::Index,
            ConsoleRoute::Status => ConsoleRouteV::Status,
            ConsoleRoute::ListDatabases => ConsoleRouteV::ListDatabases,
            ConsoleRoute::CreateDatabase => ConsoleRouteV::CreateDatabase,
            ConsoleRoute::DeleteDatabase(n) => ConsoleRouteV::DeleteDatabase(n@),
            ConsoleRoute::StartDatabase(n) => ConsoleRouteV::StartDatabase(n@),
            ConsoleRoute::StopDatabase(n) => ConsoleRouteV::StopDatabase(n@),
            ConsoleRoute::BranchDatabase(n) => ConsoleRouteV::BranchDatabase(n@),
            ConsoleRoute::RestoreDatabase(n) => ConsoleRouteV::RestoreDatabase(n@),
            ConsoleRoute::KeepWarm(n, on) => ConsoleRouteV::KeepWarm(n@, on),
            ConsoleRoute::DatabaseMetrics(n) => ConsoleRouteV::DatabaseMetrics(n@),
            ConsoleRoute::ListTenants => ConsoleRouteV::ListTenants,
            ConsoleRoute::CreateTenant => ConsoleRouteV::CreateTenant,
            ConsoleRoute::ListTimelines => ConsoleRouteV::ListTimelines,
            ConsoleRoute::CreateTimeline => ConsoleRouteV::CreateTimeline,
            ConsoleRoute::BranchTimeline => ConsoleRouteV::BranchTimeline,
            ConsoleRoute::Gc => ConsoleRouteV::Gc,
            ConsoleRoute::DeployPreview => ConsoleRouteV::DeployPreview,
            ConsoleRoute::DeployCommand => ConsoleRouteV::DeployCommand,
            ConsoleRoute::DeployApply => ConsoleRouteV::DeployApply,
            ConsoleRoute::NotFound => ConsoleRouteV::NotFound,
        }
    }
}

/// An action on a database, by what follows the name in a `POST`.
pub open spec fn database_action(rest: Seq<char>) -> Option<ConsoleRouteV> {
    if let Some(n) = strip_suffix(rest, "/start"@) {
        Some(ConsoleRouteV::StartDatabase(n))
    } else if let Some(n) = strip_suffix(rest, "/stop"@) {
        Some(ConsoleRouteV::StopDatabase(n))
    } else if let Some(n) = strip_suffix(rest, "/branch"@) {
        Some(ConsoleRouteV::BranchDatabase(n))
    } else if let Some(n) = strip_suffix(rest, "/restore"@) {
        Some(ConsoleRouteV::RestoreDatabase(n))
    } else if let Some(n) = strip_suffix(rest, "/keepwarm"@) {
        Some(ConsoleRouteV::KeepWarm(n, true))
    } else if let Some(n) = strip_suffix(rest, "/nokeepwarm"@) {
        Some(ConsoleRouteV::KeepWarm(n, false))
    } else {
        None
    }
}

/// The route that names a database, where the path does.
pub open spec fn database_route(method: Seq<char>, path: Seq<char>) -> Option<ConsoleRouteV> {
    match strip_prefix(path, "/api/databases/"@) {
        None => None,
        Some(rest) => if method == "POST"@ {
            database_action(rest)
        } else if method == "GET"@ {
            match strip_suffix(rest, "/metrics"@) {
                Some(n) => Some(ConsoleRouteV::DatabaseMetrics(n)),
                None => None,
            }
        } else if method == "DELETE"@ && position(rest, '/') == rest.len() {
            Some(ConsoleRouteV::DeleteDatabase(rest))
        } else {
            None
        },
    }
}

/// The route of a fixed path.
pub open spec fn fixed_route(method: Seq<char>, path: Seq<char>) -> ConsoleRouteV {
    if method == "GET"@ {
        if path == "/"@ || path == "/index.html"@ {
            ConsoleRouteV::Index
        } else if path == "/api/status"@ {
            ConsoleRouteV::Status
        } else if path == "/api/databases"@ {
            ConsoleRouteV::ListDatabases
        } else if path == "/api/tenants"@ {
            ConsoleRouteV::ListTenants
        } else if path == "/api/timelines"@ {
            ConsoleRouteV::ListTimelines
        } else {
            ConsoleRouteV::NotFound
        }
    } else if method == "POST"@ {
        if path == "/api/databases"@ {
            ConsoleRouteV::CreateDatabase
        } else if path == "/api/tenants"@ {
            ConsoleRouteV::CreateTenant
        } else if path == "/api/timelines"@ {
            ConsoleRouteV::CreateTimeline
        } else if path == "/api/branches"@ {
            ConsoleRouteV::BranchTimeline
        } else if path == "/api/gc"@ {
            ConsoleRouteV::Gc
        } else if path == "/api/deploy/preview"@ {
            ConsoleRouteV::DeployPreview
        } else if path == "/api/deploy/command"@ {
            ConsoleRouteV::DeployCommand
        } else if path == "/api/deploy/apply"@ {
            ConsoleRouteV::DeployApply
        } else {
            ConsoleRouteV::NotFound
        }
    } else {
        ConsoleRouteV::NotFound
    }
}

/// What a request asks for.
pub open spec fn console_route(method: Seq<char>, path: Seq<char>) -> ConsoleRouteV {
    match database_route(method, path) {
        Some(r) => r,
        None => fixed_route(method, path),
    }
}

fn read_database_action(rest: &str) -> (r: Option<ConsoleRoute>)
    ensures
        match r {
            Some(x) => database_action(rest@) == Some(x@),
            None => database_action(rest@) is None,
        },
{
    if let Some(n) = without_suffix(rest, "/start") {
        Some(ConsoleRoute::StartDatabase(n))
    } else if let Some(n) = without_suffix(rest, "/stop") {
        Some(ConsoleRoute::StopDatabase(n))
    } else if let Some(n) = without_suffix(rest, "/branch") {
        Some(ConsoleRoute::BranchDatabase(n))
    } else if let Some(n) = without_suffix(rest, "/restore") {
        Some(ConsoleRoute::RestoreDatabase(n))
    } else if let Some(n) = without_suffix(rest, "/keepwarm") {
        Some(ConsoleRoute::KeepWarm(n, true))
    } else if let Some(n) = without_suffix(rest, "/nokeepwarm") {
        Some(ConsoleRoute::KeepWarm(n, false))
    } else {
        None
    }
}

fn read_database_route(method: &str, path: &str) -> (r: Option<ConsoleRoute>)
    ensures
        match r {
            Some(x) => database_route(method@, path@) == Some(x@),
            None => database_route(method@, path@) is None,
        },
{
    let rest = match without_prefix(path, "/api/databases/") {
        Some(r) => r,
        None => return None,
    };
    if same_text(method, "POST") {
        read_database_action(rest.as_str())
    } else if same_text(method, "GET") {
        match without_suffix(rest.as_str(), "/metrics") {
            Some(n) => Some(ConsoleRoute::DatabaseMetrics(n)),
            None => None,
        }
    } else if same_text(method, "DELETE") {
        let c = chars_of(rest.as_str());
        if crate::text::position_of(c.as_slice(), '/') == c.len() {
            Some(ConsoleRoute::DeleteDatabase(rest))
        } else {
            None
        }
    } else {
        None
    }
}

/// What a request asks for.
pub fn route(method: &str, path: &str) -> (r: ConsoleRoute)
    ensures
        r@ == console_route(method@, path@),
{
    if let Some(r) = read_database_route(method, path) {
        return r;
    }
    if same_text(method, "GET") {
        if same_text(path, "/") || same_text(path, "/index.html") {
            ConsoleRoute::Index
        } else if same_text(path, "/api/status") {
            ConsoleRoute::Status
        } else if same_text(path, "/api/databases") {
            ConsoleRoute::ListDatabases
        } else if same_text(path, "/api/tenants") {
            ConsoleRoute::ListTenants
        } else if same_text(path, "/api/timelines") {
            ConsoleRoute::ListTimelines
        } else {
            ConsoleRoute::NotFound
        }
    } else if same_text(method, "POST") {
        if same_text(path, "/api/databases") {
            ConsoleRoute::CreateDatabase
        } else if same_text(path, "/api/tenants") {
            ConsoleRoute::CreateTenant
        } else if same_text(path, "/api/timelines") {
            ConsoleRoute::CreateTimeline
        } else if same_text(path, "/api/branches") {
            ConsoleRoute::BranchTimeline
        } else if same_text(path, "/api/gc") {
            ConsoleRoute::Gc
        } else if same_text(path, "/api/deploy/preview") {
            ConsoleRoute::DeployPreview
        } else if same_text(path, "/api/deploy/command") {
            ConsoleRoute::DeployCommand
        } else if same_text(path, "/api/deploy/apply") {
            ConsoleRoute::DeployApply
        } else {
            ConsoleRoute::NotFound
        }
    } else {
        ConsoleRoute::NotFound
    }
}

/// The path of a URL: what stands before the first `?`.
pub fn url_path(url: &str) -> (r: String)
    ensures
        r@ == url@.take(position(url@, '?')),
{
    let c = chars_of(url);
    let p: usize = crate::text::position_of(c.as_slice(), '?');
    let front = vstd::slice::slice_subrange(c.as_slice(), 0, p);
    assert(front@ =~= url@.take(p as int));
    string_of(front)
}

/// The value of the first piece from number `i` on that is `key=value`.
pub open spec fn param_from(p: Seq<Seq<char>>, key: Seq<char>, i: int) -> Option<Seq<char>>
    decreases p.len() - i,
{
    if i < 0 || i >= p.len() {
        None
    } else {
        match split_once(p[i], '=') {
            Some((k, v)) => if k == key {
                Some(v)
            } else {
                param_from(p, key, i + 1)
            },
            None => param_from(p, key, i + 1),
        }
    }
}

/// A parameter of a URL's query.
pub open spec fn param_of(url: Seq<char>, key: Seq<char>) -> Option<Seq<char>> {
    match split_once(url, '?') {
        Some((_, query)) => param_from(split_on(query, '&'), key, 0),
        None => None,
    }
}

/// A parameter of a URL's query.
pub fn query_param(url: &str, key: &str) -> (r: Option<String>)
    ensures
        opt_text(r) == param_of(url@, key@),
{
    let c = chars_of(url);
    let k = chars_of(key);
    match split_once_at(c.as_slice(), '?') {
        None => None,
        Some((_path, query)) => {
            let p = pieces_of(query, '&');
            let ghost pv = split_on(query@, '&');
            let mut i: usize = 0;
            while i < p.len()
                invariant
                    i <= p@.len(),
                    pv == texts(p@),
                    k@ == key@,
                    param_of(url@, key@) == param_from(pv, key@, i as int),
                decreases p@.len() - i,
            {
                assert(pv[i as int] == p@[i as int]@);
                let piece = chars_of(p[i].as_str());
                if let Some((name, value)) = split_once_at(piece.as_slice(), '=') {
                    if same_chars(name, k.as_slice()) {
                        return Some(string_of(value));
                    }
                }
                i += 1;
            }
            None
        },
    }
}


// ---------------------------------------------------------------------------
// Reading bodies
// ---------------------------------------------------------------------------

/// A string field that is not empty.
pub open spec fn filled_field(j: JsonV, key: Seq<char>) -> Option<Seq<char>> {
    match j.text_field(key) {
        Some(t) => if t.len() == 0 {
            None
        } else {
            Some(t)
        },
        None => None,
    }
}

/// A boolean field, false without one.
pub open spec fn flag_field(j: JsonV, key: Seq<char>) -> bool {
    match j.bool_field(key) {
        Some(b) => b,
        None => false,
    }
}

/// An unsigned field, 0 without one.
pub open spec fn count_field(j: JsonV, key: Seq<char>) -> u64 {
    match j.u64_field(key) {
        Some(n) => n,
        None => 0,
    }
}

/// A string field that must be there.
pub fn field(j: &Json, key: &str) -> (r: Result<String, String>)
    ensures
        match j@.text_field(key@) {
            Some(t) => r matches Ok(x) && x@ == t,
            None => r matches Err(m) && m@ == "missing field `"@ + key@ + "`"@,
        },
{
    match j.get_str(key) {
        Some(t) => Ok(copy_str(t)),
        None => {
            let mut m = copy_str("missing field `");
            m.push_str(key);
            m.push_str("`");
            Err(m)
        },
    }
}

/// A string field that is not empty.
pub fn opt(j: &Json, key: &str) -> (r: Option<String>)
    ensures
        opt_text(r) == filled_field(j@, key@),
{
    match j.get_str(key) {
        Some(t) => if t.is_empty() {
            None
        } else {
            Some(copy_str(t))
        },
        None => None,
    }
}

fn flag(j: &Json, key: &str) -> (r: bool)
    ensures
        r == flag_field(j@, key@),
{
    match j.get_bool(key) {
        Some(b) => b,
        None => false,
    }
}

/// An unsigned field, 0 without one.
pub fn count(j: &Json, key: &str) -> (r: u64)
    ensures
        r == count_field(j@, key@),
{
    match j.get_u64(key) {
        Some(n) => n,
        None => 0,
    }
}

/// `key` and a signed field, `default` without one.
pub open spec fn number_setting(j: JsonV, key: Seq<char>, name: Seq<char>, default: int) -> Seq<char> {
    key + signed_decimal(
        match j.i64_field(name) {
            Some(n) => n as int,
            None => default,
        },
    )
}

/// `key` and a boolean field, false without one.
pub open spec fn flag_setting(j: JsonV, key: Seq<char>, name: Seq<char>) -> Seq<char> {
    key + (if flag_field(j, name) {
        "true"@
    } else {
        "false"@
    })
}

/// A text field that is not empty, or a default.
pub open spec fn text_or(j: JsonV, key: Seq<char>, default: Seq<char>) -> Seq<char> {
    match filled_field(j, key) {
        Some(t) => t,
        None => default,
    }
}

/// The deployment that the console's form asks for.
pub open spec fn form_opts(b: JsonV, dry_run: bool) -> DeployOptsV {
    DeployOptsV {
        release: text_or(b, "release"@, "aethel"@),
        namespace: text_or(b, "namespace"@, "aethel"@),
        values_files: Seq::empty(),
        sets: seq![
            number_setting(b, "safekeeper.replicas="@, "safekeeperReplicas"@, 1),
            flag_setting(b, "autoscaling.proxy.enabled="@, "autoscaling"@),
            number_setting(b, "autoscaling.proxy.minReplicas="@, "autoMin"@, 2),
            number_setting(b, "autoscaling.proxy.maxReplicas="@, "autoMax"@, 10),
            flag_setting(b, "podDisruptionBudget.safekeeper.enabled="@, "pdb"@),
            flag_setting(b, "podDisruptionBudget.proxy.enabled="@, "pdb"@),
            flag_setting(b, "topologySpread.enabled="@, "spread"@),
            flag_setting(b, "pooling.enabled="@, "pooling"@),
        ],
        object_store_url: filled_field(b, "objectStoreUrl"@),
        image_repo: filled_field(b, "imageRepo"@),
        image_tag: filled_field(b, "imageTag"@),
        expose: flag_field(b, "expose"@) || filled_field(b, "cloud"@) is Some,
        wait: flag_field(b, "wait"@),
        dry_run,
    }
}

fn number_set(j: &Json, key: &str, name: &str, default: i64) -> (r: String)
    ensures
        r@ == number_setting(j@, key@, name@, default as int),
{
    let n: i64 = match j.get_i64(name) {
        Some(n) => n,
        None => default,
    };
    let mut m = copy_str(key);
    push_signed(&mut m, n);
    m
}

fn flag_set(j: &Json, key: &str, name: &str) -> (r: String)
    ensures
        r@ == flag_setting(j@, key@, name@),
{
    let mut m = copy_str(key);
    if flag(j, name) {
        m.push_str("true");
    } else {
        m.push_str("false");
    }
    m
}

fn text_default(j: &Json, key: &str, default: &str) -> (r: String)
    ensures
        r@ == text_or(j@, key@, default@),
{
    match opt(j, key) {
        Some(t) => t,
        None => copy_str(default),
    }
}

/// Map the console's deploy form to deployment options: a cloud target exposes
/// the proxy.
pub fn deploy_opts(b: &Json, dry_run: bool) -> (r: DeployOpts)
    ensures
        r@ == form_opts(b@, dry_run),
{
    let mut sets: Vec<String> = Vec::new();
    sets.push(number_set(b, "safekeeper.replicas=", "safekeeperReplicas", 1));
    sets.push(flag_set(b, "autoscaling.proxy.enabled=", "autoscaling"));
    sets.push(number_set(b, "autoscaling.proxy.minReplicas=", "autoMin", 2));
    sets.push(number_set(b, "autoscaling.proxy.maxReplicas=", "autoMax", 10));
    sets.push(flag_set(b, "podDisruptionBudget.safekeeper.enabled=", "pdb"));
    sets.push(flag_set(b, "podDisruptionBudget.proxy.enabled=", "pdb"));
    sets.push(flag_set(b, "topologySpread.enabled=", "spread"));
    sets.push(flag_set(b, "pooling.enabled=", "pooling"));
    assert(texts(sets@) =~= form_opts(b@, dry_run).sets);
    let r = DeployOpts {
        release: text_default(b, "release", "aethel"),
        namespace: text_default(b, "namespace", "aethel"),
        values_files: Vec::new(),
        sets,
        object_store_url: opt(b, "objectStoreUrl"),
        image_repo: opt(b, "imageRepo"),
        image_tag: opt(b, "imageTag"),
        expose: flag(b, "expose") || opt(b, "cloud").is_some(),
        wait: flag(b, "wait"),
        dry_run,
    };
    assert(texts(r.values_files@) =~= Seq::empty());
    r
}

/// Whether a failed creation only says that the thing exists: provisioning is
/// idempotent.
pub open spec fn is_conflict(msg: Seq<char>) -> bool {
    contains_text(msg, "409"@) || contains_text(lower(msg), "exists"@)
}

/// Whether a failed creation only says that the thing exists.
pub fn ignore_conflict(msg: &str) -> (r: bool)
    ensures
        r == is_conflict(msg@),
{
    let c = chars_of(msg);
    let code = chars_of("409");
    if has_text(c.as_slice(), code.as_slice()) {
        return true;
    }
    let l = to_lower(c.as_slice());
    let word = chars_of("exists");
    has_text(l.as_slice(), word.as_slice())
}

// ---------------------------------------------------------------------------
// Compute states
// ---------------------------------------------------------------------------

/// A tenant's flag in the proxy's list.
pub open spec fn tenant_flag(t: JsonV, key: Seq<char>) -> Option<(Seq<char>, bool)> {
    match (t.text_field("tenant"@), t.bool_field(key)) {
        (Some(n), Some(b)) => Some((n, b)),
        _ => None,
    }
}

/// The tenants' flags in the proxy's list, in order.
pub open spec fn tenant_flags(v: Seq<JsonV>, key: Seq<char>) -> Seq<(Seq<char>, bool)>
    decreases v.len(),
{
    if v.len() == 0 {
        Seq::empty()
    } else {
        let rest = tenant_flags(v.drop_last(), key);
        match tenant_flag(v.last(), key) {
            Some(f) => rest.push(f),
            None => rest,
        }
    }
}

/// The tenants' flags in the proxy's answer.
pub open spec fn states_of(v: JsonV, key: Seq<char>) -> Seq<(Seq<char>, bool)> {
    match v.list_field("tenants"@) {
        Some(l) => tenant_flags(l, key),
        None => Seq::empty(),
    }
}

/// What a list of flags holds.
pub open spec fn flags_view(f: Seq<(String, bool)>) -> Seq<(Seq<char>, bool)> {
    Seq::new(f.len(), |i: int| (f[i].0@, f[i].1))
}

/// A tenant's flag: the last one given.
pub open spec fn state_of(f: Seq<(Seq<char>, bool)>, name: Seq<char>) -> Option<bool>
    decreases f.len(),
{
    if f.len() == 0 {
        None
    } else if f.last().0 == name {
        Some(f.last().1)
    } else {
        state_of(f.drop_last(), name)
    }
}

/// How many tenants' last flag is set, among those whose last flag is one of
/// the first `n`.
pub open spec fn set_count(f: Seq<(Seq<char>, bool)>, n: int) -> nat
    decreases n,
{
    if n <= 0 {
        0
    } else {
        set_count(f, n - 1) + (if f[n - 1].1 && is_last(f, n - 1) {
            1nat
        } else {
            0nat
        })
    }
}

/// No later flag is of the same tenant.
pub open spec fn is_last(f: Seq<(Seq<char>, bool)>, i: int) -> bool {
    forall|j: int| i < j < f.len() ==> (#[trigger] f[j]).0 != f[i].0
}

/// Read the tenants' flags of the name `key` (`running`, `keepWarm`) from the
/// proxy's answer.
pub fn compute_states(v: &Json, key: &str) -> (out: Vec<(String, bool)>)
    ensures
        flags_view(out@) == states_of(v@, key@),
{
    let mut out: Vec<(String, bool)> = Vec::new();
    assert(flags_view(out@) =~= Seq::empty());
    if let Some(l) = v.get_list("tenants") {
        let ghost lv = list_view(l@);
        let mut i: usize = 0;
        assert(lv.take(0) =~= Seq::empty());
        while i < l.len()
            invariant
                i <= l@.len(),
                lv == list_view(l@),
                flags_view(out@) == tenant_flags(lv.take(i as int), key@),
            decreases l@.len() - i,
        {
            let ghost before = flags_view(out@);
            proof {
                assert(lv.take(i + 1).drop_last() =~= lv.take(i as int));
                assert(lv.take(i + 1).last() == l@[i as int]@);
            }
            if let (Some(n), Some(b)) = (l[i].get_str("tenant"), l[i].get_bool(key)) {
                out.push((copy_str(n), b));
                assert(flags_view(out@) =~= before.push((n@, b)));
            }
            i += 1;
        }
        assert(lv.take(i as int) =~= lv);
    }
    out
}

/// A tenant's flag: the last one given.
pub fn lookup_state(f: &Vec<(String, bool)>, name: &str) -> (r: Option<bool>)
    ensures
        r == state_of(flags_view(f@), name@),
{
    let ghost fv = flags_view(f@);
    let mut n: usize = f.len();
    assert(fv.take(n as int) =~= fv);
    while n > 0
        invariant
            n <= f@.len(),
            fv == flags_view(f@),
            state_of(fv, name@) == state_of(fv.take(n as int), name@),
        decreases n,
    {
        assert(fv.take(n as int).last() == (f@[n - 1].0@, f@[n - 1].1));
        assert(fv.take(n as int).drop_last() =~= fv.take(n - 1));
        if same_text(f[n - 1].0.as_str(), name) {
            return Some(f[n - 1].1);
        }
        n -= 1;
    }
    None
}

/// How many tenants' last flag is set.
pub fn running_count(f: &Vec<(String, bool)>) -> (r: usize)
    ensures
        r == set_count(flags_view(f@), f@.len() as int),
{
    let ghost fv = flags_view(f@);
    let mut total: usize = 0;
    let mut i: usize = 0;
    while i < f.len()
        invariant
            i <= f@.len(),
            fv == flags_view(f@),
            total <= i,
            total == set_count(fv, i as int),
        decreases f@.len() - i,
    {
        let mut last = true;
        let mut j: usize = i + 1;
        while j < f.len()
            invariant
                i < j <= f@.len(),
                fv == flags_view(f@),
                last == (forall|k: int| i < k < j ==> (#[trigger] fv[k]).0 != fv[i as int].0),
            decreases f@.len() - j,
        {
            assert(fv[j as int].0 == f@[j as int].0@ && fv[i as int].0 == f@[i as int].0@);
            if same_text(f[j].0.as_str(), f[i].0.as_str()) {
                last = false;
            }
            j += 1;
        }
        if f[i].1 && last {
            total += 1;
        }
        i += 1;
    }
    total
}


// ---------------------------------------------------------------------------
// Answers
// ---------------------------------------------------------------------------

/// A restore point as a document.
pub open spec fn point_doc(p: RestorePointV) -> JsonV {
    JsonV::Object(
        seq![
            ("name"@, JsonV::Text(p.name)),
            ("timeline"@, JsonV::Text(p.timeline)),
            ("lsn"@, uint(p.lsn)),
        ],
    )
}

/// The name of the first restore point, from number `i` on, of a timeline.
pub open spec fn point_name(p: Seq<RestorePointV>, timeline: Seq<char>, i: int) -> Seq<char>
    decreases p.len() - i,
{
    if i < 0 || i >= p.len() {
        "restore"@
    } else if p[i].timeline == timeline {
        p[i].name
    } else {
        point_name(p, timeline, i + 1)
    }
}

/// What a database serves from, by name.
pub open spec fn serving(d: DatabaseV) -> Seq<char> {
    match d.current {
        None => "live"@,
        Some(t) => point_name(d.branches, t, 0),
    }
}

/// What a database's compute does, as far as the proxy knows.
pub open spec fn compute_name(state: Option<bool>) -> Seq<char> {
    match state {
        Some(true) => "running"@,
        Some(false) => "hibernated"@,
        None => "unmanaged"@,
    }
}

/// A database in the console's list.
pub open spec fn database_doc(
    d: DatabaseV,
    live: Seq<Seq<char>>,
    compute: Seq<(Seq<char>, bool)>,
    warm: Seq<(Seq<char>, bool)>,
    endpoint: Seq<char>,
) -> JsonV {
    JsonV::Object(
        seq![
            ("name"@, JsonV::Text(d.name)),
            ("id"@, JsonV::Text(d.id)),
            ("connection"@, JsonV::Text(connection_text(d.name, endpoint))),
            (
                "status"@,
                JsonV::Text(
                    if live.contains(d.id) {
                        "active"@
                    } else {
                        "pending"@
                    },
                ),
            ),
            ("compute"@, JsonV::Text(compute_name(state_of(compute, d.name)))),
            (
                "keepWarm"@,
                JsonV::Bool(state_of(warm, d.name) == Some(true)),
            ),
            ("current"@, JsonV::Text(serving(d))),
            (
                "branches"@,
                JsonV::List(Seq::new(d.branches.len(), |i: int| point_doc(d.branches[i]))),
            ),
        ],
    )
}

/// The console's list of databases.
pub open spec fn databases_doc(
    dbs: Seq<DatabaseV>,
    live: Seq<Seq<char>>,
    compute: Seq<(Seq<char>, bool)>,
    warm: Seq<(Seq<char>, bool)>,
    endpoint: Seq<char>,
    compute_control: bool,
) -> JsonV {
    JsonV::Object(
        seq![
            (
                "databases"@,
                JsonV::List(
                    Seq::new(
                        dbs.len(),
                        |i: int| database_doc(dbs[i], live, compute, warm, endpoint),
                    ),
                ),
            ),
            ("endpoint"@, JsonV::Text(endpoint)),
            ("computeControl"@, JsonV::Bool(compute_control)),
        ],
    )
}

fn point_json(p: &RestorePoint) -> (j: Json)
    ensures
        j@ == point_doc(p@),
{
    let mut f = Fields::new();
    f.put("name", json_text(p.name.as_str()));
    f.put("timeline", json_text(p.timeline.as_str()));
    f.put("lsn", json_uint(p.lsn));
    assert(f@ =~= seq![
        ("name"@, JsonV::Text(p@.name)),
        ("timeline"@, JsonV::Text(p@.timeline)),
        ("lsn"@, uint(p@.lsn)),
    ]);
    f.done()
}

fn serving_name(d: &Database) -> (r: String)
    ensures
        r@ == serving(d@),
{
    match &d.current {
        None => copy_str("live"),
        Some(t) => {
            let ghost pv = points_view(d.branches@);
            let mut i: usize = 0;
            while i < d.branches.len()
                invariant
                    i <= d.branches@.len(),
                    pv == points_view(d.branches@),
                    point_name(pv, t@, 0) == point_name(pv, t@, i as int),
                    serving(d@) == point_name(pv, t@, 0),
                decreases d.branches@.len() - i,
            {
                assert(pv[i as int] == d.branches@[i as int]@);
                if same_text(d.branches[i].timeline.as_str(), t.as_str()) {
                    return copy_str(d.branches[i].name.as_str());
                }
                i += 1;
            }
            copy_str("restore")
        },
    }
}

fn among(live: &Vec<String>, id: &str) -> (r: bool)
    ensures
        r == texts(live@).contains(id@),
{
    let mut i: usize = 0;
    while i < live.len()
        invariant
            i <= live@.len(),
            forall|k: int| 0 <= k < i ==> #[trigger] texts(live@)[k] != id@,
        decreases live@.len() - i,
    {
        assert(texts(live@)[i as int] == live@[i as int]@);
        if same_text(live[i].as_str(), id) {
            return true;
        }
        i += 1;
    }
    false
}

fn points_json(p: &Vec<RestorePoint>) -> (j: Json)
    ensures
        j@ == JsonV::List(
            Seq::new(points_view(p@).len(), |i: int| point_doc(points_view(p@)[i])),
        ),
{
    let mut out: Vec<Json> = Vec::new();
    let mut i: usize = 0;
    while i < p.len()
        invariant
            i <= p@.len(),
            out@.len() == i,
            forall|k: int| 0 <= k < i ==> (#[trigger] out@[k])@ == point_doc(p@[k]@),
        decreases p@.len() - i,
    {
        out.push(point_json(&p[i]));
        i += 1;
    }
    let j = Json::List(out);
    proof {
        lemma_json_view(j);
        assert(j@->List_0 =~= Seq::new(
            points_view(p@).len(),
            |i: int| point_doc(points_view(p@)[i]),
        ));
    }
    j
}

fn database_json(
    d: &Database,
    live: &Vec<String>,
    compute: &Vec<(String, bool)>,
    warm: &Vec<(String, bool)>,
    endpoint: &str,
) -> (j: Json)
    ensures
        j@ == database_doc(
            d@,
            texts(live@),
            flags_view(compute@),
            flags_view(warm@),
            endpoint@,
        ),
{
    let status = if among(live, d.id.as_str()) {
        "active"
    } else {
        "pending"
    };
    let running = match lookup_state(compute, d.name.as_str()) {
        Some(b) => if b {
            "running"
        } else {
            "hibernated"
        },
        None => "unmanaged",
    };
    let keep_warm = match lookup_state(warm, d.name.as_str()) {
        Some(b) => b,
        None => false,
    };
    let mut f = Fields::new();
    f.put("name", json_text(d.name.as_str()));
    f.put("id", json_text(d.id.as_str()));
    f.put(
        "connection",
        Json::Text(connection_string(d.name.as_str(), endpoint)),
    );
    f.put("status", json_text(status));
    f.put("compute", json_text(running));
    f.put("keepWarm", Json::Bool(keep_warm));
    f.put("current", Json::Text(serving_name(d)));
    f.put("branches", points_json(&d.branches));
    let ghost doc = database_doc(
        d@,
        texts(live@),
        flags_view(compute@),
        flags_view(warm@),
        endpoint@,
    );
    assert(f@ =~= doc->Object_0);
    f.done()
}

/// List the databases: each with its provisioning status, from the tenants that
/// are `live` on the control plane, and its compute state, from the proxy.
pub fn list_databases(
    dbs: &Vec<Database>,
    live: &Vec<String>,
    compute: &Vec<(String, bool)>,
    warm: &Vec<(String, bool)>,
    cfg: &ServeCfg,
) -> (j: Json)
    ensures
        j@ == databases_doc(
            databases_view(dbs@),
            texts(live@),
            flags_view(compute@),
            flags_view(warm@),
            cfg.client_endpoint@,
            cfg.proxy_url is Some,
        ),
{
    let mut out: Vec<Json> = Vec::new();
    let mut i: usize = 0;
    while i < dbs.len()
        invariant
            i <= dbs@.len(),
            out@.len() == i,
            forall|k: int|
                0 <= k < i ==> (#[trigger] out@[k])@ == database_doc(
                    dbs@[k]@,
                    texts(live@),
                    flags_view(compute@),
                    flags_view(warm@),
                    cfg.client_endpoint@,
                ),
        decreases dbs@.len() - i,
    {
        out.push(database_json(&dbs[i], live, compute, warm, cfg.client_endpoint.as_str()));
        i += 1;
    }
    let list = Json::List(out);
    let ghost doc = databases_doc(
        databases_view(dbs@),
        texts(live@),
        flags_view(compute@),
        flags_view(warm@),
        cfg.client_endpoint@,
        cfg.proxy_url is Some,
    );
    proof {
        lemma_json_view(list);
        assert(list@->List_0 =~= doc->Object_0[0].1->List_0);
    }
    let mut f = Fields::new();
    f.put("databases", list);
    f.put("endpoint", json_text(cfg.client_endpoint.as_str()));
    f.put("computeControl", Json::Bool(cfg.proxy_url.is_some()));
    assert(f@ =~= doc->Object_0);
    f.done()
}

/// A string, `null` without one.
pub open spec fn text_or_null(t: Option<Seq<char>>) -> JsonV {
    match t {
        Some(t) => JsonV::Text(t),
        None => JsonV::Null,
    }
}

fn json_optional(t: &Option<String>) -> (j: Json)
    ensures
        j@ == text_or_null(opt_text(*t)),
{
    match t {
        Some(t) => json_text(t.as_str()),
        None => Json::Null,
    }
}

/// The console's overview: of the configuration, `databases` registered
/// databases and `running` computes.
pub fn status(cfg: &ServeCfg, databases: usize, running: usize) -> (j: Json)
    ensures
        j@ == JsonV::Object(
            seq![
                ("server"@, JsonV::Text(cfg.control_url@)),
                ("databases"@, uint(databases as u64)),
                ("running"@, uint(running as u64)),
                ("computeControl"@, JsonV::Bool(cfg.proxy_url is Some)),
                ("metrics"@, JsonV::Bool(cfg.prometheus_url is Some)),
                ("allowApply"@, JsonV::Bool(cfg.allow_apply)),
                ("grafanaUrl"@, text_or_null(opt_text(cfg.grafana_url))),
                ("clientEndpoint"@, JsonV::Text(cfg.client_endpoint@)),
            ],
        ),
{
    let mut f = Fields::new();
    f.put("server", json_text(cfg.control_url.as_str()));
    f.put("databases", json_uint(databases as u64));
    f.put("running", json_uint(running as u64));
    f.put("computeControl", Json::Bool(cfg.proxy_url.is_some()));
    f.put("metrics", Json::Bool(cfg.prometheus_url.is_some()));
    f.put("allowApply", Json::Bool(cfg.allow_apply));
    f.put("grafanaUrl", json_optional(&cfg.grafana_url));
    f.put("clientEndpoint", json_text(cfg.client_endpoint.as_str()));
    assert(f@ =~= seq![
        ("server"@, JsonV::Text(cfg.control_url@)),
        ("databases"@, uint(databases as u64)),
        ("running"@, uint(running as u64)),
        ("computeControl"@, JsonV::Bool(cfg.proxy_url is Some)),
        ("metrics"@, JsonV::Bool(cfg.prometheus_url is Some)),
        ("allowApply"@, JsonV::Bool(cfg.allow_apply)),
        ("grafanaUrl"@, text_or_null(opt_text(cfg.grafana_url))),
        ("clientEndpoint"@, JsonV::Text(cfg.client_endpoint@)),
    ]);
    f.done()
}

/// The answer to a database's creation.
pub fn created_database(d: &Database, endpoint: &str) -> (j: Json)
    ensures
        j@ == JsonV::Object(
            seq![
                ("name"@, JsonV::Text(d@.name)),
                ("id"@, JsonV::Text(d@.id)),
                ("connection"@, JsonV::Text(connection_text(d@.name, endpoint@))),
                ("status"@, JsonV::Text("active"@)),
            ],
        ),
{
    let mut f = Fields::new();
    f.put("name", json_text(d.name.as_str()));
    f.put("id", json_text(d.id.as_str()));
    f.put("connection", Json::Text(connection_string(d.name.as_str(), endpoint)));
    f.put("status", json_text("active"));
    assert(f@ =~= seq![
        ("name"@, JsonV::Text(d@.name)),
        ("id"@, JsonV::Text(d@.id)),
        ("connection"@, JsonV::Text(connection_text(d@.name, endpoint@))),
        ("status"@, JsonV::Text("active"@)),
    ]);
    f.done()
}

/// A restore point that is asked for: its name, its timeline, its position.
pub open spec fn asked_point(database: Seq<char>, body: JsonV) -> RestorePointV {
    let branch = text_or(body, "branch"@, "restore"@);
    RestorePointV {
        name: branch,
        timeline: name_id(database + "/"@ + branch),
        lsn: count_field(body, "lsn"@),
    }
}

/// The restore point that a body asks for: its timeline's id is that of the
/// database's name and its own.
pub fn branch_database(database: &str, body: &Json) -> (p: RestorePoint)
    ensures
        p@ == asked_point(database@, body@),
{
    let branch = text_default(body, "branch", "restore");
    let mut full = copy_str(database);
    full.push_str("/");
    full.push_str(branch.as_str());
    let timeline = id_from_name(full.as_str());
    RestorePoint { name: branch, timeline, lsn: count(body, "lsn") }
}

/// The answer to a restore point's creation.
pub fn branched_database(database: &str, p: &RestorePoint) -> (j: Json)
    ensures
        j@ == JsonV::Object(
            seq![
                ("database"@, JsonV::Text(database@)),
                ("branch"@, JsonV::Text(p@.name)),
                ("timeline"@, JsonV::Text(p@.timeline)),
                ("lsn"@, uint(p@.lsn)),
            ],
        ),
{
    let mut f = Fields::new();
    f.put("database", json_text(database));
    f.put("branch", json_text(p.name.as_str()));
    f.put("timeline", json_text(p.timeline.as_str()));
    f.put("lsn", json_uint(p.lsn));
    assert(f@ =~= seq![
        ("database"@, JsonV::Text(database@)),
        ("branch"@, JsonV::Text(p@.name)),
        ("timeline"@, JsonV::Text(p@.timeline)),
        ("lsn"@, uint(p@.lsn)),
    ]);
    f.done()
}

/// The timeline that a restore asks for; nothing for the live root.
pub open spec fn asked_timeline(body: JsonV) -> Option<Seq<char>> {
    match filled_field(body, "timeline"@) {
        Some(t) => if t == "live"@ {
            None
        } else {
            Some(t)
        },
        None => None,
    }
}

/// The timeline that a restore asks for; nothing for the live root.
pub fn restore_database(body: &Json) -> (r: Option<String>)
    ensures
        opt_text(r) == asked_timeline(body@),
{
    match opt(body, "timeline") {
        Some(t) => if same_text(t.as_str(), "live") {
            None
        } else {
            Some(t)
        },
        None => None,
    }
}

/// The answer to a restore.
pub fn restored_database(database: &str, timeline: &Option<String>) -> (j: Json)
    ensures
        j@ == JsonV::Object(
            seq![
                ("database"@, JsonV::Text(database@)),
                ("current"@, text_or_null(opt_text(*timeline))),
            ],
        ),
{
    let mut f = Fields::new();
    f.put("database", json_text(database));
    f.put("current", json_optional(timeline));
    assert(f@ =~= seq![
        ("database"@, JsonV::Text(database@)),
        ("current"@, text_or_null(opt_text(*timeline))),
    ]);
    f.done()
}

/// An object with the database's name and one flag.
pub fn flagged_database(name: &str, key: &str, on: bool) -> (j: Json)
    ensures
        j@ == JsonV::Object(seq![("name"@, JsonV::Text(name@)), (key@, JsonV::Bool(on))]),
{
    let mut f = Fields::new();
    f.put("name", json_text(name));
    f.put(key, Json::Bool(on));
    assert(f@ =~= seq![("name"@, JsonV::Text(name@)), (key@, JsonV::Bool(on))]);
    f.done()
}

/// An object of one text.
pub fn text_object(key: &str, value: &str) -> (j: Json)
    ensures
        j@ == JsonV::Object(seq![(key@, JsonV::Text(value@))]),
{
    let mut f = Fields::new();
    f.put(key, json_text(value));
    assert(f@ =~= seq![(key@, JsonV::Text(value@))]);
    f.done()
}

/// A reply: its status and its document. A failure is answered 400 with its
/// message.
pub fn api(r: Result<Json, String>) -> (out: (u16, Json))
    ensures
        match r {
            Ok(j) => out.0 == 200 && out.1@ == j@,
            Err(m) => out.0 == 400 && out.1@ == JsonV::Object(seq![("error"@, JsonV::Text(m@))]),
        },
{
    match r {
        Ok(j) => (200, j),
        Err(m) => (400, text_object("error", m.as_str())),
    }
}

/// The base of the proxy's URLs and a path below it.
pub fn proxy_url(base: &str, path: &str) -> (r: String)
    ensures
        r@ == trim_end_char(base@, '/') + path@,
{
    let mut m = without_trailing(base, '/');
    m.push_str(path);
    m
}

/// The proxy's path of a tenant, with an action behind it.
pub fn tenant_path(name: &str, action: &str) -> (r: String)
    ensures
        r@ == "/tenants/"@ + name@ + action@,
{
    let mut m = copy_str("/tenants/");
    m.push_str(name);
    m.push_str(action);
    m
}

/// The proxy's path that pins a tenant's compute to a timeline, or unpins it.
pub fn pin_path(name: &str, timeline: Option<&str>) -> (r: String)
    ensures
        r@ == (match optional_text(timeline) {
            Some(t) => "/tenants/"@ + name@ + "/pin/"@ + t,
            None => "/tenants/"@ + name@ + "/unpin"@,
        }),
{
    let mut m = copy_str("/tenants/");
    m.push_str(name);
    match timeline {
        Some(t) => {
            m.push_str("/pin/");
            m.push_str(t);
        },
        None => {
            m.push_str("/unpin");
        },
    }
    m
}

/// The Prometheus expression of a database's metric: itself, or its rate.
pub fn metric_expr(metric: &str, database: &str, rate: bool) -> (r: String)
    ensures
        r@ == (if rate {
            "rate(aethel_proxy_database_"@ + metric@ + "{database=\""@ + database@ + "\"}[5m])"@
        } else {
            "aethel_proxy_database_"@ + metric@ + "{database=\""@ + database@ + "\"}"@
        }),
{
    let mut m = if rate {
        copy_str("rate(aethel_proxy_database_")
    } else {
        copy_str("aethel_proxy_database_")
    };
    m.push_str(metric);
    m.push_str("{database=\"");
    m.push_str(database);
    if rate {
        m.push_str("\"}[5m])");
    } else {
        m.push_str("\"}");
    }
    m
}

} // verus!
