//! What the operator's side gives back, in terms of what it is given: the registry of
//! databases, the console's routes and documents, and the arguments of a deployment.

use vstd::prelude::*;

use crate::aethelctl::client::{
    id_doc, only_texts, request_to, texts_of_field, timelines_path_text, with_tenant_field, ClientV,
};
use crate::aethelctl::databases::{
    forgotten, lemma_named, name_id, named, upserted, with_current, with_point, DatabaseV,
    RestorePointV,
};
use crate::aethelctl::deploy::{all_sets, flagged, helm_arg_list, optional_arg, DeployOptsV};
use crate::aethelctl::serve::{
    asked_point, asked_timeline, console_route, database_doc, databases_doc, form_opts, is_conflict,
    is_last, param_from, param_of, point_name, set_count, state_of, states_of, tenant_flags,
    ConsoleRouteV,
};
use crate::json::{lemma_field_at, other_names_have_no_field, JsonV};
use crate::pageserver::commands::lemma_one_piece;
use crate::pageserver::httpapi::{may_serve, target_parts, targets_are_path_and_query};
use crate::text::{
    decimal, is_space, lemma_position_at, lower, lower_char, only_white_space_is_trimmed, split_on,
    signed_decimal, strip_prefix, strip_suffix, texts_are_found_nowhere_else,
    texts_are_found_where_they_stand, trim,
};

verus! {

// ---------------------------------------------------------------------------
// The registry
// ---------------------------------------------------------------------------

/// A recorded name has an entry of that name, white space around it aside, in the registry;
/// the entries that were there stay, and one more comes only where there was none of the
/// name: with the name's id, without restore points, serving the live root. An empty name is
/// not recorded.
pub proof fn recorded_names_have_an_entry(dbs: Seq<DatabaseV>, name: Seq<char>)
    ensures
        match upserted(dbs, name) {
            Some((now, entry)) => {
                let t = trim(name);
                let known = exists|i: int| 0 <= i < dbs.len() && (#[trigger] dbs[i]).name == t;
                &&& t.len() > 0
                &&& entry.name == t
                &&& exists|i: int| 0 <= i < now.len() && #[trigger] now[i] == entry
                &&& forall|i: int| 0 <= i < dbs.len() ==> now[i] == #[trigger] dbs[i]
                &&& known ==> now == dbs
                &&& !known ==> now.len() == dbs.len() + 1 && entry.id == name_id(t)
                    && entry.branches.len() == 0 && entry.current is None
            },
            None => trim(name).len() == 0,
        },
{
    let t = trim(name);
    lemma_named(dbs, t, 0);
    if let Some((now, entry)) = upserted(dbs, name) {
        if named(dbs, t) >= 0 {
            assert(now[named(dbs, t)] == entry);
        } else {
            assert(now[dbs.len() as int] == entry);
        }
    }
}

/// Forgetting a name takes its first entry out and gives it back; the others stay in their
/// order. A name that is not there changes nothing.
pub proof fn forgotten_names_are_taken_out(dbs: Seq<DatabaseV>, name: Seq<char>)
    ensures
        match forgotten(dbs, name) {
            (now, Some(entry)) => exists|n: int|
                0 <= n < dbs.len() && #[trigger] dbs[n] == entry && entry.name == name
                    && now.len() == dbs.len() - 1 && (forall|i: int|
                    0 <= i < n ==> (#[trigger] dbs[i]).name != name && now[i] == dbs[i]) && (forall|
                    i: int,
                |
                    n <= i < now.len() ==> #[trigger] now[i] == dbs[i + 1]),
            (now, None) => now == dbs && forall|i: int|
                0 <= i < dbs.len() ==> (#[trigger] dbs[i]).name != name,
        },
{
    lemma_named(dbs, name, 0);
    let n = named(dbs, name);
    if n >= 0 {
        assert(dbs[n] == forgotten(dbs, name).1->0);
    }
}

/// A recorded restore point stands behind the others of the first database of the name,
/// where none of them has its name; nothing else changes.
pub proof fn recorded_points_are_kept(
    dbs: Seq<DatabaseV>,
    db: Seq<char>,
    p: RestorePointV,
    n: int,
)
    requires
        0 <= n < dbs.len(),
        dbs[n].name == db,
        forall|i: int| 0 <= i < n ==> (#[trigger] dbs[i]).name != db,
    ensures
        ({
            let now = with_point(dbs, db, p);
            let known = exists|i: int|
                0 <= i < dbs[n].branches.len() && (#[trigger] dbs[n].branches[i]).name == p.name;
            &&& now.len() == dbs.len()
            &&& forall|i: int| 0 <= i < dbs.len() && i != n ==> now[i] == #[trigger] dbs[i]
            &&& now[n].name == dbs[n].name && now[n].id == dbs[n].id && now[n].current
                == dbs[n].current
            &&& known ==> now[n].branches == dbs[n].branches
            &&& !known ==> now[n].branches == dbs[n].branches.push(p)
        }),
{
    lemma_named_at(dbs, db, n);
}

/// Setting what a database serves from sets just that.
pub proof fn set_timelines_are_kept(
    dbs: Seq<DatabaseV>,
    db: Seq<char>,
    timeline: Option<Seq<char>>,
    n: int,
)
    requires
        0 <= n < dbs.len(),
        dbs[n].name == db,
        forall|i: int| 0 <= i < n ==> (#[trigger] dbs[i]).name != db,
    ensures
        ({
            let now = with_current(dbs, db, timeline);
            &&& now.len() == dbs.len()
            &&& forall|i: int| 0 <= i < dbs.len() && i != n ==> now[i] == #[trigger] dbs[i]
            &&& now[n].current == timeline
            &&& now[n].name == dbs[n].name && now[n].id == dbs[n].id && now[n].branches
                == dbs[n].branches
        }),
{
    lemma_named_at(dbs, db, n);
}

proof fn lemma_named_at(dbs: Seq<DatabaseV>, db: Seq<char>, n: int)
    requires
        0 <= n < dbs.len(),
        dbs[n].name == db,
        forall|i: int| 0 <= i < n ==> (#[trigger] dbs[i]).name != db,
    ensures
        named(dbs, db) == n,
{
    lemma_named(dbs, db, 0);
    let k = named(dbs, db);
    if k < 0 || n < k {
        assert(dbs[n].name != db);
    } else if k < n {
        assert(dbs[k].name != db);
    }
}

/// White space around a name does not change its id.
pub proof fn ids_are_of_the_bare_name(a: Seq<char>, t: Seq<char>, b: Seq<char>)
    requires
        forall|i: int| 0 <= i < a.len() ==> is_space(#[trigger] a[i]),
        forall|i: int| 0 <= i < b.len() ==> is_space(#[trigger] b[i]),
        t.len() > 0,
        !is_space(t[0]),
        !is_space(t.last()),
    ensures
        name_id(a + t + b) == name_id(t),
{
    only_white_space_is_trimmed(a, t, b);
    only_white_space_is_trimmed(Seq::empty(), t, Seq::empty());
    assert(Seq::<char>::empty() + t + Seq::<char>::empty() =~= t);
}

// ---------------------------------------------------------------------------
// Routes
// ---------------------------------------------------------------------------

proof fn lemma_stripped(prefix: Seq<char>, name: Seq<char>, suffix: Seq<char>)
    ensures
        strip_prefix(prefix + name + suffix, prefix) == Some(name + suffix),
        strip_suffix(name + suffix, suffix) == Some(name),
{
    let s = prefix + name + suffix;
    assert(s.take(prefix.len() as int) =~= prefix);
    assert(s.skip(prefix.len() as int) =~= name + suffix);
    let t = name + suffix;
    assert(t.skip(t.len() - suffix.len()) =~= suffix);
    assert(t.take(t.len() - suffix.len()) =~= name);
}

/// A text that ends with one suffix does not end with another that differs from it in a
/// character counted from the end.
proof fn lemma_other_suffix(s: Seq<char>, a: Seq<char>, b: Seq<char>, k: int)
    requires
        strip_suffix(s, a) is Some,
        1 <= k <= a.len(),
        k <= b.len(),
        a[a.len() - k] != b[b.len() - k],
    ensures
        strip_suffix(s, b) is None,
{
    if strip_suffix(s, b) is Some {
        assert(s.skip(s.len() - a.len())[a.len() - k] == s[s.len() - k]);
        assert(s.skip(s.len() - b.len())[b.len() - k] == s[s.len() - k]);
    }
}

/// A `POST` to a database's path with an action behind the name asks for that action on the
/// database of that name; a `GET` of its metrics asks for those.
pub proof fn database_paths_name_the_database(name: Seq<char>)
    ensures
        ({
            let p = "/api/databases/"@ + name;
            &&& console_route("POST"@, p + "/start"@) == ConsoleRouteV::StartDatabase(name)
            &&& console_route("POST"@, p + "/stop"@) == ConsoleRouteV::StopDatabase(name)
            &&& console_route("POST"@, p + "/branch"@) == ConsoleRouteV::BranchDatabase(name)
            &&& console_route("POST"@, p + "/restore"@) == ConsoleRouteV::RestoreDatabase(name)
            &&& console_route("POST"@, p + "/keepwarm"@) == ConsoleRouteV::KeepWarm(name, true)
            &&& console_route("POST"@, p + "/nokeepwarm"@) == ConsoleRouteV::KeepWarm(name, false)
            &&& console_route("GET"@, p + "/metrics"@) == ConsoleRouteV::DatabaseMetrics(name)
        }),
{
    let d = "/api/databases/"@;
    reveal_strlit("/start");
    reveal_strlit("/stop");
    reveal_strlit("/branch");
    reveal_strlit("/restore");
    reveal_strlit("/keepwarm");
    reveal_strlit("/nokeepwarm");
    reveal_strlit("/metrics");
    reveal_strlit("GET");
    reveal_strlit("POST");
    assert("GET"@.len() != "POST"@.len());
    lemma_stripped(d, name, "/start"@);
    lemma_stripped(d, name, "/stop"@);
    lemma_stripped(d, name, "/branch"@);
    lemma_stripped(d, name, "/restore"@);
    lemma_stripped(d, name, "/keepwarm"@);
    lemma_stripped(d, name, "/nokeepwarm"@);
    lemma_stripped(d, name, "/metrics"@);
    lemma_other_suffix(name + "/stop"@, "/stop"@, "/start"@, 1);
    lemma_other_suffix(name + "/branch"@, "/branch"@, "/start"@, 1);
    lemma_other_suffix(name + "/branch"@, "/branch"@, "/stop"@, 1);
    lemma_other_suffix(name + "/restore"@, "/restore"@, "/start"@, 1);
    lemma_other_suffix(name + "/restore"@, "/restore"@, "/stop"@, 1);
    lemma_other_suffix(name + "/restore"@, "/restore"@, "/branch"@, 1);
    lemma_other_suffix(name + "/keepwarm"@, "/keepwarm"@, "/start"@, 1);
    lemma_other_suffix(name + "/keepwarm"@, "/keepwarm"@, "/stop"@, 1);
    lemma_other_suffix(name + "/keepwarm"@, "/keepwarm"@, "/branch"@, 1);
    lemma_other_suffix(name + "/keepwarm"@, "/keepwarm"@, "/restore"@, 1);
    lemma_other_suffix(name + "/nokeepwarm"@, "/nokeepwarm"@, "/start"@, 1);
    lemma_other_suffix(name + "/nokeepwarm"@, "/nokeepwarm"@, "/stop"@, 1);
    lemma_other_suffix(name + "/nokeepwarm"@, "/nokeepwarm"@, "/branch"@, 1);
    lemma_other_suffix(name + "/nokeepwarm"@, "/nokeepwarm"@, "/restore"@, 1);
    lemma_other_suffix(name + "/nokeepwarm"@, "/nokeepwarm"@, "/keepwarm"@, 9);
}

/// A `DELETE` of a database's path asks to delete the database of that name, where the name
/// has no slash in it.
pub proof fn deletions_name_the_database(name: Seq<char>)
    requires
        forall|i: int| 0 <= i < name.len() ==> name[i] != '/',
    ensures
        console_route("DELETE"@, "/api/databases/"@ + name) == ConsoleRouteV::DeleteDatabase(name),
{
    let d = "/api/databases/"@;
    reveal_strlit("GET");
    reveal_strlit("POST");
    reveal_strlit("DELETE");
    assert("DELETE"@.len() == 6 && "GET"@.len() == 3 && "POST"@.len() == 4);
    let s = d + name;
    assert(s.take(d.len() as int) =~= d);
    assert(s.skip(d.len() as int) =~= name);
    lemma_position_at(name, '/', name.len() as int);
}

/// A parameter of a query is what stands behind its name and an equals sign.
pub proof fn parameters_are_what_stands_behind_their_names(
    path: Seq<char>,
    key: Seq<char>,
    value: Seq<char>,
)
    requires
        forall|i: int| 0 <= i < path.len() ==> path[i] != '?',
        forall|i: int| 0 <= i < key.len() ==> key[i] != '=' && key[i] != '&',
        forall|i: int| 0 <= i < value.len() ==> value[i] != '&',
    ensures
        param_of(path + seq!['?'] + key + seq!['='] + value, key) == Some(value),
{
    let q = key + seq!['='] + value;
    let url = path + seq!['?'] + key + seq!['='] + value;
    assert(url =~= path + seq!['?'] + q);
    lemma_position_at(url, '?', path.len() as int);
    assert(url.skip(path.len() as int + 1) =~= q);
    assert forall|i: int| 0 <= i < q.len() implies q[i] != '&' by {}
    lemma_one_piece(q, '&');
    lemma_position_at(q, '=', key.len() as int);
    assert(q.take(key.len() as int) =~= key);
    assert(q.skip(key.len() as int + 1) =~= value);
    let p = split_on(q, '&');
    assert(p[0] == q);
    assert(param_from(p, key, 0) == Some(value));
}

// ---------------------------------------------------------------------------
// Compute states
// ---------------------------------------------------------------------------

/// The last flag of a tenant counts, and a tenant without one has none.
pub proof fn the_last_flag_counts(f: Seq<(Seq<char>, bool)>, name: Seq<char>)
    ensures
        match state_of(f, name) {
            Some(b) => exists|i: int|
                0 <= i < f.len() && #[trigger] f[i] == (name, b) && (forall|j: int|
                    i < j < f.len() ==> (#[trigger] f[j]).0 != name),
            None => forall|i: int| 0 <= i < f.len() ==> (#[trigger] f[i]).0 != name,
        },
    decreases f.len(),
{
    if f.len() > 0 {
        let front = f.drop_last();
        let n = f.len() - 1;
        if f.last().0 == name {
            assert(f[n] == (name, f.last().1));
        } else {
            the_last_flag_counts(front, name);
            match state_of(front, name) {
                Some(b) => {
                    let i = choose|i: int|
                        0 <= i < front.len() && #[trigger] front[i] == (name, b) && (forall|j: int|
                            i < j < front.len() ==> (#[trigger] front[j]).0 != name);
                    assert(f[i] == (name, b));
                    assert forall|j: int| i < j < f.len() implies (#[trigger] f[j]).0 != name by {
                        if j < n {
                            assert(front[j] == f[j]);
                        }
                    }
                },
                None => {
                    assert forall|i: int| 0 <= i < f.len() implies (#[trigger] f[i]).0 != name by {
                        if i < n {
                            assert(front[i] == f[i]);
                        }
                    }
                },
            }
        }
    }
}

/// The tenants among the first `n` flags whose last flag is one of them and is set.
spec fn running_among(f: Seq<(Seq<char>, bool)>, n: int) -> Set<Seq<char>>
    decreases n,
{
    if n <= 0 {
        Set::empty()
    } else if f[n - 1].1 && is_last(f, n - 1) {
        running_among(f, n - 1).insert(f[n - 1].0)
    } else {
        running_among(f, n - 1)
    }
}

proof fn lemma_running(f: Seq<(Seq<char>, bool)>, n: int)
    requires
        0 <= n <= f.len(),
    ensures
        running_among(f, n).finite(),
        running_among(f, n).len() == set_count(f, n),
        forall|x: Seq<char>| #[trigger]
            running_among(f, n).contains(x) <==> exists|i: int|
                0 <= i < n && (#[trigger] f[i]).0 == x && f[i].1 && is_last(f, i),
    decreases n,
{
    if n > 0 {
        lemma_running(f, n - 1);
        let x = f[n - 1].0;
        if f[n - 1].1 && is_last(f, n - 1) {
            if running_among(f, n - 1).contains(x) {
                let i = choose|i: int|
                    0 <= i < n - 1 && (#[trigger] f[i]).0 == x && f[i].1 && is_last(f, i);
                assert(f[n - 1].0 != f[i].0);
            }
        }
        assert forall|y: Seq<char>| #[trigger] running_among(f, n).contains(y) <==> exists|i: int|
            0 <= i < n && (#[trigger] f[i]).0 == y && f[i].1 && is_last(f, i) by {
            if running_among(f, n).contains(y) {
                if running_among(f, n - 1).contains(y) {
                    let i = choose|i: int|
                        0 <= i < n - 1 && (#[trigger] f[i]).0 == y && f[i].1 && is_last(f, i);
                    assert(f[i].0 == y);
                } else {
                    assert(f[n - 1].0 == y);
                }
            }
            if exists|i: int| 0 <= i < n && (#[trigger] f[i]).0 == y && f[i].1 && is_last(f, i) {
                let i = choose|i: int|
                    0 <= i < n && (#[trigger] f[i]).0 == y && f[i].1 && is_last(f, i);
                if i < n - 1 {
                    assert(running_among(f, n - 1).contains(y));
                }
            }
        }
    }
}

/// As many computes are counted as there are tenants whose last flag is set.
pub proof fn running_computes_are_counted_once(f: Seq<(Seq<char>, bool)>)
    ensures
        Set::new(|x: Seq<char>| state_of(f, x) == Some(true)).finite(),
        set_count(f, f.len() as int) == Set::new(
            |x: Seq<char>| state_of(f, x) == Some(true),
        ).len(),
{
    let n = f.len() as int;
    let want = Set::new(|x: Seq<char>| state_of(f, x) == Some(true));
    lemma_running(f, n);
    assert forall|x: Seq<char>| #[trigger] running_among(f, n).contains(x) <==> want.contains(x) by {
        the_last_flag_counts(f, x);
        if running_among(f, n).contains(x) {
            let i = choose|i: int| 0 <= i < n && (#[trigger] f[i]).0 == x && f[i].1 && is_last(f, i);
            match state_of(f, x) {
                Some(b) => {
                    let k = choose|k: int|
                        0 <= k < f.len() && #[trigger] f[k] == (x, b) && (forall|j: int|
                            k < j < f.len() ==> (#[trigger] f[j]).0 != x);
                    if i < k {
                        assert(f[k].0 != f[i].0);
                    } else if k < i {
                        assert(f[i].0 != x);
                    }
                },
                None => {
                    assert(f[i].0 != x);
                },
            }
        }
        if want.contains(x) {
            let k = choose|k: int|
                0 <= k < f.len() && #[trigger] f[k] == (x, true) && (forall|j: int|
                    k < j < f.len() ==> (#[trigger] f[j]).0 != x);
            assert(is_last(f, k));
            assert(f[k].0 == x && f[k].1);
        }
    }
    assert(running_among(f, n) =~= want);
}

// ---------------------------------------------------------------------------
// Documents
// ---------------------------------------------------------------------------

/// A database in the console's list shows its name, id and connection string; `active`
/// exactly where its tenant is live; what its compute does by its last flag; whether it is
/// kept warm; and the name of what it serves from, which is `live` without a timeline.
pub proof fn listed_databases_are_shown_as_they_are(
    d: DatabaseV,
    live: Seq<Seq<char>>,
    compute: Seq<(Seq<char>, bool)>,
    warm: Seq<(Seq<char>, bool)>,
    endpoint: Seq<char>,
)
    ensures
        ({
            let j = database_doc(d, live, compute, warm, endpoint);
            &&& j.text_field("name"@) == Some(d.name)
            &&& j.text_field("id"@) == Some(d.id)
            &&& j.text_field("connection"@) == Some(
                "postgresql://postgres@"@ + endpoint + "/"@ + d.name,
            )
            &&& j.text_field("status"@) == Some(
                if exists|i: int| 0 <= i < live.len() && #[trigger] live[i] == d.id {
                    "active"@
                } else {
                    "pending"@
                },
            )
            &&& j.text_field("compute"@) == Some(
                match state_of(compute, d.name) {
                    Some(b) => if b {
                        "running"@
                    } else {
                        "hibernated"@
                    },
                    None => "unmanaged"@,
                },
            )
            &&& j.bool_field("keepWarm"@) == Some(state_of(warm, d.name) == Some(true))
            &&& d.current is None ==> j.text_field("current"@) == Some("live"@)
            &&& j.list_field("branches"@) matches Some(l) && l.len() == d.branches.len()
        }),
{
    let f = database_doc(d, live, compute, warm, endpoint)->Object_0;
    reveal_strlit("name");
    reveal_strlit("id");
    reveal_strlit("connection");
    reveal_strlit("status");
    reveal_strlit("compute");
    reveal_strlit("keepWarm");
    reveal_strlit("current");
    reveal_strlit("branches");
    assert("name"@.len() == 4 && "id"@.len() == 2 && "connection"@.len() == 10);
    assert("status"@.len() == 6 && "compute"@.len() == 7 && "keepWarm"@.len() == 8);
    assert("current"@.len() == 7 && "branches"@.len() == 8);
    assert("compute"@[1] == 'o' && "current"@[1] == 'u');
    assert("keepWarm"@[0] == 'k' && "branches"@[0] == 'b');
    lemma_field_at(f, 0);
    lemma_field_at(f, 1);
    lemma_field_at(f, 2);
    lemma_field_at(f, 3);
    lemma_field_at(f, 4);
    lemma_field_at(f, 5);
    lemma_field_at(f, 6);
    lemma_field_at(f, 7);
}

/// The restore point that a body asks for: of the name that it gives, or `restore`; at the
/// position that it gives, or 0; on the timeline whose id is that of both names.
pub proof fn asked_points_are_what_the_body_says(
    database: Seq<char>,
    body: JsonV,
    branch: Seq<char>,
    lsn: u64,
)
    ensures
        body.text_field("branch"@) == Some(branch) && branch.len() > 0 && body.u64_field("lsn"@)
            == Some(lsn) ==> asked_point(database, body) == (RestorePointV {
            name: branch,
            timeline: name_id(database + "/"@ + branch),
            lsn,
        }),
        body.text_field("branch"@) is None && body.u64_field("lsn"@) is None ==> asked_point(
            database,
            body,
        ) == (RestorePointV {
            name: "restore"@,
            timeline: name_id(database + "/"@ + "restore"@),
            lsn: 0,
        }),
        body.text_field("timeline"@) == Some(branch) && branch.len() > 0 && branch != "live"@
            ==> asked_timeline(body) == Some(branch),
        body.text_field("timeline"@) == Some("live"@) || body.text_field("timeline"@) is None
            ==> asked_timeline(body) is None,
{
}

/// The console's deploy form is taken at its word: a field that is filled in is used, and
/// one that is not has its default. A cloud target exposes the proxy.
pub proof fn deploy_forms_are_taken_at_their_word(
    b: JsonV,
    dry_run: bool,
    release: Seq<char>,
    namespace: Seq<char>,
)
    ensures
        ({
            let o = form_opts(b, dry_run);
            &&& b.text_field("release"@) == Some(release) && release.len() > 0 ==> o.release
                == release
            &&& (b.text_field("release"@) matches Some(t) ==> t.len() == 0) ==> o.release
                == "aethel"@
            &&& b.text_field("namespace"@) == Some(namespace) && namespace.len() > 0 ==> o.namespace
                == namespace
            &&& (b.text_field("namespace"@) matches Some(t) ==> t.len() == 0) ==> o.namespace
                == "aethel"@
            &&& o.dry_run == dry_run
            &&& o.wait <==> b.bool_field("wait"@) == Some(true)
            &&& o.expose <==> b.bool_field("expose"@) == Some(true) || (
            b.text_field("cloud"@) matches Some(c) && c.len() > 0)
            &&& o.image_tag is Some ==> o.image_tag == b.text_field("imageTag"@)
            &&& o.image_repo is Some ==> o.image_repo == b.text_field("imageRepo"@)
            &&& o.object_store_url is Some ==> o.object_store_url == b.text_field(
                "objectStoreUrl"@,
            )
            &&& b.text_field("imageTag"@) matches Some(t) ==> t.len() > 0 ==> o.image_tag is Some
            &&& b.text_field("imageRepo"@) matches Some(t) ==> t.len() > 0 ==> o.image_repo is Some
            &&& b.text_field("objectStoreUrl"@) matches Some(t) ==> t.len() > 0
                ==> o.object_store_url is Some
            &&& o.values_files.len() == 0
            &&& o.sets.len() == 8
            &&& b.bool_field("pooling"@) == Some(true) <==> o.sets[7] == "pooling.enabled="@
                + "true"@
            &&& b.bool_field("autoscaling"@) == Some(true) <==> o.sets[1]
                == "autoscaling.proxy.enabled="@ + "true"@
        }),
{
    reveal_strlit("true");
    reveal_strlit("false");
    let x = "pooling.enabled="@;
    let y = "autoscaling.proxy.enabled="@;
    assert((x + "true"@).len() != (x + "false"@).len());
    assert((y + "true"@).len() != (y + "false"@).len());
}

// ---------------------------------------------------------------------------
// Arguments
// ---------------------------------------------------------------------------

proof fn lemma_flagged(flag: Seq<char>, s: Seq<Seq<char>>)
    ensures
        flagged(flag, s).len() == 2 * s.len(),
    decreases s.len(),
{
    if s.len() > 0 {
        lemma_flagged(flag, s.drop_last());
    }
}

proof fn lemma_flagged_at(flag: Seq<char>, s: Seq<Seq<char>>, i: int)
    requires
        0 <= i < s.len(),
    ensures
        flagged(flag, s)[2 * i] == flag,
        flagged(flag, s)[2 * i + 1] == s[i],
    decreases s.len(),
{
    let front = s.drop_last();
    lemma_flagged(flag, front);
    if i < front.len() {
        lemma_flagged_at(flag, front, i);
        assert(front[i] == s[i]);
    }
}

/// The arguments of a deployment carry every option: the release, the chart and the
/// namespace; each values file behind `--values`; each setting behind `--set`, those given
/// first and then those of the other options; and `--wait` and `--dry-run` where they are
/// wanted.
pub proof fn arguments_carry_every_option(o: DeployOptsV, chart: Seq<char>, i: int)
    ensures
        ({
            let a = helm_arg_list(o, chart);
            let nv = o.values_files.len() as int;
            let ns = all_sets(o).len() as int;
            &&& a[0] == "upgrade"@ && a[1] == "--install"@ && a[2] == o.release && a[3] == chart
            &&& a[4] == "--namespace"@ && a[5] == o.namespace && a[6] == "--create-namespace"@
            &&& 0 <= i < nv ==> a[7 + 2 * i] == "--values"@ && a[7 + 2 * i + 1]
                == o.values_files[i]
            &&& 0 <= i < ns ==> a[7 + 2 * nv + 2 * i] == "--set"@ && a[7 + 2 * nv + 2 * i + 1]
                == all_sets(o)[i]
            &&& 0 <= i < o.sets.len() ==> all_sets(o)[i] == o.sets[i]
            &&& o.object_store_url matches Some(v) ==> all_sets(o).contains("objectStore.url="@ + v)
            &&& o.image_repo matches Some(v) ==> all_sets(o).contains("image.repository="@ + v)
            &&& o.image_tag matches Some(v) ==> all_sets(o).contains("image.tag="@ + v)
            &&& o.expose ==> all_sets(o).contains("proxy.service.type=LoadBalancer"@)
            &&& ns == o.sets.len() + count(o.object_store_url is Some) + count(o.image_repo is Some)
                + count(o.image_tag is Some) + count(o.expose)
            &&& a.len() == 7 + 2 * nv + 2 * ns + count(o.wait) + count(o.dry_run)
            &&& o.wait ==> a[7 + 2 * nv + 2 * ns] == "--wait"@
            &&& o.dry_run ==> a.last() == "--dry-run"@
        }),
{
    lemma_sets(o, i);
    let head = seq![
        "upgrade"@,
        "--install"@,
        o.release,
        chart,
        "--namespace"@,
        o.namespace,
        "--create-namespace"@,
    ];
    lemma_arguments(head, o.values_files, all_sets(o), o.wait, o.dry_run, i);
}

proof fn lemma_arguments(
    head: Seq<Seq<char>>,
    values: Seq<Seq<char>>,
    s: Seq<Seq<char>>,
    wait: bool,
    dry_run: bool,
    i: int,
)
    requires
        head.len() == 7,
    ensures
        ({
            let a = head + flagged("--values"@, values) + flagged("--set"@, s) + optional_arg(
                wait,
                "--wait"@,
            ) + optional_arg(dry_run, "--dry-run"@);
            let nv = values.len() as int;
            let ns = s.len() as int;
            &&& a[0] == head[0] && a[1] == head[1] && a[2] == head[2] && a[3] == head[3]
            &&& a[4] == head[4] && a[5] == head[5] && a[6] == head[6]
            &&& 0 <= i < nv ==> a[7 + 2 * i] == "--values"@ && a[7 + 2 * i + 1] == values[i]
            &&& 0 <= i < ns ==> a[7 + 2 * nv + 2 * i] == "--set"@ && a[7 + 2 * nv + 2 * i + 1]
                == s[i]
            &&& a.len() == 7 + 2 * nv + 2 * ns + count(wait) + count(dry_run)
            &&& wait ==> a[7 + 2 * nv + 2 * ns] == "--wait"@
            &&& dry_run ==> a.last() == "--dry-run"@
        }),
{
    let f = flagged("--values"@, values);
    let g = flagged("--set"@, s);
    let a = head + f + g + optional_arg(wait, "--wait"@) + optional_arg(dry_run, "--dry-run"@);
    lemma_flagged("--values"@, values);
    lemma_flagged("--set"@, s);
    let nv = values.len() as int;
    let ns = s.len() as int;
    if 0 <= i < nv {
        lemma_flagged_at("--values"@, values, i);
        assert(a[7 + 2 * i] == f[2 * i]);
        assert(a[7 + 2 * i + 1] == f[2 * i + 1]);
    }
    if 0 <= i < ns {
        lemma_flagged_at("--set"@, s, i);
        assert(a[7 + 2 * nv + 2 * i] == g[2 * i]);
        assert(a[7 + 2 * nv + 2 * i + 1] == g[2 * i + 1]);
    }
}

proof fn lemma_sets(o: DeployOptsV, i: int)
    ensures
        ({
            let s = all_sets(o);
            &&& 0 <= i < o.sets.len() ==> s[i] == o.sets[i]
            &&& o.object_store_url matches Some(v) ==> s.contains("objectStore.url="@ + v)
            &&& o.image_repo matches Some(v) ==> s.contains("image.repository="@ + v)
            &&& o.image_tag matches Some(v) ==> s.contains("image.tag="@ + v)
            &&& o.expose ==> s.contains("proxy.service.type=LoadBalancer"@)
            &&& s.len() == o.sets.len() + count(o.object_store_url is Some) + count(
                o.image_repo is Some,
            ) + count(o.image_tag is Some) + count(o.expose)
        }),
{
    let s = all_sets(o);
    let n = o.sets.len() as int;
    if let Some(v) = o.object_store_url {
        assert(s[n] == "objectStore.url="@ + v);
    }
    let n2 = n + count(o.object_store_url is Some);
    if let Some(v) = o.image_repo {
        assert(s[n2] == "image.repository="@ + v);
    }
    let n3 = n2 + count(o.image_repo is Some);
    if let Some(v) = o.image_tag {
        assert(s[n3] == "image.tag="@ + v);
    }
    let n4 = n3 + count(o.image_tag is Some);
    if o.expose {
        assert(s[n4] == "proxy.service.type=LoadBalancer"@);
    }
}

/// 1 or 0.
pub open spec fn count(b: bool) -> int {
    if b {
        1
    } else {
        0
    }
}

// ---------------------------------------------------------------------------
// Answers of the other services
// ---------------------------------------------------------------------------

proof fn lemma_flags(states: Seq<(Seq<char>, bool)>, v: Seq<JsonV>, key: Seq<char>)
    requires
        key != "tenant"@,
        v.len() == states.len(),
        forall|i: int|
            0 <= i < v.len() ==> #[trigger] v[i] == JsonV::Object(
                seq![("tenant"@, JsonV::Text(states[i].0)), (key, JsonV::Bool(states[i].1))],
            ),
    ensures
        tenant_flags(v, key) == states,
    decreases v.len(),
{
    if v.len() > 0 {
        let n = v.len() - 1;
        let f = seq![("tenant"@, JsonV::Text(states[n].0)), (key, JsonV::Bool(states[n].1))];
        assert(v[n] == JsonV::Object(f));
        lemma_field_at(f, 0);
        lemma_field_at(f, 1);
        lemma_flags(states.drop_last(), v.drop_last(), key);
        assert(states.drop_last().push(states[n]) =~= states);
    } else {
        assert(states =~= Seq::empty());
    }
}

/// The states of the computes are those that the document lists, each under its tenant's
/// name and in the document's order; a document without the list has none.
pub proof fn states_are_those_of_the_document(states: Seq<(Seq<char>, bool)>, key: Seq<char>)
    requires
        key != "tenant"@,
    ensures
        states_of(
            JsonV::Object(
                seq![
                    (
                        "tenants"@,
                        JsonV::List(
                            Seq::new(
                                states.len(),
                                |i: int|
                                    JsonV::Object(
                                        seq![
                                            ("tenant"@, JsonV::Text(states[i].0)),
                                            (key, JsonV::Bool(states[i].1)),
                                        ],
                                    ),
                            ),
                        ),
                    ),
                ],
            ),
            key,
        ) == states,
        states_of(JsonV::Null, key).len() == 0,
{
    let v = Seq::new(
        states.len(),
        |i: int|
            JsonV::Object(
                seq![("tenant"@, JsonV::Text(states[i].0)), (key, JsonV::Bool(states[i].1))],
            ),
    );
    let f = seq![("tenants"@, JsonV::List(v))];
    lemma_field_at(f, 0);
    lemma_flags(states, v, key);
}

/// A tenant of which the name or the state is not said is passed over.
pub proof fn states_that_are_not_said_are_passed_over(a: Seq<JsonV>, t: JsonV, key: Seq<char>)
    requires
        t.text_field("tenant"@) is None || t.bool_field(key) is None,
    ensures
        tenant_flags(a.push(t), key) == tenant_flags(a, key),
{
    assert(a.push(t).drop_last() =~= a);
}

/// The listing shows every database, in the registry's order, and what the console itself
/// was set up with.
pub proof fn listings_show_every_database(
    dbs: Seq<DatabaseV>,
    live: Seq<Seq<char>>,
    compute: Seq<(Seq<char>, bool)>,
    warm: Seq<(Seq<char>, bool)>,
    endpoint: Seq<char>,
    compute_control: bool,
)
    ensures
        ({
            let j = databases_doc(dbs, live, compute, warm, endpoint, compute_control);
            &&& j.list_field("databases"@) matches Some(l) && l.len() == dbs.len() && (forall|i: int|
                0 <= i < dbs.len() ==> #[trigger] l[i] == database_doc(
                    dbs[i],
                    live,
                    compute,
                    warm,
                    endpoint,
                ))
            &&& j.text_field("endpoint"@) == Some(endpoint)
            &&& j.bool_field("computeControl"@) == Some(compute_control)
        }),
{
    let f = databases_doc(dbs, live, compute, warm, endpoint, compute_control)->Object_0;
    reveal_strlit("databases");
    reveal_strlit("endpoint");
    reveal_strlit("computeControl");
    assert("databases"@.len() == 9 && "endpoint"@.len() == 8 && "computeControl"@.len() == 14);
    lemma_field_at(f, 0);
    lemma_field_at(f, 1);
    lemma_field_at(f, 2);
}

/// A message is one of a conflict where it has the status 409 in it or says, in whichever
/// case, that something exists; not where neither can stand in it.
pub proof fn conflicts_are_told_by_status_or_word(
    a: Seq<char>,
    b: Seq<char>,
    word: Seq<char>,
    other: Seq<char>,
)
    requires
        lower(word) == "exists"@,
        forall|i: int| 0 <= i < other.len() ==> #[trigger] other[i] != '9' && lower_char(other[i]) != 'x',
    ensures
        is_conflict(a + "409"@ + b),
        is_conflict(a + word + b),
        !is_conflict(other),
{
    texts_are_found_where_they_stand(a, "409"@, b);
    let m = a + word + b;
    texts_are_found_where_they_stand(lower(a), "exists"@, lower(b));
    assert(lower(m) =~= lower(a) + lower(word) + lower(b));
    reveal_strlit("409");
    reveal_strlit("exists");
    assert("409"@[2] == '9' && "exists"@[1] == 'x');
    texts_are_found_nowhere_else(other, "409"@, 2);
    assert forall|i: int| 0 <= i < lower(other).len() implies #[trigger] lower(other)[i] != 'x' by {
        assert(other[i] != '9');
    }
    texts_are_found_nowhere_else(lower(other), "exists"@, 1);
}

/// What is asked of the page store about a tenant's timelines is what it answers: the path
/// is that of the timelines, and the query names the tenant.
pub proof fn the_page_store_is_asked_about_the_tenant(tenant: Seq<char>)
    ensures
        target_parts(timelines_path_text(Some(tenant))) == ("/v1/timelines"@, "tenant="@ + tenant),
        target_parts(timelines_path_text(None)) == ("/v1/timelines"@, Seq::<char>::empty()),
{
    reveal_strlit("/v1/timelines");
    reveal_strlit("tenant=");
    reveal_strlit("/v1/timelines?tenant=");
    let p = "/v1/timelines"@;
    assert forall|i: int| 0 <= i < p.len() implies #[trigger] p[i] != '?' by {}
    targets_are_path_and_query(p, "tenant="@ + tenant);
    assert("/v1/timelines?tenant="@ =~= p + seq!['?'] + "tenant="@);
    assert(timelines_path_text(Some(tenant)) =~= p + seq!['?'] + ("tenant="@ + tenant));
}

/// The settings of a deployment are those of the form, in this order: the replicas, the
/// autoscaling with its bounds, the disruption budgets, the spread and the pooling.
pub proof fn deploy_settings_are_those_of_the_form(b: JsonV, dry_run: bool, n: i64)
    ensures
        ({
            let s = form_opts(b, dry_run).sets;
            let on = |name: Seq<char>|
                if b.bool_field(name) == Some(true) {
                    "true"@
                } else {
                    "false"@
                };
            &&& b.i64_field("safekeeperReplicas"@) == Some(n) ==> s[0] == "safekeeper.replicas="@
                + signed_decimal(n as int)
            &&& b.i64_field("safekeeperReplicas"@) is None ==> s[0] == "safekeeper.replicas="@
                + decimal(1)
            &&& s[1] == "autoscaling.proxy.enabled="@ + on("autoscaling"@)
            &&& b.i64_field("autoMin"@) == Some(n) ==> s[2] == "autoscaling.proxy.minReplicas="@
                + signed_decimal(n as int)
            &&& b.i64_field("autoMin"@) is None ==> s[2] == "autoscaling.proxy.minReplicas="@
                + decimal(2)
            &&& b.i64_field("autoMax"@) == Some(n) ==> s[3] == "autoscaling.proxy.maxReplicas="@
                + signed_decimal(n as int)
            &&& b.i64_field("autoMax"@) is None ==> s[3] == "autoscaling.proxy.maxReplicas="@
                + decimal(10)
            &&& s[4] == "podDisruptionBudget.safekeeper.enabled="@ + on("pdb"@)
            &&& s[5] == "podDisruptionBudget.proxy.enabled="@ + on("pdb"@)
            &&& s[6] == "topologySpread.enabled="@ + on("spread"@)
            &&& s[7] == "pooling.enabled="@ + on("pooling"@)
        }),
        n >= 0 ==> signed_decimal(n as int) == decimal(n as nat),
        n < 0 ==> signed_decimal(n as int) == seq!['-'] + decimal((0 - n) as nat),
{
}

/// A database that serves a restore point is shown with the name of the first point on that
/// timeline, and as `restore` where the registry knows none; each point is shown with its
/// name, its timeline and its position.
pub proof fn served_points_are_shown_by_name(
    d: DatabaseV,
    live: Seq<Seq<char>>,
    compute: Seq<(Seq<char>, bool)>,
    warm: Seq<(Seq<char>, bool)>,
    endpoint: Seq<char>,
    timeline: Seq<char>,
    i: int,
)
    requires
        d.current == Some(timeline),
        0 <= i <= d.branches.len(),
        i < d.branches.len() ==> d.branches[i].timeline == timeline,
        forall|j: int| 0 <= j < i ==> (#[trigger] d.branches[j]).timeline != timeline,
    ensures
        ({
            let j = database_doc(d, live, compute, warm, endpoint);
            &&& j.text_field("current"@) == Some(
                if i < d.branches.len() {
                    d.branches[i].name
                } else {
                    "restore"@
                },
            )
            &&& j.list_field("branches"@) matches Some(l) && l.len() == d.branches.len() && (i
                < l.len() ==> {
                &&& l[i].text_field("name"@) == Some(d.branches[i].name)
                &&& l[i].text_field("timeline"@) == Some(timeline)
                &&& l[i].u64_field("lsn"@) == Some(d.branches[i].lsn)
            })
        }),
{
    let f = database_doc(d, live, compute, warm, endpoint)->Object_0;
    reveal_strlit("name");
    reveal_strlit("id");
    reveal_strlit("connection");
    reveal_strlit("status");
    reveal_strlit("compute");
    reveal_strlit("keepWarm");
    reveal_strlit("current");
    reveal_strlit("branches");
    reveal_strlit("timeline");
    reveal_strlit("lsn");
    assert("name"@.len() == 4 && "id"@.len() == 2 && "connection"@.len() == 10);
    assert("status"@.len() == 6 && "compute"@.len() == 7 && "keepWarm"@.len() == 8);
    assert("current"@.len() == 7 && "branches"@.len() == 8 && "timeline"@.len() == 8);
    assert("lsn"@.len() == 3);
    assert("compute"@[1] == 'o' && "current"@[1] == 'u');
    assert("keepWarm"@[0] == 'k' && "branches"@[0] == 'b');
    lemma_field_at(f, 6);
    lemma_field_at(f, 7);
    lemma_point_name(d.branches, timeline, 0, i);
    if i < d.branches.len() {
        let p = f[7].1->List_0[i]->Object_0;
        lemma_field_at(p, 0);
        lemma_field_at(p, 1);
        lemma_field_at(p, 2);
    }
}

proof fn lemma_point_name(p: Seq<RestorePointV>, timeline: Seq<char>, from: int, i: int)
    requires
        0 <= from <= i <= p.len(),
        i < p.len() ==> p[i].timeline == timeline,
        forall|j: int| from <= j < i ==> (#[trigger] p[j]).timeline != timeline,
    ensures
        point_name(p, timeline, from) == (if i < p.len() {
            p[i].name
        } else {
            "restore"@
        }),
    decreases i - from,
{
    if from < i {
        assert(p[from].timeline != timeline);
        lemma_point_name(p, timeline, from + 1, i);
    }
}

/// What a client with a token sends is what a server with that token serves.
pub proof fn clients_with_the_token_are_served(
    c: ClientV,
    token: Seq<char>,
    method: Seq<char>,
    path: Seq<char>,
    body: Option<JsonV>,
)
    requires
        c.token == Some(token),
    ensures
        may_serve(path, Some(token), request_to(c, method, path, body).authorization),
        request_to(c, method, path, body).url == c.base + path,
        request_to(c, method, path, body).method == method,
        request_to(c, method, path, body).body == body,
{
}

/// A list is read from its field; a document without the field has none.
pub proof fn lists_are_read_from_their_field(key: Seq<char>, l: Seq<JsonV>)
    ensures
        texts_of_field(JsonV::Object(seq![(key, JsonV::List(l))]), key) == only_texts(l),
        texts_of_field(JsonV::Null, key).len() == 0,
        id_doc(key) == seq![("id"@, JsonV::Text(key))],
{
    lemma_field_at(seq![(key, JsonV::List(l))], 0);
}

/// A request for a tenant names it in a field of that name, behind the others; one without
/// a tenant has no such field.
pub proof fn tenants_are_named_in_a_field(f: Seq<(Seq<char>, JsonV)>, tenant: Seq<char>)
    requires
        forall|j: int| 0 <= j < f.len() ==> (#[trigger] f[j]).0 != "tenant"@,
    ensures
        JsonV::Object(with_tenant_field(f, Some(tenant))).text_field("tenant"@) == Some(tenant),
        JsonV::Object(with_tenant_field(f, None)).field("tenant"@) is None,
        with_tenant_field(f, Some(tenant)).take(f.len() as int) == f,
{
    let g = with_tenant_field(f, Some(tenant));
    let n = f.len() as int;
    assert forall|j: int| 0 <= j < n implies (#[trigger] g[j]).0 != g[n].0 by {
        assert(g[j] == f[j]);
    }
    lemma_field_at(g, n);
    assert(g.take(n) =~= f);
    other_names_have_no_field(f, "tenant"@);
}

} // verus!
