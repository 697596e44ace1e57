//! What the replies of the control protocol keep: each is one line, says whether
//! the command was done, and a command that was not done changed nothing.

use vstd::prelude::*;

use crate::common::ids::{id_text, id_text_injective, lemma_timeline_id_of, tenant_id_named};
use crate::pageserver::control::{
    executed, handled, number_word, tenant_list, timeline_list, timeline_word, word,
    ControlActionV, ControlSessionV,
};
use crate::pageserver::tenant::{branched, created, tenant_error_text, TenantV};
use crate::pageserver::tenant_manager::{
    empty_manager, lemma_grave_of, lemma_place_of, provisioned, provisioning_is_idempotent,
    referred, replaced, with_referred, ManagerV, TenantRefV,
};
use crate::pageserver::topology::different_timelines;
use crate::text::{
    ascending, decimal, digit_char, digits_round_trip, hex_fixed, in_order, in_order_sorts,
    is_digit_char, is_space, joined, lemma_word_behind, less_is_total, starts_with, words,
};

verus! {

/// The text has no line break in it.
pub open spec fn one_line(s: Seq<char>) -> bool {
    forall|i: int| 0 <= i < s.len() ==> (#[trigger] s[i]) != '\n' && s[i] != '\r'
}

/// A reply that says that the command was done.
pub open spec fn says_ok(s: Seq<char>) -> bool {
    starts_with(s, "ok "@)
}

/// A reply that says that the command was not done.
pub open spec fn says_err(s: Seq<char>) -> bool {
    starts_with(s, "err "@)
}

/// What stands in a reply.
pub open spec fn is_reply(s: Seq<char>) -> bool {
    one_line(s) && (says_ok(s) != says_err(s))
}

proof fn lemma_concat(a: Seq<char>, b: Seq<char>)
    requires
        one_line(a),
        one_line(b),
    ensures
        one_line(a + b),
{
    assert forall|i: int| 0 <= i < (a + b).len() implies (#[trigger] (a + b)[i]) != '\n' && (a
        + b)[i] != '\r' by {
        if i < a.len() {
            assert((a + b)[i] == a[i]);
        } else {
            assert((a + b)[i] == b[i - a.len()]);
        }
    }
}

proof fn lemma_ok(rest: Seq<char>)
    requires
        one_line(rest),
    ensures
        is_reply("ok "@ + rest),
        says_ok("ok "@ + rest),
{
    reveal_strlit("ok ");
    reveal_strlit("err ");
    let s = "ok "@ + rest;
    lemma_concat("ok "@, rest);
    assert(s.take(3) =~= "ok "@);
    if says_err(s) {
        assert(s.take(4)[0] == s[0]);
    }
}

proof fn lemma_err(rest: Seq<char>)
    requires
        one_line(rest),
    ensures
        is_reply("err "@ + rest),
        says_err("err "@ + rest),
{
    reveal_strlit("ok ");
    reveal_strlit("err ");
    let s = "err "@ + rest;
    lemma_concat("err "@, rest);
    assert(s.take(4) =~= "err "@);
    if says_ok(s) {
        assert(s.take(3)[0] == s[0]);
    }
}

/// A text of one line that starts as one of the two does is a reply.
proof fn lemma_reply(s: Seq<char>)
    requires
        one_line(s),
        says_ok(s) || says_err(s),
    ensures
        is_reply(s),
{
    reveal_strlit("ok ");
    reveal_strlit("err ");
    if says_ok(s) && says_err(s) {
        assert(s.take(3)[0] == s[0] && s.take(4)[0] == s[0]);
    }
}

proof fn lemma_hex(n: nat, width: nat)
    ensures
        forall|i: int| 0 <= i < hex_fixed(n, width).len() ==> is_digit_char(
            #[trigger] hex_fixed(n, width)[i],
        ),
    decreases width,
{
    if width > 0 {
        lemma_hex(n / 16, (width - 1) as nat);
        let rest = hex_fixed(n / 16, (width - 1) as nat);
        assert(is_digit_char(digit_char(n % 16, false)));
        assert forall|i: int| 0 <= i < hex_fixed(n, width).len() implies is_digit_char(
            #[trigger] hex_fixed(n, width)[i],
        ) by {
            if i < rest.len() {
                assert(hex_fixed(n, width)[i] == rest[i]);
            }
        }
    }
}

proof fn lemma_id(b: Seq<u8>)
    ensures
        one_line(id_text(b)),
    decreases b.len(),
{
    if b.len() > 0 {
        lemma_id(b.drop_last());
        lemma_hex(b.last() as nat, 2);
        let h = hex_fixed(b.last() as nat, 2);
        assert forall|i: int| 0 <= i < h.len() implies (#[trigger] h[i]) != '\n' && h[i] != '\r' by {
            assert(is_digit_char(h[i]));
        }
        lemma_concat(id_text(b.drop_last()), h);
    }
}

proof fn lemma_decimal(n: nat)
    ensures
        one_line(decimal(n)),
{
    digits_round_trip(n, 10, false, n);
    let d = decimal(n);
    assert forall|i: int| 0 <= i < d.len() implies (#[trigger] d[i]) != '\n' && d[i] != '\r' by {
        assert(is_digit_char(d[i]));
    }
}

/// Words hold no white space, and there is one where the text ends in none.
proof fn lemma_words(s: Seq<char>)
    ensures
        forall|i: int| 0 <= i < words(s).len() ==> one_line(#[trigger] words(s)[i]),
        s.len() > 0 && !is_space(s.last()) ==> words(s).len() > 0,
    decreases s.len(),
{
    if s.len() > 0 {
        let front = s.drop_last();
        lemma_words(front);
        let rest = words(front);
        let c = s.last();
        if !is_space(c) {
            assert(c != '\n' && c != '\r');
            if s.len() == 1 || is_space(s[s.len() - 2]) {
                assert(one_line(seq![c]));
                assert forall|i: int| 0 <= i < words(s).len() implies one_line(
                    #[trigger] words(s)[i],
                ) by {
                    if i < rest.len() {
                        assert(words(s)[i] == rest[i]);
                    }
                }
            } else {
                assert(front.last() == s[s.len() - 2]);
                assert(one_line(rest[rest.len() - 1]));
                assert(one_line(seq![c]));
                lemma_concat(rest.last(), seq![c]);
                assert(rest.last() + seq![c] =~= rest.last().push(c));
                assert forall|i: int| 0 <= i < words(s).len() implies one_line(
                    #[trigger] words(s)[i],
                ) by {
                    if i < rest.len() - 1 {
                        assert(words(s)[i] == rest[i]);
                    }
                }
            }
        }
    }
}

proof fn lemma_joined(s: Seq<Seq<char>>)
    requires
        forall|i: int| 0 <= i < s.len() ==> one_line(#[trigger] s[i]),
    ensures
        one_line(joined(s, " "@)),
    decreases s.len(),
{
    reveal_strlit(" ");
    if s.len() > 1 {
        let front = s.drop_last();
        assert forall|i: int| 0 <= i < front.len() implies one_line(#[trigger] front[i]) by {
            assert(front[i] == s[i]);
        }
        lemma_joined(front);
        lemma_concat(joined(front, " "@), " "@);
        assert(one_line(s[s.len() - 1]));
        lemma_concat(joined(front, " "@) + " "@, s.last());
    }
}

/// Sorting keeps the texts.
proof fn lemma_sorted_lines(s: Seq<Seq<char>>)
    requires
        forall|i: int| 0 <= i < s.len() ==> one_line(#[trigger] s[i]),
    ensures
        one_line(joined(in_order(s), " "@)),
{
    broadcast use vstd::seq_lib::group_to_multiset_ensures;

    in_order_sorts(s);
    let t = in_order(s);
    assert forall|i: int| 0 <= i < t.len() implies one_line(#[trigger] t[i]) by {
        assert(t.contains(t[i]));
        assert(t.to_multiset().count(t[i]) > 0);
        assert(s.contains(t[i]));
        let j = choose|j: int| 0 <= j < s.len() && s[j] == t[i];
        assert(one_line(s[j]));
    }
    lemma_joined(t);
}

proof fn lemma_lists(t: TenantV, m: ManagerV)
    ensures
        one_line(joined(timeline_list(t.timelines), " "@)),
        one_line(joined(tenant_list(m.tenants), " "@)),
{
    let a = Seq::new(t.timelines.len(), |i: int| id_text(t.timelines[i].id@));
    assert forall|i: int| 0 <= i < a.len() implies one_line(#[trigger] a[i]) by {
        lemma_id(t.timelines[i].id@);
    }
    lemma_sorted_lines(a);
    let b = Seq::new(m.tenants.len(), |i: int| id_text(m.tenants[i].id@));
    assert forall|i: int| 0 <= i < b.len() implies one_line(#[trigger] b[i]) by {
        lemma_id(m.tenants[i].id@);
    }
    lemma_sorted_lines(b);
}

proof fn lemma_error(e: crate::pageserver::tenant::TenantError)
    ensures
        is_reply("err "@ + tenant_error_text(e)),
        says_err("err "@ + tenant_error_text(e)),
{
    reveal_strlit("timeline ");
    reveal_strlit(" already exists");
    reveal_strlit("parent timeline ");
    reveal_strlit(" does not exist");
    match e {
        crate::pageserver::tenant::TenantError::AlreadyExists(id) => {
            lemma_id(id@);
            lemma_concat("timeline "@, id_text(id@));
            lemma_concat("timeline "@ + id_text(id@), " already exists"@);
        },
        crate::pageserver::tenant::TenantError::NoSuchParent(id) => {
            lemma_id(id@);
            lemma_concat("parent timeline "@, id_text(id@));
            lemma_concat("parent timeline "@ + id_text(id@), " does not exist"@);
        },
    }
    lemma_err(tenant_error_text(e));
}

/// A text in front of a line, and what the whole starts with.
proof fn lemma_front(a: Seq<char>, b: Seq<char>)
    requires
        one_line(a),
        one_line(b),
        says_ok(a) || says_err(a),
    ensures
        one_line(a + b),
        says_ok(a) ==> says_ok(a + b),
        says_err(a) ==> says_err(a + b),
        is_reply(a + b),
{
    lemma_concat(a, b);
    if says_ok(a) {
        assert((a + b).take("ok "@.len() as int) =~= a.take("ok "@.len() as int));
    }
    if says_err(a) {
        assert((a + b).take("err "@.len() as int) =~= a.take("err "@.len() as int));
    }
    lemma_reply(a + b);
}

/// The fixed texts.
proof fn lemma_fixed()
    ensures
        is_reply("err empty command"@) && says_err("err empty command"@),
        is_reply("err usage: create <timeline-hex>"@) && says_err(
            "err usage: create <timeline-hex>"@,
        ),
        is_reply("err usage: branch <new-hex> <parent-hex> <lsn>"@) && says_err(
            "err usage: branch <new-hex> <parent-hex> <lsn>"@,
        ),
        is_reply("err usage: gc <horizon-lsn>"@) && says_err("err usage: gc <horizon-lsn>"@),
        is_reply("err unknown command '"@) && says_err("err unknown command '"@),
        is_reply("ok created "@) && says_ok("ok created "@),
        is_reply("ok branched "@) && says_ok("ok branched "@),
        is_reply("ok gc @ "@) && says_ok("ok gc @ "@),
        is_reply("ok tenant "@) && says_ok("ok tenant "@),
        is_reply("ok authenticated"@) && says_ok("ok authenticated"@),
        is_reply("err invalid token"@) && says_err("err invalid token"@),
        is_reply("err unauthorized: send 'auth <token>' first"@) && says_err(
            "err unauthorized: send 'auth <token>' first"@,
        ),
        is_reply("err usage: tenant <tenant-hex>"@) && says_err("err usage: tenant <tenant-hex>"@),
        is_reply("err usage: receive <timeline-hex> <safekeeper-host:port> <start-lsn>"@)
            && says_err("err usage: receive <timeline-hex> <safekeeper-host:port> <start-lsn>"@),
        is_reply("err unknown timeline "@) && says_err("err unknown timeline "@),
        one_line("'"@),
        one_line(" from "@),
        one_line(" @ "@),
        one_line(": "@),
        one_line(" timelines, "@),
        one_line(" versions removed"@),
{
    reveal_strlit("ok ");
    reveal_strlit("err ");
    lemma_fixed_err();
    lemma_fixed_ok();
    reveal_strlit("'");
    reveal_strlit(" from ");
    reveal_strlit(" @ ");
    reveal_strlit(": ");
    reveal_strlit(" timelines, ");
    reveal_strlit(" versions removed");
}

proof fn lemma_fixed_ok()
    ensures
        is_reply("ok created "@) && says_ok("ok created "@),
        is_reply("ok branched "@) && says_ok("ok branched "@),
        is_reply("ok gc @ "@) && says_ok("ok gc @ "@),
        is_reply("ok tenant "@) && says_ok("ok tenant "@),
        is_reply("ok authenticated"@) && says_ok("ok authenticated"@),
{
    reveal_strlit("ok ");
    reveal_strlit("ok created ");
    reveal_strlit("ok branched ");
    reveal_strlit("ok gc @ ");
    reveal_strlit("ok tenant ");
    reveal_strlit("ok authenticated");
    assert("ok created "@.take(3) =~= "ok "@);
    assert("ok branched "@.take(3) =~= "ok "@);
    assert("ok gc @ "@.take(3) =~= "ok "@);
    assert("ok tenant "@.take(3) =~= "ok "@);
    assert("ok authenticated"@.take(3) =~= "ok "@);
    lemma_reply("ok created "@);
    lemma_reply("ok branched "@);
    lemma_reply("ok gc @ "@);
    lemma_reply("ok tenant "@);
    lemma_reply("ok authenticated"@);
}

proof fn lemma_fixed_err()
    ensures
        is_reply("err empty command"@) && says_err("err empty command"@),
        is_reply("err usage: create <timeline-hex>"@) && says_err(
            "err usage: create <timeline-hex>"@,
        ),
        is_reply("err usage: branch <new-hex> <parent-hex> <lsn>"@) && says_err(
            "err usage: branch <new-hex> <parent-hex> <lsn>"@,
        ),
        is_reply("err usage: gc <horizon-lsn>"@) && says_err("err usage: gc <horizon-lsn>"@),
        is_reply("err unknown command '"@) && says_err("err unknown command '"@),
        is_reply("err invalid token"@) && says_err("err invalid token"@),
        is_reply("err unauthorized: send 'auth <token>' first"@) && says_err(
            "err unauthorized: send 'auth <token>' first"@,
        ),
        is_reply("err usage: tenant <tenant-hex>"@) && says_err("err usage: tenant <tenant-hex>"@),
        is_reply("err usage: receive <timeline-hex> <safekeeper-host:port> <start-lsn>"@)
            && says_err("err usage: receive <timeline-hex> <safekeeper-host:port> <start-lsn>"@),
        is_reply("err unknown timeline "@) && says_err("err unknown timeline "@),
{
    reveal_strlit("err ");
    reveal_strlit("err empty command");
    reveal_strlit("err usage: create <timeline-hex>");
    reveal_strlit("err usage: branch <new-hex> <parent-hex> <lsn>");
    reveal_strlit("err usage: gc <horizon-lsn>");
    reveal_strlit("err unknown command '");
    reveal_strlit("err invalid token");
    reveal_strlit("err unauthorized: send 'auth <token>' first");
    reveal_strlit("err usage: tenant <tenant-hex>");
    reveal_strlit("err usage: receive <timeline-hex> <safekeeper-host:port> <start-lsn>");
    reveal_strlit("err unknown timeline ");
    assert("err empty command"@.take(4) =~= "err "@);
    assert("err usage: create <timeline-hex>"@.take(4) =~= "err "@);
    assert("err usage: branch <new-hex> <parent-hex> <lsn>"@.take(4) =~= "err "@);
    assert("err usage: gc <horizon-lsn>"@.take(4) =~= "err "@);
    assert("err unknown command '"@.take(4) =~= "err "@);
    assert("err invalid token"@.take(4) =~= "err "@);
    assert("err unauthorized: send 'auth <token>' first"@.take(4) =~= "err "@);
    assert("err usage: tenant <tenant-hex>"@.take(4) =~= "err "@);
    assert("err usage: receive <timeline-hex> <safekeeper-host:port> <start-lsn>"@.take(4)
        =~= "err "@);
    assert("err unknown timeline "@.take(4) =~= "err "@);
    lemma_reply("err empty command"@);
    lemma_reply("err usage: create <timeline-hex>"@);
    lemma_reply("err usage: branch <new-hex> <parent-hex> <lsn>"@);
    lemma_reply("err usage: gc <horizon-lsn>"@);
    lemma_reply("err unknown command '"@);
    lemma_reply("err invalid token"@);
    lemma_reply("err unauthorized: send 'auth <token>' first"@);
    lemma_reply("err usage: tenant <tenant-hex>"@);
    lemma_reply("err usage: receive <timeline-hex> <safekeeper-host:port> <start-lsn>"@);
    lemma_reply("err unknown timeline "@);
}

/// The reply to a command is one line that starts with `ok ` or `err `, and a
/// command that was answered `err ` left the tenant as it was.
pub proof fn replies_tell_what_was_done(t: TenantV, line: Seq<char>)
    ensures
        is_reply(executed(t, line).1),
        says_err(executed(t, line).1) ==> executed(t, line).0 == t,
{
    lemma_fixed();
    lemma_words(line);
    let w = words(line);
    if w.len() == 0 {
    } else if w[0] == "create"@ {
        if let Some(id) = timeline_word(w, 1) {
            lemma_id(id@);
            lemma_front("ok created "@, id_text(id@));
            if let Err(e) = created(t, id) {
                lemma_error(e);
            }
        }
    } else if w[0] == "branch"@ {
        let a = timeline_word(w, 1);
        let b = timeline_word(w, 2);
        let c = number_word(w, 3);
        if let (Some(n), Some(p), Some(l)) = (a, b, c) {
            lemma_id(n@);
            lemma_id(p@);
            lemma_decimal(l as nat);
            let x1 = "ok branched "@ + id_text(n@);
            let x2 = x1 + " from "@;
            let x3 = x2 + id_text(p@);
            let x4 = x3 + " @ "@;
            lemma_front("ok branched "@, id_text(n@));
            lemma_front(x1, " from "@);
            lemma_front(x2, id_text(p@));
            lemma_front(x3, " @ "@);
            lemma_front(x4, decimal(l as nat));
            if let Err(e) = branched(t, n, p, crate::common::lsn::Lsn(l)) {
                lemma_error(e);
            }
        }
    } else if w[0] == "list"@ {
        lemma_lists(t, empty_manager(0));
        lemma_ok(joined(timeline_list(t.timelines), " "@));
    } else if w[0] == "gc"@ {
        if let Some(h) = number_word(w, 1) {
            let n = crate::pageserver::control::reported_drops(t, crate::common::lsn::Lsn(h));
            lemma_decimal(h as nat);
            lemma_decimal(t.timelines.len());
            lemma_decimal(n);
            let x1 = "ok gc @ "@ + decimal(h as nat);
            let x2 = x1 + ": "@;
            let x3 = x2 + decimal(t.timelines.len());
            let x4 = x3 + " timelines, "@;
            let x5 = x4 + decimal(n);
            lemma_front("ok gc @ "@, decimal(h as nat));
            lemma_front(x1, ": "@);
            lemma_front(x2, decimal(t.timelines.len()));
            lemma_front(x3, " timelines, "@);
            lemma_front(x4, decimal(n));
            lemma_front(x5, " versions removed"@);
        }
    } else {
        assert(one_line(w[0]));
        lemma_front("err unknown command '"@, w[0]);
        lemma_front("err unknown command '"@ + w[0], "'"@);
    }
}

/// The timelines are listed in ascending order of their ids, each of them once
/// and no other.
pub proof fn timelines_are_listed_in_order(t: TenantV, line: Seq<char>)
    requires
        different_timelines(t.timelines),
        word(words(line), 0) == Some("list"@),
    ensures
        executed(t, line) == (t, "ok "@ + joined(timeline_list(t.timelines), " "@)),
        ascending(timeline_list(t.timelines)),
        timeline_list(t.timelines).to_multiset() == Seq::new(
            t.timelines.len(),
            |i: int| id_text(t.timelines[i].id@),
        ).to_multiset(),
{
    let tls = t.timelines;
    let s = Seq::new(tls.len(), |i: int| id_text(tls[i].id@));
    let r = timeline_list(tls);
    in_order_sorts(s);
    assert(s.no_duplicates()) by {
        assert forall|i: int, j: int| 0 <= i < s.len() && 0 <= j < s.len() && i != j implies s[i]
            != s[j] by {
            if s[i] == s[j] {
                id_text_injective(tls[i].id@, tls[j].id@);
                lemma_timeline_id_of(tls[i].id);
                lemma_timeline_id_of(tls[j].id);
                assert(tls[i].id == tls[j].id);
            }
        }
    }
    s.lemma_multiset_has_no_duplicates();
    r.lemma_multiset_has_no_duplicates_conv();
    assert forall|i: int, j: int| 0 <= i < j < r.len() implies crate::text::less(
        #[trigger] r[i],
        #[trigger] r[j],
    ) by {
        less_is_total(r[i], r[j]);
    }
    reveal_strlit("create");
    reveal_strlit("branch");
    reveal_strlit("list");
    assert("create"@.len() != "list"@.len() && "branch"@.len() != "list"@.len());
}

/// To put back what the tenant holds changes nothing.
proof fn lemma_unchanged(m: ManagerV, r: TenantRefV)
    ensures
        replaced(m, r, referred(m, r)) == with_referred(m, r),
{
    let p = provisioned(m, r.id);
    provisioning_is_idempotent(m, r.id);
    lemma_place_of(p.tenants, r.id);
    lemma_grave_of(m.removed, r);
    let now = replaced(m, r, referred(m, r));
    assert(now.tenants =~= with_referred(m, r).tenants);
    assert(now.removed =~= m.removed);
}

/// A reply that a session gives is one line that starts with `ok ` or `err `. A
/// line that is answered `err ` leaves the session as it was, and the tenants but
/// for the session's own, which is provisioned where it never was.
pub proof fn session_replies_tell_what_was_done(
    m: ManagerV,
    s: ControlSessionV,
    token: Option<Seq<char>>,
    line: Seq<char>,
    addr_ok: bool,
)
    ensures
        ({
            let (now, s2, a) = handled(m, s, token, line, addr_ok);
            match a {
                ControlActionV::Reply { text, persist } => is_reply(text) && (says_err(text)
                    ==> s2 == s && (now == m || now == with_referred(m, s.tenant))),
                ControlActionV::Refused { text } => is_reply(text) && says_err(text) && s2 == s
                    && now == m,
                _ => true,
            }
        }),
{
    lemma_fixed();
    let w = words(line);
    let t = referred(m, s.tenant);
    lemma_unchanged(m, s.tenant);
    replies_tell_what_was_done(t, line);
    lemma_lists(t, m);
    lemma_ok(joined(tenant_list(m.tenants), " "@));
    if let Some(x) = word(w, 1) {
        if let Some(id) = tenant_id_named(x) {
            lemma_id(id@);
            lemma_front("ok tenant "@, id_text(id@));
        }
    }
    if let Some(id) = timeline_word(w, 1) {
        lemma_id(id@);
        lemma_front("err unknown timeline "@, id_text(id@));
    }
}

/// White space holds no words.
proof fn lemma_no_words(s: Seq<char>)
    requires
        forall|i: int| 0 <= i < s.len() ==> is_space(#[trigger] s[i]),
    ensures
        words(s).len() == 0,
    decreases s.len(),
{
    if s.len() > 0 {
        assert(is_space(s[s.len() - 1]));
        lemma_no_words(s.drop_last());
    }
}

/// A command that cannot be understood changes nothing, and the reply says what was
/// wrong: nothing but white space, a first word that is no command, or operands that
/// are missing or cannot be read.
pub proof fn malformed_commands_are_refused(t: TenantV, line: Seq<char>)
    ensures
        (forall|i: int| 0 <= i < line.len() ==> is_space(#[trigger] line[i])) ==> executed(t, line)
            == (t, "err empty command"@),
        word(words(line), 0) matches Some(w) ==> w != "create"@ && w != "branch"@ && w != "list"@
            && w != "gc"@ ==> executed(t, line) == (t, "err unknown command '"@ + w + "'"@),
        word(words(line), 0) == Some("create"@) && timeline_word(words(line), 1) is None
            ==> executed(t, line) == (t, "err usage: create <timeline-hex>"@),
        word(words(line), 0) == Some("branch"@) && (timeline_word(words(line), 1) is None
            || timeline_word(words(line), 2) is None || number_word(words(line), 3) is None)
            ==> executed(t, line) == (t, "err usage: branch <new-hex> <parent-hex> <lsn>"@),
        word(words(line), 0) == Some("gc"@) && number_word(words(line), 1) is None ==> executed(
            t,
            line,
        ) == (t, "err usage: gc <horizon-lsn>"@),
{
    if forall|i: int| 0 <= i < line.len() ==> is_space(#[trigger] line[i]) {
        lemma_no_words(line);
    }
    lemma_commands_differ();
}

proof fn lemma_commands_differ()
    ensures
        "create"@ != "branch"@,
        "create"@ != "list"@,
        "create"@ != "gc"@,
        "branch"@ != "list"@,
        "branch"@ != "gc"@,
        "list"@ != "gc"@,
{
    reveal_strlit("create");
    reveal_strlit("branch");
    reveal_strlit("list");
    reveal_strlit("gc");
    assert("create"@[0] == 'c' && "branch"@[0] == 'b');
    assert("list"@.len() == 4 && "gc"@.len() == 2);
}

/// What a connection's lines do, one after the other, each with whether its third
/// word is a socket address: to the tenants, to the session, and what is left to do
/// for each line.
pub open spec fn served(
    m: ManagerV,
    s: ControlSessionV,
    token: Option<Seq<char>>,
    lines: Seq<(Seq<char>, bool)>,
) -> (ManagerV, ControlSessionV, Seq<ControlActionV>)
    decreases lines.len(),
{
    if lines.len() == 0 {
        (m, s, Seq::empty())
    } else {
        let (m1, s1, a) = handled(m, s, token, lines[0].0, lines[0].1);
        let (m2, s2, rest) = served(m1, s1, token, lines.skip(1));
        (m2, s2, seq![a] + rest)
    }
}

/// The line is `auth` and the token, whatever stands behind.
pub open spec fn gives_token(line: Seq<char>, token: Seq<char>) -> bool {
    word(words(line), 0) == Some("auth"@) && word(words(line), 1) == Some(token)
}

/// The answer to a line without the token, before authentication.
pub open spec fn refusal(line: Seq<char>) -> ControlActionV {
    ControlActionV::Refused {
        text: if word(words(line), 0) == Some("auth"@) {
            "err invalid token"@
        } else {
            "err unauthorized: send 'auth <token>' first"@
        },
    }
}

/// Where there is a token, every line of a connection is refused and does nothing, to
/// the tenants or to the session, until a line gives the token.
pub proof fn nothing_is_done_without_the_token(
    m: ManagerV,
    s: ControlSessionV,
    token: Seq<char>,
    lines: Seq<(Seq<char>, bool)>,
)
    requires
        !s.authed,
        forall|i: int| 0 <= i < lines.len() ==> !gives_token((#[trigger] lines[i]).0, token),
    ensures
        served(m, s, Some(token), lines) == (
            m,
            s,
            Seq::new(lines.len(), |i: int| refusal(lines[i].0)),
        ),
        forall|i: int|
            0 <= i < lines.len() ==> (#[trigger] refusal(lines[i].0) matches ControlActionV::Refused {
                text,
            } && says_err(text)),
    decreases lines.len(),
{
    lemma_fixed();
    if lines.len() > 0 {
        let rest = lines.skip(1);
        assert(!gives_token(lines[0].0, token));
        assert forall|i: int| 0 <= i < rest.len() implies !gives_token(
            (#[trigger] rest[i]).0,
            token,
        ) by {
            assert(rest[i] == lines[i + 1]);
        }
        nothing_is_done_without_the_token(m, s, token, rest);
        assert(seq![refusal(lines[0].0)] + Seq::new(rest.len(), |i: int| refusal(rest[i].0))
            =~= Seq::new(lines.len(), |i: int| refusal(lines[i].0)));
    } else {
        assert(Seq::new(lines.len(), |i: int| refusal(lines[i].0)) =~= Seq::empty());
    }
}

/// The first line that gives the token opens the session: the lines before it are
/// refused, it is answered `ok authenticated`, and the lines behind it are served as
/// those of a connection that needs no token.
pub proof fn the_token_opens_the_session(
    m: ManagerV,
    s: ControlSessionV,
    token: Seq<char>,
    lines: Seq<(Seq<char>, bool)>,
    k: int,
)
    requires
        !s.authed,
        0 <= k < lines.len(),
        gives_token(lines[k].0, token),
        forall|i: int| 0 <= i < k ==> !gives_token((#[trigger] lines[i]).0, token),
    ensures
        ({
            let (m2, s2, acts) = served(m, s, Some(token), lines);
            let open = ControlSessionV { authed: true, ..s };
            let (m3, s3, rest) = served(m, open, None, lines.skip(k + 1));
            &&& (m2, s2) == (m3, s3)
            &&& s2.authed
            &&& acts.len() == lines.len()
            &&& forall|i: int| 0 <= i < k ==> #[trigger] acts[i] == refusal(lines[i].0)
            &&& acts[k] == ControlActionV::Reply { text: "ok authenticated"@, persist: false }
            &&& acts.skip(k + 1) == rest
        }),
    decreases k,
{
    let (m2, s2, acts) = served(m, s, Some(token), lines);
    let open = ControlSessionV { authed: true, ..s };
    let behind = served(m, open, Some(token), lines.skip(k + 1)).2;
    let tail = lines.skip(1);
    if k == 0 {
        an_open_session_stays_open(m, open, Some(token), tail);
        assert(acts.skip(1) =~= behind);
    } else {
        assert(!gives_token(lines[0].0, token));
        assert(tail[k - 1] == lines[k]);
        assert forall|i: int| 0 <= i < k - 1 implies !gives_token(
            (#[trigger] tail[i]).0,
            token,
        ) by {
            assert(tail[i] == lines[i + 1]);
        }
        the_token_opens_the_session(m, s, token, tail, k - 1);
        let later = served(m, s, Some(token), tail).2;
        assert(acts == seq![refusal(lines[0].0)] + later);
        assert(tail.skip(k) =~= lines.skip(k + 1));
        assert forall|i: int| 0 <= i < k implies #[trigger] acts[i] == refusal(lines[i].0) by {
            if i > 0 {
                assert(acts[i] == later[i - 1]);
                assert(tail[i - 1] == lines[i]);
            }
        }
        assert(acts[k] == later[k - 1]);
        assert(acts.skip(k + 1) =~= later.skip(k));
    }
}

/// Once open, a session stays open, and no line is asked for a token.
pub proof fn an_open_session_stays_open(
    m: ManagerV,
    s: ControlSessionV,
    token: Option<Seq<char>>,
    lines: Seq<(Seq<char>, bool)>,
)
    requires
        s.authed,
    ensures
        served(m, s, token, lines) == served(m, s, None, lines),
        served(m, s, token, lines).1.authed,
        served(m, s, token, lines).2.len() == lines.len(),
        forall|i: int|
            0 <= i < lines.len() ==> !(#[trigger] served(m, s, token, lines).2[i] is Refused),
    decreases lines.len(),
{
    if lines.len() > 0 {
        let (m1, s1, a) = handled(m, s, token, lines[0].0, lines[0].1);
        an_open_session_stays_open(m1, s1, token, lines.skip(1));
        let rest = served(m1, s1, token, lines.skip(1)).2;
        assert forall|i: int| 0 <= i < lines.len() implies !(#[trigger] served(
            m,
            s,
            token,
            lines,
        ).2[i] is Refused) by {
            if i > 0 {
                assert(served(m, s, token, lines).2[i] == rest[i - 1]);
            }
        }
    }
}

/// `auth`, a space and the token give the token, where it holds a character and no
/// white space.
pub proof fn auth_gives_the_token(token: Seq<char>)
    requires
        token.len() > 0,
        forall|i: int| 0 <= i < token.len() ==> !is_space(#[trigger] token[i]),
    ensures
        gives_token("auth "@ + token, token),
{
    reveal_strlit("auth");
    reveal_strlit("auth ");
    let none = Seq::<char>::empty();
    lemma_word_behind(none, "auth"@);
    assert(none + "auth"@ =~= "auth"@);
    assert("auth "@.drop_last() =~= "auth"@);
    assert(is_space(' '));
    assert(words("auth "@) == words("auth"@));
    lemma_word_behind("auth "@, token);
}

/// Where there is no token to give, no line opens a session that is closed.
pub proof fn no_line_opens_without_a_token(
    m: ManagerV,
    s: ControlSessionV,
    line: Seq<char>,
    addr_ok: bool,
)
    requires
        !s.authed,
    ensures
        ({
            let (now, s2, a) = handled(m, s, None, line, addr_ok);
            now == m && s2 == s && a is Refused
        }),
{
}

} // verus!
