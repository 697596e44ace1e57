//! The line-oriented control protocol for branch management.
//!
//! One command per line, one reply line back:
//!
//! * `auth <token>`: authenticate the connection, where the server has a control
//!   token; required before any other command.
//! * `tenants`: list known tenant ids.
//! * `tenant <tenant-hex>`: switch the connection's current tenant, which comes
//!   into being on first use. It starts as the all-zero tenant.
//! * `create <timeline-hex>`: create a fresh root timeline.
//! * `branch <new-hex> <parent-hex> <lsn>`: branch `new` off `parent` at `lsn`.
//! * `list`: list known timeline ids.
//! * `gc <horizon-lsn>`: compact every timeline, respecting branch points.
//! * `receive <timeline-hex> <safekeeper-host:port> <start-lsn>`: stream WAL into
//!   a timeline.
//!
//! Replies are `ok ...` or `err ...`. [`ControlSession::handle_line`] decides
//! what a line does; connecting to a safekeeper, deleting objects and writing
//! down the topology are for the caller.

use vstd::prelude::*;

use crate::common::ids::{id_text, tenant_id_named, timeline_id_named, TenantId, TimelineId};
use crate::common::lsn::Lsn;
use crate::pageserver::layer::LayerId;
use crate::pageserver::repository::{layer_ids, merged, pruned, CompactionStats};
use crate::pageserver::tenant::{
    branched, collected, collection_report, created, horizon_of, number_of, tenant_error_text,
    Tenant, TenantV,
};
use crate::pageserver::tenant_manager::{
    provisioned, ref_to, referred, replaced, HostedV, ManagerV, TenantManager, TenantRef,
    TenantRefV,
};
use crate::pageserver::timeline::TimelineV;
use crate::pageserver::walredo::WalRedoManager;
use crate::text::{
    chars_of, copy_str, decimal, in_order, join_texts, joined, parse_uint, push_decimal, read_uint,
    same_text, sort_texts, starts_with, texts, words, words_of,
};

verus! {

/// Word number `i`.
pub open spec fn word(w: Seq<Seq<char>>, i: int) -> Option<Seq<char>> {
    if 0 <= i < w.len() {
        Some(w[i])
    } else {
        None
    }
}

/// The timeline that word number `i` names.
pub open spec fn timeline_word(w: Seq<Seq<char>>, i: int) -> Option<TimelineId> {
    match word(w, i) {
        Some(t) => timeline_id_named(t),
        None => None,
    }
}

/// The number that word number `i` writes.
pub open spec fn number_word(w: Seq<Seq<char>>, i: int) -> Option<u64> {
    match word(w, i) {
        Some(t) => match parse_uint(t, 10, u64::MAX as nat) {
            Ok(n) => Some(n as u64),
            Err(_) => None,
        },
        None => None,
    }
}

/// How many versions a collection of the first `n` timelines drops.
pub open spec fn versions_dropped(tls: Seq<TimelineV>, requested: Lsn, n: int) -> int
    decreases n,
{
    if n <= 0 {
        0
    } else {
        let m = merged(tls[n - 1].repo.layers);
        versions_dropped(tls, requested, n - 1) + (m.dom().len() - pruned(
            m,
            horizon_of(tls, n - 1, requested),
        ).dom().len())
    }
}

/// Which layers a collection of the first `n` timelines replaces.
pub open spec fn layers_replaced(tls: Seq<TimelineV>, n: int) -> Seq<LayerId>
    decreases n,
{
    if n <= 0 {
        Seq::empty()
    } else {
        layers_replaced(tls, n - 1) + layer_ids(tls[n - 1].repo.layers)
    }
}

/// The number of versions dropped, as it is reported.
pub open spec fn reported_drops(t: TenantV, requested: Lsn) -> nat {
    (versions_dropped(t.timelines, requested, t.timelines.len() as int) as nat)
        % 0x1_0000_0000_0000_0000
}

/// The texts of the timelines' ids, in order.
pub open spec fn timeline_list(tls: Seq<TimelineV>) -> Seq<Seq<char>> {
    in_order(Seq::new(tls.len(), |i: int| id_text(tls[i].id@)))
}

/// The texts of the tenants' ids, in order.
pub open spec fn tenant_list(ts: Seq<HostedV>) -> Seq<Seq<char>> {
    in_order(Seq::new(ts.len(), |i: int| id_text(ts[i].id@)))
}

/// What a command does to a tenant, and the reply.
pub open spec fn executed(t: TenantV, line: Seq<char>) -> (TenantV, Seq<char>) {
    let w = words(line);
    if w.len() == 0 {
        (t, "err empty command"@)
    } else if w[0] == "create"@ {
        match timeline_word(w, 1) {
            None => (t, "err usage: create <timeline-hex>"@),
            Some(id) => match created(t, id) {
                Ok(now) => (now, "ok created "@ + id_text(id@)),
                Err(e) => (t, "err "@ + tenant_error_text(e)),
            },
        }
    } else if w[0] == "branch"@ {
        match (timeline_word(w, 1), timeline_word(w, 2), number_word(w, 3)) {
            (Some(n), Some(p), Some(l)) => match branched(t, n, p, Lsn(l)) {
                Ok(now) => (
                    now,
                    "ok branched "@ + id_text(n@) + " from "@ + id_text(p@) + " @ "@ + decimal(
                        l as nat,
                    ),
                ),
                Err(e) => (t, "err "@ + tenant_error_text(e)),
            },
            _ => (t, "err usage: branch <new-hex> <parent-hex> <lsn>"@),
        }
    } else if w[0] == "list"@ {
        (t, "ok "@ + joined(timeline_list(t.timelines), " "@))
    } else if w[0] == "gc"@ {
        match number_word(w, 1) {
            None => (t, "err usage: gc <horizon-lsn>"@),
            Some(h) => (
                collected(t, Lsn(h)),
                "ok gc @ "@ + decimal(h as nat) + ": "@ + decimal(t.timelines.len())
                    + " timelines, "@ + decimal(reported_drops(t, Lsn(h))) + " versions removed"@,
            ),
        }
    } else {
        (t, "err unknown command '"@ + w[0] + "'"@)
    }
}

fn timeline_at(w: &Vec<String>, i: usize) -> (r: Option<TimelineId>)
    ensures
        r == timeline_word(texts(w@), i as int),
{
    if i >= w.len() {
        return None;
    }
    assert(texts(w@)[i as int] == w@[i as int]@);
    match TimelineId::from_str(w[i].as_str()) {
        Ok(id) => Some(id),
        Err(_) => None,
    }
}

fn number_at(w: &Vec<String>, i: usize) -> (r: Option<u64>)
    ensures
        r == number_word(texts(w@), i as int),
{
    if i >= w.len() {
        return None;
    }
    assert(texts(w@)[i as int] == w@[i as int]@);
    let c = chars_of(w[i].as_str());
    match read_uint(c.as_slice(), 10, u64::MAX) {
        Ok(n) => Some(n),
        Err(_) => None,
    }
}

/// The totals of a collection's report.
pub(crate) fn collection_totals(
    stats: &Vec<(TimelineId, CompactionStats)>,
    Ghost(t): Ghost<TenantV>,
    Ghost(requested): Ghost<Lsn>,
) -> (r: (u64, Vec<LayerId>))
    requires
        collection_report(stats@, t, requested),
    ensures
        r.0 == reported_drops(t, requested),
        r.1@ == layers_replaced(t.timelines, t.timelines.len() as int),
{
    let mut total: u64 = 0;
    let mut ids: Vec<LayerId> = Vec::new();
    let mut i: usize = 0;
    let ghost tls = t.timelines;
    assert(ids@ =~= layers_replaced(tls, 0));
    while i < stats.len()
        invariant
            collection_report(stats@, t, requested),
            tls == t.timelines,
            i <= stats@.len(),
            versions_dropped(tls, requested, i as int) >= 0,
            total == (versions_dropped(tls, requested, i as int) as nat)
                % 0x1_0000_0000_0000_0000,
            ids@ == layers_replaced(tls, i as int),
        decreases stats@.len() - i,
    {
        let s = &stats[i].1;
        assert(stats@[i as int].0 == tls[i as int].id);
        let ghost before = versions_dropped(tls, requested, i as int);
        total = total.wrapping_add(s.versions_removed as u64);
        let ghost held = ids@;
        let mut k: usize = 0;
        while k < s.removed_layer_ids.len()
            invariant
                k <= s.removed_layer_ids@.len(),
                ids@ == held + s.removed_layer_ids@.take(k as int),
            decreases s.removed_layer_ids@.len() - k,
        {
            ids.push(s.removed_layer_ids[k]);
            assert(ids@ =~= held + s.removed_layer_ids@.take(k + 1));
            k += 1;
        }
        assert(s.removed_layer_ids@.take(k as int) =~= s.removed_layer_ids@);
        i += 1;
    }
    (total, ids)
}

pub(crate) fn timeline_texts<R: WalRedoManager>(tenant: &Tenant<R>) -> (r: Vec<String>)
    ensures
        texts(r@) == timeline_list(tenant@.timelines),
{
    let ids = tenant.timeline_ids();
    let mut out: Vec<String> = Vec::new();
    let mut i: usize = 0;
    while i < ids.len()
        invariant
            i <= ids@.len(),
            out@.len() == i,
            forall|k: int| 0 <= k < i ==> (#[trigger] out@[k])@ == id_text(ids@[k]@),
        decreases ids@.len() - i,
    {
        out.push(ids[i].to_string());
        i += 1;
    }
    assert(texts(out@) =~= Seq::new(
        tenant@.timelines.len(),
        |i: int| id_text(tenant@.timelines[i].id@),
    ));
    sort_texts(out)
}

/// The texts of the tenants' ids, in order.
pub(crate) fn tenant_texts<R: WalRedoManager>(tenants: &TenantManager<R>) -> (r: Vec<String>)
    ensures
        texts(r@) == tenant_list(tenants@.tenants),
{
    let ids = tenants.tenant_ids();
    let mut out: Vec<String> = Vec::new();
    let mut i: usize = 0;
    while i < ids.len()
        invariant
            i <= ids@.len(),
            out@.len() == i,
            forall|k: int| 0 <= k < i ==> (#[trigger] out@[k])@ == id_text(ids@[k]@),
        decreases ids@.len() - i,
    {
        out.push(ids[i].to_string());
        i += 1;
    }
    assert(texts(out@) =~= Seq::new(
        tenants@.tenants.len(),
        |i: int| id_text(tenants@.tenants[i].id@),
    ));
    sort_texts(out)
}

/// Execute one command line against the tenant; the reply line.
pub fn exec<R: WalRedoManager>(tenant: &mut Tenant<R>, line: &str) -> (r: String)
    requires
        old(tenant).wf(),
    ensures
        final(tenant).wf(),
        final(tenant).backend() == old(tenant).backend(),
        executed(old(tenant)@, line@) == (final(tenant)@, r@),
{
    let chars = chars_of(line);
    let w = words_of(chars.as_slice());
    let ghost wv = words(line@);
    if w.len() == 0 {
        return copy_str("err empty command");
    }
    let first = w[0].as_str();
    assert(wv[0] == first@);
    if same_text(first, "create") {
        let id = match timeline_at(&w, 1) {
            Some(id) => id,
            None => return copy_str("err usage: create <timeline-hex>"),
        };
        match tenant.create_timeline(id) {
            Ok(()) => {
                let mut m = copy_str("ok created ");
                m.push_str(id.to_string().as_str());
                m
            },
            Err(e) => {
                let mut m = copy_str("err ");
                m.push_str(e.to_string().as_str());
                m
            },
        }
    } else if same_text(first, "branch") {
        match (timeline_at(&w, 1), timeline_at(&w, 2), number_at(&w, 3)) {
            (Some(n), Some(p), Some(l)) => match tenant.branch_timeline(n, p, Lsn(l)) {
                Ok(()) => {
                    let mut m = copy_str("ok branched ");
                    m.push_str(n.to_string().as_str());
                    m.push_str(" from ");
                    m.push_str(p.to_string().as_str());
                    m.push_str(" @ ");
                    push_decimal(&mut m, l);
                    m
                },
                Err(e) => {
                    let mut m = copy_str("err ");
                    m.push_str(e.to_string().as_str());
                    m
                },
            },
            _ => copy_str("err usage: branch <new-hex> <parent-hex> <lsn>"),
        }
    } else if same_text(first, "list") {
        let ids = timeline_texts(tenant);
        let mut m = copy_str("ok ");
        m.push_str(join_texts(&ids, " ").as_str());
        m
    } else if same_text(first, "gc") {
        let h: u64 = match number_at(&w, 1) {
            Some(h) => h,
            None => return copy_str("err usage: gc <horizon-lsn>"),
        };
        let ghost t = tenant@;
        let stats = tenant.gc(Lsn(h));
        let (dropped, _ids) = collection_totals(&stats, Ghost(t), Ghost(Lsn(h)));
        let mut m = copy_str("ok gc @ ");
        push_decimal(&mut m, h);
        m.push_str(": ");
        push_decimal(&mut m, stats.len() as u64);
        m.push_str(" timelines, ");
        push_decimal(&mut m, dropped);
        m.push_str(" versions removed");
        m
    } else {
        let mut m = copy_str("err unknown command '");
        m.push_str(first);
        m.push_str("'");
        m
    }
}


/// A control connection: its current tenant, and whether it may command. It stays
/// with that tenant until it switches, also where the tenant is removed meanwhile.
pub struct ControlSession {
    tenant: TenantRef,
    authed: bool,
}

/// What a [`ControlSession`] holds.
pub struct ControlSessionV {
    pub tenant: TenantRefV,
    pub authed: bool,
}

impl View for ControlSession {
    type V = ControlSessionV;

    closed spec fn view(&self) -> ControlSessionV {
        ControlSessionV { tenant: self.tenant@, authed: self.authed }
    }
}

/// What is left to do for a line.
pub enum ControlAction {
    /// Send the reply; write down the topology first where `persist` says so.
    Reply { text: String, persist: bool },
    /// An attempt without the right token: count it and send the reply.
    Refused { text: String },
    /// A collection was made: delete the replaced layers' objects, where there
    /// is an object store, and send [`gc_reply`].
    Collected { horizon: u64, timelines: usize, dropped: u64, replaced: Vec<LayerId> },
    /// Connect to the safekeeper that the line's third word names and stream WAL
    /// into the timeline; send [`receiving_reply`], or [`connecting_failed`].
    Receive { tenant: TenantRef, timeline: TimelineId, start_lsn: u64 },
}

/// What a [`ControlAction`] says.
pub enum ControlActionV {
    Reply { text: Seq<char>, persist: bool },
    Refused { text: Seq<char> },
    Collected { horizon: u64, timelines: int, dropped: u64, replaced: Seq<LayerId> },
    Receive { tenant: TenantRefV, timeline: TimelineId, start_lsn: u64 },
}

impl View for ControlAction {
    type V = ControlActionV;

    open spec fn view(&self) -> ControlActionV {
        match *self {
            ControlAction::Reply { text, persist } => ControlActionV::Reply { text: text@, persist },
            ControlAction::Refused { text } => ControlActionV::Refused { text: text@ },
            ControlAction::Collected { horizon, timelines, dropped, replaced } => ControlActionV::Collected {
                horizon,
                timelines: timelines as int,
                dropped,
                replaced: replaced@,
            },
            ControlAction::Receive { tenant, timeline, start_lsn } => ControlActionV::Receive {
                tenant: tenant@,
                timeline,
                start_lsn,
            },
        }
    }
}

/// A line before authentication: only the right token opens the session.
pub open spec fn auth_line(s: ControlSessionV, token: Option<Seq<char>>, line: Seq<char>) -> (
    ControlSessionV,
    ControlActionV,
) {
    let w = words(line);
    if word(w, 0) == Some("auth"@) {
        if word(w, 1) is Some && word(w, 1) == token {
            (
                ControlSessionV { authed: true, ..s },
                ControlActionV::Reply { text: "ok authenticated"@, persist: false },
            )
        } else {
            (s, ControlActionV::Refused { text: "err invalid token"@ })
        }
    } else {
        (s, ControlActionV::Refused { text: "err unauthorized: send 'auth <token>' first"@ })
    }
}

/// A collection of the current tenant.
pub open spec fn gc_line(t: TenantV, w: Seq<Seq<char>>) -> (TenantV, ControlActionV) {
    match number_word(w, 1) {
        None => (
            t,
            ControlActionV::Reply { text: "err usage: gc <horizon-lsn>"@, persist: false },
        ),
        Some(h) => (
            collected(t, Lsn(h)),
            ControlActionV::Collected {
                horizon: h,
                timelines: t.timelines.len() as int,
                dropped: reported_drops(t, Lsn(h)) as u64,
                replaced: layers_replaced(t.timelines, t.timelines.len() as int),
            },
        ),
    }
}

/// A request to stream WAL into a timeline of the current tenant; `addr_ok` says
/// whether the third word is a socket address.
pub open spec fn receive_line(
    r: TenantRefV,
    t: TenantV,
    w: Seq<Seq<char>>,
    addr_ok: bool,
) -> ControlActionV {
    match (timeline_word(w, 1), number_word(w, 3)) {
        (Some(timeline), Some(start_lsn)) => if !addr_ok {
            ControlActionV::Reply {
                text: "err usage: receive <timeline-hex> <safekeeper-host:port> <start-lsn>"@,
                persist: false,
            }
        } else if number_of(t.timelines, timeline) < 0 {
            ControlActionV::Reply {
                text: "err unknown timeline "@ + id_text(timeline@),
                persist: false,
            }
        } else {
            ControlActionV::Receive { tenant: r, timeline, start_lsn }
        },
        _ => ControlActionV::Reply {
            text: "err usage: receive <timeline-hex> <safekeeper-host:port> <start-lsn>"@,
            persist: false,
        },
    }
}

/// What a line does: to the tenants, to the session, and what is left to do.
pub open spec fn handled(
    m: ManagerV,
    s: ControlSessionV,
    token: Option<Seq<char>>,
    line: Seq<char>,
    addr_ok: bool,
) -> (ManagerV, ControlSessionV, ControlActionV) {
    let w = words(line);
    let t = referred(m, s.tenant);
    if !s.authed {
        let (s2, a) = auth_line(s, token, line);
        (m, s2, a)
    } else if word(w, 0) == Some("tenants"@) {
        (
            m,
            s,
            ControlActionV::Reply {
                text: "ok "@ + joined(tenant_list(m.tenants), " "@),
                persist: false,
            },
        )
    } else if word(w, 0) == Some("tenant"@) {
        match word(w, 1) {
            Some(x) => match tenant_id_named(x) {
                Some(id) => (
                    provisioned(m, id),
                    ControlSessionV { tenant: ref_to(m, id), ..s },
                    ControlActionV::Reply {
                        text: "ok tenant "@ + id_text(id@),
                        persist: true,
                    },
                ),
                None => (
                    m,
                    s,
                    ControlActionV::Reply {
                        text: "err usage: tenant <tenant-hex>"@,
                        persist: false,
                    },
                ),
            },
            None => (
                m,
                s,
                ControlActionV::Reply { text: "err usage: tenant <tenant-hex>"@, persist: false },
            ),
        }
    } else if word(w, 0) == Some("gc"@) {
        let (now, a) = gc_line(t, w);
        (replaced(m, s.tenant, now), s, a)
    } else if word(w, 0) == Some("receive"@) {
        (replaced(m, s.tenant, t), s, receive_line(s.tenant, t, w, addr_ok))
    } else {
        let (now, text) = executed(t, line);
        (
            replaced(m, s.tenant, now),
            s,
            ControlActionV::Reply {
                text,
                persist: (word(w, 0) == Some("create"@) || word(w, 0) == Some("branch"@))
                    && starts_with(text, "ok"@),
            },
        )
    }
}

/// The text of an optional string.
pub open spec fn optional_text(t: Option<&str>) -> Option<Seq<char>> {
    match t {
        Some(t) => Some(t@),
        None => None,
    }
}

fn word_is(w: &Vec<String>, i: usize, what: &str) -> (r: bool)
    ensures
        r == (word(texts(w@), i as int) == Some(what@)),
{
    i < w.len() && same_text(w[i].as_str(), what)
}

fn starts_ok(t: &str) -> (r: bool)
    ensures
        r == starts_with(t@, "ok"@),
{
    let c = chars_of(t);
    let o = chars_of("ok");
    crate::text::has_prefix(c.as_slice(), o.as_slice())
}

/// The third word of a line: the address in a `receive` command.
pub fn receive_target(line: &str) -> (r: Option<String>)
    ensures
        match r {
            Some(t) => word(words(line@), 2) == Some(t@),
            None => word(words(line@), 2) is None,
        },
{
    let chars = chars_of(line);
    let w = words_of(chars.as_slice());
    if w.len() > 2 {
        assert(texts(w@)[2] == w@[2]@);
        Some(copy_str(w[2].as_str()))
    } else {
        None
    }
}

/// The reply to a collection.
pub fn gc_reply(horizon: u64, timelines: usize, dropped: u64, objects_deleted: usize) -> (r: String)
    ensures
        r@ == "ok gc @ "@ + decimal(horizon as nat) + ": "@ + decimal(timelines as nat)
            + " timelines, "@ + decimal(dropped as nat) + " versions removed, "@ + decimal(
            objects_deleted as nat,
        ) + " objects deleted"@,
{
    let mut m = copy_str("ok gc @ ");
    push_decimal(&mut m, horizon);
    m.push_str(": ");
    push_decimal(&mut m, timelines as u64);
    m.push_str(" timelines, ");
    push_decimal(&mut m, dropped);
    m.push_str(" versions removed, ");
    push_decimal(&mut m, objects_deleted as u64);
    m.push_str(" objects deleted");
    m
}

/// The reply once WAL is streaming; `addr` is the safekeeper's address.
pub fn receiving_reply(timeline: TimelineId, addr: &str, start_lsn: u64) -> (r: String)
    ensures
        r@ == "ok receiving "@ + id_text(timeline@) + " from "@ + addr@ + " @ "@ + decimal(
            start_lsn as nat,
        ),
{
    let mut m = copy_str("ok receiving ");
    m.push_str(timeline.to_string().as_str());
    m.push_str(" from ");
    m.push_str(addr);
    m.push_str(" @ ");
    push_decimal(&mut m, start_lsn);
    m
}

/// The reply where the safekeeper cannot be reached.
pub fn connecting_failed(why: &str) -> (r: String)
    ensures
        r@ == "err connecting to safekeeper: "@ + why@,
{
    let mut m = copy_str("err connecting to safekeeper: ");
    m.push_str(why);
    m
}

impl ControlSession {
    /// Open a connection: it acts on the all-zero tenant, and may command at
    /// once where there is no token.
    pub fn open<R: WalRedoManager>(tenants: &mut TenantManager<R>, has_token: bool) -> (r:
        ControlSession)
        requires
            old(tenants).wf(),
        ensures
            final(tenants).wf(),
            final(tenants).backend() == old(tenants).backend(),
            r@.tenant.id@ == Seq::new(16, |i: int| 0u8),
            r@.tenant == ref_to(old(tenants)@, r@.tenant.id),
            r@.authed == !has_token,
            final(tenants)@ == provisioned(old(tenants)@, r@.tenant.id),
    {
        let tenant = tenants.refer(TenantId::zero());
        ControlSession { tenant, authed: !has_token }
    }

    /// Decide what a line does. `token` is the token the connection has to
    /// authenticate with, if any; `addr_ok` says whether the line's third word
    /// is a socket address.
    pub fn handle_line<R: WalRedoManager>(
        &mut self,
        tenants: &mut TenantManager<R>,
        token: Option<&str>,
        line: &str,
        addr_ok: bool,
    ) -> (r: ControlAction)
        requires
            old(tenants).wf(),
        ensures
            final(tenants).wf(),
            final(tenants).backend() == old(tenants).backend(),
            handled(old(tenants)@, old(self)@, optional_text(token), line@, addr_ok) == (
                final(tenants)@,
                final(self)@,
                r@,
            ),
            !old(self)@.authed ==> final(tenants)@ == old(tenants)@ && final(self)@.tenant == old(
                self,
            )@.tenant && (final(self)@.authed ==> token is Some),
    {
        let chars = chars_of(line);
        let w = words_of(chars.as_slice());
        let ghost wv = words(line@);
        if !self.authed {
            if word_is(&w, 0, "auth") {
                let right = match token {
                    Some(t) => word_is(&w, 1, t),
                    None => false,
                };
                if right {
                    self.authed = true;
                    return ControlAction::Reply {
                        text: copy_str("ok authenticated"),
                        persist: false,
                    };
                }
                return ControlAction::Refused { text: copy_str("err invalid token") };
            }
            return ControlAction::Refused {
                text: copy_str("err unauthorized: send 'auth <token>' first"),
            };
        }
        if word_is(&w, 0, "tenants") {
            let ids = tenant_texts(tenants);
            let mut m = copy_str("ok ");
            m.push_str(join_texts(&ids, " ").as_str());
            return ControlAction::Reply { text: m, persist: false };
        }
        if word_is(&w, 0, "tenant") {
            if w.len() > 1 {
                assert(wv[1] == w@[1]@);
                if let Ok(id) = TenantId::from_str(w[1].as_str()) {
                    self.tenant = tenants.refer(id);
                    let mut m = copy_str("ok tenant ");
                    m.push_str(id.to_string().as_str());
                    return ControlAction::Reply { text: m, persist: true };
                }
            }
            return ControlAction::Reply {
                text: copy_str("err usage: tenant <tenant-hex>"),
                persist: false,
            };
        }
        let current = self.tenant;
        let tenant = tenants.referred_mut(current);
        if word_is(&w, 0, "gc") {
            let h: u64 = match number_at(&w, 1) {
                Some(h) => h,
                None => return ControlAction::Reply {
                    text: copy_str("err usage: gc <horizon-lsn>"),
                    persist: false,
                },
            };
            let ghost t = tenant@;
            let stats = tenant.gc(Lsn(h));
            let (dropped, replaced) = collection_totals(&stats, Ghost(t), Ghost(Lsn(h)));
            return ControlAction::Collected {
                horizon: h,
                timelines: stats.len(),
                dropped,
                replaced,
            };
        }
        if word_is(&w, 0, "receive") {
            let usage = copy_str(
                "err usage: receive <timeline-hex> <safekeeper-host:port> <start-lsn>",
            );
            return match (timeline_at(&w, 1), number_at(&w, 3)) {
                (Some(timeline), Some(start_lsn)) => if !addr_ok {
                    ControlAction::Reply { text: usage, persist: false }
                } else if tenant.get_timeline(timeline).is_none() {
                    let mut m = copy_str("err unknown timeline ");
                    m.push_str(timeline.to_string().as_str());
                    ControlAction::Reply { text: m, persist: false }
                } else {
                    ControlAction::Receive { tenant: current, timeline, start_lsn }
                },
                _ => ControlAction::Reply { text: usage, persist: false },
            };
        }
        let text = exec(tenant, line);
        let topology = word_is(&w, 0, "create") || word_is(&w, 0, "branch");
        let persist = topology && starts_ok(text.as_str());
        ControlAction::Reply { text, persist }
    }
}

} // verus!
