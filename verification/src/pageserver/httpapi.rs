//! The HTTP/JSON control-plane API of the pageserver.
//!
//! The same tenant operations as the line protocol in
//! [`control`](crate::pageserver::control), over HTTP. Routes:
//!
//! * `GET  /healthz`: liveness; open to all.
//! * `GET  /v1/tenants`: list tenant ids.
//! * `POST /v1/tenants`: `{ "id" }`, create a tenant.
//! * `GET  /v1/timelines`: list timeline ids (`?tenant=<hex>`).
//! * `POST /v1/timelines`: `{ "id" }`, create a root timeline.
//! * `POST /v1/branches`: `{ "timeline", "parent", "lsn" }`, branch.
//! * `POST /v1/timelines/receive`: `{ "timeline", "safekeeper", "start_lsn" }`,
//!   stream WAL into a timeline.
//! * `POST /v1/gc`: `{ "horizon_lsn" }`, compact every timeline.
//!
//! Every `/v1` operation acts on a tenant: bodies take an optional `"tenant"`,
//! `GET`s a `?tenant=`; without it, the all-zero tenant. Tenants are provisioned
//! on first reference. Where a token is configured, everything but `/healthz`
//! needs an `Authorization: Bearer <token>` header.

use vstd::prelude::*;
use vstd::utf8::encode_utf8;

use crate::bytes::{copy_range, put_slice, same_bytes};
use crate::common::ids::{
    id_text, lemma_tenant_id_of, tenant_id_named, tenant_id_of, timeline_id_named, TenantId,
    TimelineId,
};
use crate::common::lsn::Lsn;
use crate::json::{
    json_text, json_texts, json_uint, texts_list, uint, Fields, Json, JsonV,
};
use crate::pageserver::control::{
    collection_totals, layers_replaced, reported_drops, tenant_list, tenant_texts, timeline_list,
    timeline_texts,
};
use crate::pageserver::layer::LayerId;
use crate::pageserver::tenant::{
    branched, collected, created, number_of, tenant_error_text, Tenant, TenantV,
};
use crate::pageserver::tenant_manager::{
    manager_error_text, place_of, provisioned, with_tenant, ManagerV, TenantManager,
    TenantManagerError,
};
use crate::pageserver::walredo::WalRedoManager;
use crate::text::{
    chars_of, copy_str, decimal, digits_round_trip, has_prefix, is_digit_char, is_space,
    lemma_position_at, lines, lines_of, lower, lower_char, parse_uint, pieces_of, push_decimal, read_text,
    read_uint, same_chars, same_text, split_on, split_once, split_once_at, starts_with, string_of,
    text_lossy, texts, to_lower, trim, trim_start, trimmed, words, words_of,
};

verus! {

// ---------------------------------------------------------------------------
// Reading a request
// ---------------------------------------------------------------------------

/// Where `needle` first stands in `haystack` from `i` on.
pub open spec fn found_from(haystack: Seq<u8>, needle: Seq<u8>, i: int) -> Option<int>
    decreases haystack.len() - i,
{
    if i < 0 || i + needle.len() > haystack.len() || i >= haystack.len() {
        None
    } else if haystack.subrange(i, i + needle.len()) == needle {
        Some(i)
    } else {
        found_from(haystack, needle, i + 1)
    }
}

/// Where `needle` first stands in `haystack`.
pub fn find_subsequence(haystack: &[u8], needle: &[u8]) -> (r: Option<usize>)
    requires
        needle@.len() > 0,
    ensures
        match r {
            Some(p) => found_from(haystack@, needle@, 0) == Some(p as int) && p + needle@.len()
                <= haystack@.len(),
            None => found_from(haystack@, needle@, 0) is None,
        },
{
    if haystack.len() < needle.len() {
        return None;
    }
    let last: usize = haystack.len() - needle.len();
    let mut i: usize = 0;
    while i <= last
        invariant
            needle@.len() > 0,
            last == haystack@.len() - needle@.len(),
            haystack@.len() <= usize::MAX,
            i <= last + 1,
            found_from(haystack@, needle@, 0) == found_from(haystack@, needle@, i as int),
        decreases last + 1 - i,
    {
        let part = vstd::slice::slice_subrange(haystack, i, i + needle.len());
        if same_bytes(part, needle) {
            return Some(i);
        }
        i += 1;
    }
    None
}

/// What a request's head says.
pub struct RequestHead {
    pub method: String,
    pub path: String,
    /// The length of the body.
    pub length: usize,
    /// The `Authorization` header.
    pub authorization: Option<String>,
}

/// What a [`RequestHead`] holds.
pub struct HeadV {
    pub method: Seq<char>,
    pub path: Seq<char>,
    pub length: usize,
    pub authorization: Option<Seq<char>>,
}

impl View for RequestHead {
    type V = HeadV;

    open spec fn view(&self) -> HeadV {
        HeadV {
            method: self.method@,
            path: self.path@,
            length: self.length,
            authorization: match self.authorization {
                Some(a) => Some(a@),
                None => None,
            },
        }
    }
}

/// The value of a header line, where the line is of the header `name`.
pub open spec fn header_value(line: Seq<char>, name: Seq<char>) -> Option<Seq<char>> {
    match split_once(line, ':') {
        Some((k, v)) => if lower(trim(k)) == name {
            Some(trim(v))
        } else {
            None
        },
        None => None,
    }
}

/// The length that a header line gives.
pub open spec fn length_value(line: Seq<char>) -> Option<usize> {
    match header_value(line, "content-length"@) {
        Some(v) => match parse_uint(v, 10, usize::MAX as nat) {
            Ok(n) => Some(n as usize),
            Err(_) => None,
        },
        None => None,
    }
}

/// The first length among the lines from number `i` on, 0 without one.
pub open spec fn length_from(l: Seq<Seq<char>>, i: int) -> usize
    decreases l.len() - i,
{
    if i < 0 || i >= l.len() {
        0
    } else {
        match length_value(l[i]) {
            Some(n) => n,
            None => length_from(l, i + 1),
        }
    }
}

/// The first authorization among the lines from number `i` on.
pub open spec fn authorization_from(l: Seq<Seq<char>>, i: int) -> Option<Seq<char>>
    decreases l.len() - i,
{
    if i < 0 || i >= l.len() {
        None
    } else {
        match header_value(l[i], "authorization"@) {
            Some(v) => Some(v),
            None => authorization_from(l, i + 1),
        }
    }
}

/// Word number `i`, nothing without one.
pub open spec fn word_or_nothing(w: Seq<Seq<char>>, i: int) -> Seq<char> {
    if 0 <= i < w.len() {
        w[i]
    } else {
        Seq::empty()
    }
}

/// What the text of a head says: method and path in the first line, headers in
/// the others.
pub open spec fn parse_head(text: Seq<char>) -> HeadV {
    let l = lines(text);
    HeadV {
        method: word_or_nothing(words(l[0]), 0),
        path: word_or_nothing(words(l[0]), 1),
        length: length_from(l, 1),
        authorization: authorization_from(l, 1),
    }
}

fn value_of_header(line: &str, name: &str) -> (r: Option<Vec<char>>)
    ensures
        match r {
            Some(v) => header_value(line@, name@) == Some(v@),
            None => header_value(line@, name@) is None,
        },
{
    let c = chars_of(line);
    match split_once_at(c.as_slice(), ':') {
        Some((k, v)) => {
            let key = to_lower(trimmed(k));
            let want = chars_of(name);
            if same_chars(key.as_slice(), want.as_slice()) {
                let value = string_of(trimmed(v));
                Some(chars_of(value.as_str()))
            } else {
                None
            }
        },
        None => None,
    }
}

fn word_or_empty(w: &Vec<String>, i: usize) -> (r: String)
    ensures
        r@ == word_or_nothing(texts(w@), i as int),
{
    if i < w.len() {
        copy_str(w[i].as_str())
    } else {
        let r = String::new();
        assert(r@ =~= Seq::empty());
        r
    }
}

/// Read the head of a request.
pub fn read_head(text: &str) -> (r: RequestHead)
    ensures
        r@ == parse_head(text@),
{
    let chars = chars_of(text);
    let l = lines_of(chars.as_slice());
    let ghost lv = lines(text@);
    assert(lv[0] == l@[0]@);
    let first = chars_of(l[0].as_str());
    let w = words_of(first.as_slice());
    let mut length: usize = 0;
    let mut i: usize = 1;
    let mut searching = true;
    while searching && i < l.len()
        invariant
            1 <= i,
            lv == texts(l@),
            searching ==> length == 0 && length_from(lv, 1) == length_from(lv, i as int),
            !searching ==> length == length_from(lv, 1),
        decreases l@.len() - i + (if searching { 1int } else { 0int }),
    {
        assert(lv[i as int] == l@[i as int]@);
        if let Some(v) = value_of_header(l[i].as_str(), "content-length") {
            if let Ok(n) = read_uint(v.as_slice(), 10, usize::MAX as u64) {
                length = n as usize;
                searching = false;
            }
        }
        if searching {
            i += 1;
        }
    }
    let mut authorization: Option<String> = None;
    let mut i: usize = 1;
    while authorization.is_none() && i < l.len()
        invariant
            1 <= i,
            lv == texts(l@),
            authorization is None ==> authorization_from(lv, 1) == authorization_from(lv, i as int),
            authorization matches Some(a) ==> authorization_from(lv, 1) == Some(a@),
        decreases l@.len() - i + (if authorization is None { 1int } else { 0int }),
    {
        assert(lv[i as int] == l@[i as int]@);
        match value_of_header(l[i].as_str(), "authorization") {
            Some(v) => {
                authorization = Some(string_of(v.as_slice()));
            },
            None => {
                i += 1;
            },
        }
    }
    RequestHead { method: word_or_empty(&w, 0), path: word_or_empty(&w, 1), length, authorization }
}

/// A request that is being read.
pub struct RequestReader {
    head: Option<RequestHead>,
    /// The bytes so far, of the head and then of the body.
    buf: Vec<u8>,
}

/// What a [`RequestReader`] holds.
pub struct ReaderV {
    pub head: Option<HeadV>,
    pub buf: Seq<u8>,
}

/// What was read: more is needed, a whole request, or too much.
pub enum ReadStep {
    /// Read on.
    More,
    /// The request's head and body.
    Ready(RequestHead, Vec<u8>),
    /// The head is too large.
    TooLarge,
}

/// What a [`ReadStep`] says.
pub enum ReadStepV {
    More,
    Ready(HeadV, Seq<u8>),
    TooLarge,
}

/// What the end of the connection means.
pub enum ReadEnd {
    /// Nothing was sent.
    Nothing,
    /// The connection ended inside the head.
    Incomplete,
    /// The request, its body perhaps shorter than announced.
    Ready(RequestHead, Vec<u8>),
}

/// What a [`ReadEnd`] says.
pub enum ReadEndV {
    Nothing,
    Incomplete,
    Ready(HeadV, Seq<u8>),
}

impl View for RequestReader {
    type V = ReaderV;

    closed spec fn view(&self) -> ReaderV {
        ReaderV {
            head: match self.head {
                Some(h) => Some(h@),
                None => None,
            },
            buf: self.buf@,
        }
    }
}

impl View for ReadStep {
    type V = ReadStepV;

    open spec fn view(&self) -> ReadStepV {
        match *self {
            ReadStep::More => ReadStepV::More,
            ReadStep::Ready(h, b) => ReadStepV::Ready(h@, b@),
            ReadStep::TooLarge => ReadStepV::TooLarge,
        }
    }
}

impl View for ReadEnd {
    type V = ReadEndV;

    open spec fn view(&self) -> ReadEndV {
        match *self {
            ReadEnd::Nothing => ReadEndV::Nothing,
            ReadEnd::Incomplete => ReadEndV::Incomplete,
            ReadEnd::Ready(h, b) => ReadEndV::Ready(h@, b@),
        }
    }
}

/// Size that a head, with what came with it, must stay below: 1 MiB.
pub const MAX_HEAD: usize = 1048576;

/// The empty line that ends a head.
pub open spec fn head_end() -> Seq<u8> {
    seq![13u8, 10u8, 13u8, 10u8]
}

/// A body of at least the announced length completes the request.
pub open spec fn body_step(head: HeadV, body: Seq<u8>) -> ReadStepV {
    if body.len() >= head.length {
        ReadStepV::Ready(head, body.take(head.length as int))
    } else {
        ReadStepV::More
    }
}

/// The reader after a chunk, and what was read.
pub open spec fn fed(v: ReaderV, chunk: Seq<u8>) -> (ReaderV, ReadStepV) {
    let buf = v.buf + chunk;
    match v.head {
        Some(h) => (ReaderV { head: Some(h), buf }, body_step(h, buf)),
        None => if buf.len() >= MAX_HEAD {
            (ReaderV { head: None, buf }, ReadStepV::TooLarge)
        } else {
            match found_from(buf, head_end(), 0) {
                None => (ReaderV { head: None, buf }, ReadStepV::More),
                Some(p) => {
                    let h = parse_head(read_text(buf.take(p)));
                    let body = buf.skip(p + 4);
                    (ReaderV { head: Some(h), buf: body }, body_step(h, body))
                },
            }
        },
    }
}

/// What the end of the connection means.
pub open spec fn ended(v: ReaderV) -> ReadEndV {
    match v.head {
        Some(h) => ReadEndV::Ready(
            h,
            if v.buf.len() > h.length {
                v.buf.take(h.length as int)
            } else {
                v.buf
            },
        ),
        None => if v.buf.len() == 0 {
            ReadEndV::Nothing
        } else {
            ReadEndV::Incomplete
        },
    }
}

fn copy_head(h: &RequestHead) -> (r: RequestHead)
    ensures
        r@ == h@,
{
    RequestHead {
        method: copy_str(h.method.as_str()),
        path: copy_str(h.path.as_str()),
        length: h.length,
        authorization: match &h.authorization {
            Some(a) => Some(copy_str(a.as_str())),
            None => None,
        },
    }
}

impl RequestReader {
    /// Nothing read yet.
    pub fn new() -> (r: RequestReader)
        ensures
            r@ == (ReaderV { head: None, buf: Seq::empty() }),
    {
        RequestReader { head: None, buf: Vec::new() }
    }

    fn body_ready(&self) -> (r: ReadStep)
        requires
            self@.head is Some,
        ensures
            r@ == body_step(self@.head->0, self@.buf),
    {
        match &self.head {
            Some(h) => if self.buf.len() >= h.length {
                assert(self.buf@.subrange(0, h.length as int) =~= self.buf@.take(h.length as int));
                ReadStep::Ready(copy_head(h), copy_range(self.buf.as_slice(), 0, h.length))
            } else {
                ReadStep::More
            },
            None => ReadStep::More,
        }
    }

    /// Take what was read from the connection.
    pub fn feed(&mut self, chunk: &[u8]) -> (r: ReadStep)
        ensures
            fed(old(self)@, chunk@) == (final(self)@, r@),
    {
        put_slice(&mut self.buf, chunk);
        if self.head.is_some() {
            return self.body_ready();
        }
        if self.buf.len() >= MAX_HEAD {
            return ReadStep::TooLarge;
        }
        let mut end: Vec<u8> = Vec::new();
        end.push(13);
        end.push(10);
        end.push(13);
        end.push(10);
        assert(end@ =~= head_end());
        match find_subsequence(self.buf.as_slice(), end.as_slice()) {
            None => ReadStep::More,
            Some(p) => {
                let ghost buf = self.buf@;
                let head_bytes = copy_range(self.buf.as_slice(), 0, p);
                assert(head_bytes@ =~= buf.take(p as int));
                let body = copy_range(self.buf.as_slice(), p + 4, self.buf.len());
                assert(body@ =~= buf.skip(p + 4));
                let text = text_lossy(head_bytes.as_slice());
                self.head = Some(read_head(text.as_str()));
                self.buf = body;
                self.body_ready()
            },
        }
    }

    /// The connection has ended.
    pub fn finish(self) -> (r: ReadEnd)
        ensures
            r@ == ended(self@),
    {
        match self.head {
            Some(h) => {
                let mut body = self.buf;
                if body.len() > h.length {
                    body.truncate(h.length);
                    assert(body@ =~= self.buf@.take(h.length as int));
                }
                ReadEnd::Ready(h, body)
            },
            None => if self.buf.len() == 0 {
                ReadEnd::Nothing
            } else {
                ReadEnd::Incomplete
            },
        }
    }
}


// ---------------------------------------------------------------------------
// Routing
// ---------------------------------------------------------------------------

/// Body of `POST /v1/tenants`.
pub struct TenantBody {
    pub id: String,
}

/// Body of `POST /v1/timelines`.
pub struct CreateBody {
    pub id: String,
    pub tenant: Option<String>,
}

/// Body of `POST /v1/branches`.
pub struct BranchBody {
    pub timeline: String,
    pub parent: String,
    pub lsn: u64,
    pub tenant: Option<String>,
}

/// Body of `POST /v1/timelines/receive`.
pub struct ReceiveBody {
    pub timeline: String,
    pub safekeeper: String,
    pub start_lsn: u64,
    pub tenant: Option<String>,
}

/// Body of `POST /v1/gc`.
pub struct GcBody {
    pub horizon_lsn: u64,
    pub tenant: Option<String>,
}

/// Which body a route reads.
#[derive(Debug, Clone, Copy, PartialEq, Eq, Structural)]
pub enum BodyKind {
    /// None: the body is ignored.
    Unread,
    /// A [`TenantBody`].
    Tenant,
    /// A [`CreateBody`].
    Create,
    /// A [`BranchBody`].
    Branch,
    /// A [`ReceiveBody`].
    Receive,
    /// A [`GcBody`].
    Gc,
}

/// A request's body, read as its route wants it.
pub enum RouteBody {
    /// It was not read.
    Unread,
    /// It is not what the route wants; why.
    Invalid(String),
    Tenant(TenantBody),
    Create(CreateBody),
    Branch(BranchBody),
    Receive(ReceiveBody),
    Gc(GcBody),
}

/// What a [`RouteBody`] holds.
pub enum RouteBodyV {
    Unread,
    Invalid(Seq<char>),
    Tenant { id: Seq<char> },
    Create { id: Seq<char>, tenant: Option<Seq<char>> },
    Branch { timeline: Seq<char>, parent: Seq<char>, lsn: u64, tenant: Option<Seq<char>> },
    Receive {
        timeline: Seq<char>,
        safekeeper: Seq<char>,
        start_lsn: u64,
        tenant: Option<Seq<char>>,
    },
    Gc { horizon_lsn: u64, tenant: Option<Seq<char>> },
}

/// The text of an optional string.
pub open spec fn owned_text(t: Option<String>) -> Option<Seq<char>> {
    match t {
        Some(t) => Some(t@),
        None => None,
    }
}

impl View for RouteBody {
    type V = RouteBodyV;

    open spec fn view(&self) -> RouteBodyV {
        match *self {
            RouteBody::Unread => RouteBodyV::Unread,
            RouteBody::Invalid(e) => RouteBodyV::Invalid(e@),
            RouteBody::Tenant(b) => RouteBodyV::Tenant { id: b.id@ },
            RouteBody::Create(b) => RouteBodyV::Create { id: b.id@, tenant: owned_text(b.tenant) },
            RouteBody::Branch(b) => RouteBodyV::Branch {
                timeline: b.timeline@,
                parent: b.parent@,
                lsn: b.lsn,
                tenant: owned_text(b.tenant),
            },
            RouteBody::Receive(b) => RouteBodyV::Receive {
                timeline: b.timeline@,
                safekeeper: b.safekeeper@,
                start_lsn: b.start_lsn,
                tenant: owned_text(b.tenant),
            },
            RouteBody::Gc(b) => RouteBodyV::Gc {
                horizon_lsn: b.horizon_lsn,
                tenant: owned_text(b.tenant),
            },
        }
    }
}

/// Which body the route of a request reads.
pub open spec fn kind_of_body(method: Seq<char>, path: Seq<char>) -> BodyKind {
    if method != "POST"@ {
        BodyKind::Unread
    } else if path == "/v1/tenants"@ {
        BodyKind::Tenant
    } else if path == "/v1/timelines"@ {
        BodyKind::Create
    } else if path == "/v1/branches"@ {
        BodyKind::Branch
    } else if path == "/v1/timelines/receive"@ {
        BodyKind::Receive
    } else if path == "/v1/gc"@ {
        BodyKind::Gc
    } else {
        BodyKind::Unread
    }
}

/// The body was read as the route wants it, or found to be something else.
pub open spec fn body_fits(kind: BodyKind, body: RouteBodyV) -> bool {
    match kind {
        BodyKind::Unread => true,
        BodyKind::Tenant => body is Tenant || body is Invalid,
        BodyKind::Create => body is Create || body is Invalid,
        BodyKind::Branch => body is Branch || body is Invalid,
        BodyKind::Receive => body is Receive || body is Invalid,
        BodyKind::Gc => body is Gc || body is Invalid,
    }
}

/// What is left to do for a request.
pub enum RouteStep {
    /// Answer.
    Reply(u16, Json),
    /// Connect to the safekeeper and stream WAL into the timeline; answer
    /// [`receiving`], or [`not_connected`].
    Connect { tenant: TenantId, timeline: TimelineId, safekeeper: String, start_lsn: u64 },
    /// A collection was made: delete the replaced layers' objects, where there
    /// is an object store, and answer [`gc_done`].
    Collected { horizon_lsn: u64, timelines: usize, dropped: u64, replaced: Vec<LayerId> },
}

/// What a [`RouteStep`] says.
pub enum RouteStepV {
    Reply(u16, JsonV),
    Connect { tenant: TenantId, timeline: TimelineId, safekeeper: Seq<char>, start_lsn: u64 },
    Collected { horizon_lsn: u64, timelines: int, dropped: u64, replaced: Seq<LayerId> },
}

impl View for RouteStep {
    type V = RouteStepV;

    open spec fn view(&self) -> RouteStepV {
        match *self {
            RouteStep::Reply(s, j) => RouteStepV::Reply(s, j@),
            RouteStep::Connect { tenant, timeline, safekeeper, start_lsn } => RouteStepV::Connect {
                tenant,
                timeline,
                safekeeper: safekeeper@,
                start_lsn,
            },
            RouteStep::Collected { horizon_lsn, timelines, dropped, replaced } => RouteStepV::Collected {
                horizon_lsn,
                timelines: timelines as int,
                dropped,
                replaced: replaced@,
            },
        }
    }
}

/// An object of one field.
pub open spec fn one_field(key: Seq<char>, value: JsonV) -> JsonV {
    JsonV::Object(seq![(key, value)])
}

/// An error answer.
pub open spec fn err_reply(status: u16, msg: Seq<char>) -> RouteStepV {
    RouteStepV::Reply(status, one_field("error"@, JsonV::Text(msg)))
}

/// The all-zero tenant.
pub open spec fn zero_tenant() -> TenantId {
    tenant_id_of(Seq::new(16, |i: int| 0u8))
}

/// The tenant that an optional text names, the all-zero one without a text.
pub open spec fn tenant_named_by(raw: Option<Seq<char>>) -> Option<TenantId> {
    match raw {
        None => Some(zero_tenant()),
        Some(t) => tenant_id_named(t),
    }
}

/// The first piece from number `i` on that starts with `tenant=`, without that.
pub open spec fn tenant_piece(p: Seq<Seq<char>>, i: int) -> Option<Seq<char>>
    decreases p.len() - i,
{
    if i < 0 || i >= p.len() {
        None
    } else if starts_with(p[i], "tenant="@) {
        Some(p[i].skip("tenant="@.len() as int))
    } else {
        tenant_piece(p, i + 1)
    }
}

/// The `tenant` parameter of a query string.
pub open spec fn tenant_in_query(query: Seq<char>) -> Option<Seq<char>> {
    tenant_piece(split_on(query, '&'), 0)
}

/// An operation on one tenant: what it does to the tenant, and what is left to
/// do.
pub open spec fn tenant_op(id: TenantId, t: TenantV, body: RouteBodyV, addr_ok: bool) -> (
    TenantV,
    RouteStepV,
) {
    match body {
        RouteBodyV::Create { id: text, tenant } => match timeline_id_named(text) {
            None => (t, err_reply(400, "id must be 32 hex chars"@)),
            Some(x) => match created(t, x) {
                Ok(now) => (
                    now,
                    RouteStepV::Reply(
                        201,
                        one_field("created"@, JsonV::Text(id_text(x@))),
                    ),
                ),
                Err(e) => (t, err_reply(409, tenant_error_text(e))),
            },
        },
        RouteBodyV::Branch { timeline, parent, lsn, tenant } => match (
            timeline_id_named(timeline),
            timeline_id_named(parent),
        ) {
            (Some(n), Some(p)) => match branched(t, n, p, Lsn(lsn)) {
                Ok(now) => (
                    now,
                    RouteStepV::Reply(
                        201,
                        JsonV::Object(
                            seq![
                                ("branched"@, JsonV::Text(id_text(n@))),
                                ("parent"@, JsonV::Text(id_text(p@))),
                                ("lsn"@, uint(lsn)),
                            ],
                        ),
                    ),
                ),
                Err(e) => (t, err_reply(409, tenant_error_text(e))),
            },
            _ => (t, err_reply(400, "timeline and parent must be 32 hex chars"@)),
        },
        RouteBodyV::Receive { timeline, safekeeper, start_lsn, tenant } => match timeline_id_named(
            timeline,
        ) {
            None => (t, err_reply(400, "timeline must be 32 hex chars"@)),
            Some(x) => if !addr_ok {
                (t, err_reply(400, "safekeeper must be host:port"@))
            } else if number_of(t.timelines, x) < 0 {
                (t, err_reply(404, "unknown timeline "@ + id_text(x@)))
            } else {
                (t, RouteStepV::Connect { tenant: id, timeline: x, safekeeper, start_lsn })
            },
        },
        RouteBodyV::Gc { horizon_lsn, tenant } => (
            collected(t, Lsn(horizon_lsn)),
            RouteStepV::Collected {
                horizon_lsn,
                timelines: t.timelines.len() as int,
                dropped: reported_drops(t, Lsn(horizon_lsn)) as u64,
                replaced: layers_replaced(t.timelines, t.timelines.len() as int),
            },
        ),
        _ => (
            t,
            RouteStepV::Reply(
                200,
                one_field("timelines"@, texts_list(timeline_list(t.timelines))),
            ),
        ),
    }
}

/// The tenant that a body names.
pub open spec fn body_tenant(body: RouteBodyV) -> Option<Seq<char>> {
    match body {
        RouteBodyV::Create { id, tenant } => tenant,
        RouteBodyV::Branch { timeline, parent, lsn, tenant } => tenant,
        RouteBodyV::Receive { timeline, safekeeper, start_lsn, tenant } => tenant,
        RouteBodyV::Gc { horizon_lsn, tenant } => tenant,
        _ => None,
    }
}

/// An operation on the tenant that `raw` names, provisioned on first reference.
pub open spec fn on_tenant(
    m: ManagerV,
    raw: Option<Seq<char>>,
    body: RouteBodyV,
    addr_ok: bool,
) -> (ManagerV, RouteStepV) {
    match tenant_named_by(raw) {
        None => (m, err_reply(400, "tenant must be 32 hex chars"@)),
        Some(id) => {
            let p = provisioned(m, id);
            let n = place_of(p.tenants, id);
            let (now, step) = tenant_op(id, p.tenants[n].tenant, body, addr_ok);
            (with_tenant(p, n, now), step)
        },
    }
}

/// What a request does to the tenants, and what is left to do.
pub open spec fn routed(
    m: ManagerV,
    method: Seq<char>,
    path: Seq<char>,
    query: Seq<char>,
    body: RouteBodyV,
    addr_ok: bool,
) -> (ManagerV, RouteStepV) {
    if method == "GET"@ && path == "/healthz"@ {
        (m, RouteStepV::Reply(200, one_field("status"@, JsonV::Text("ok"@))))
    } else if method == "GET"@ && path == "/v1/tenants"@ {
        (m, RouteStepV::Reply(200, one_field("tenants"@, texts_list(tenant_list(m.tenants)))))
    } else if method == "GET"@ && path == "/v1/timelines"@ {
        on_tenant(m, tenant_in_query(query), RouteBodyV::Unread, addr_ok)
    } else if kind_of_body(method, path) == BodyKind::Unread {
        (m, err_reply(404, "not found"@))
    } else {
        match body {
            RouteBodyV::Invalid(e) => (m, err_reply(400, "invalid body: "@ + e)),
            RouteBodyV::Tenant { id } => match tenant_id_named(id) {
                None => (m, err_reply(400, "id must be 32 hex chars"@)),
                Some(x) => if place_of(m.tenants, x) >= 0 {
                    (
                        m,
                        err_reply(409, manager_error_text(TenantManagerError::AlreadyExists(x))),
                    )
                } else {
                    (
                        provisioned(m, x),
                        RouteStepV::Reply(201, one_field("created"@, JsonV::Text(id_text(x@)))),
                    )
                },
            },
            _ => on_tenant(m, body_tenant(body), body, addr_ok),
        }
    }
}

/// Which body the route of a request reads.
pub fn body_kind(method: &str, path: &str) -> (r: BodyKind)
    ensures
        r == kind_of_body(method@, path@),
{
    if !same_text(method, "POST") {
        BodyKind::Unread
    } else if same_text(path, "/v1/tenants") {
        BodyKind::Tenant
    } else if same_text(path, "/v1/timelines") {
        BodyKind::Create
    } else if same_text(path, "/v1/branches") {
        BodyKind::Branch
    } else if same_text(path, "/v1/timelines/receive") {
        BodyKind::Receive
    } else if same_text(path, "/v1/gc") {
        BodyKind::Gc
    } else {
        BodyKind::Unread
    }
}

fn json_field(key: &str, value: Json) -> (j: Json)
    ensures
        j@ == one_field(key@, value@),
{
    let ghost v = value@;
    let mut f = Fields::new();
    f.put(key, value);
    assert(f@ =~= seq![(key@, v)]);
    f.done()
}

fn err(status: u16, msg: &str) -> (r: RouteStep)
    ensures
        r@ == err_reply(status, msg@),
{
    RouteStep::Reply(status, json_field("error", json_text(msg)))
}

/// Read the `tenant` parameter from a query string, if present.
pub fn query_tenant(query: &str) -> (r: Option<String>)
    ensures
        owned_text(r) == tenant_in_query(query@),
{
    let c = chars_of(query);
    let p = pieces_of(c.as_slice(), '&');
    let ghost pv = split_on(query@, '&');
    let key = chars_of("tenant=");
    let mut i: usize = 0;
    while i < p.len()
        invariant
            i <= p@.len(),
            pv == texts(p@),
            pv == split_on(query@, '&'),
            key@ == "tenant="@,
            tenant_piece(pv, 0) == tenant_piece(pv, i as int),
        decreases p@.len() - i,
    {
        assert(pv[i as int] == p@[i as int]@);
        let piece = chars_of(p[i].as_str());
        if has_prefix(piece.as_slice(), key.as_slice()) {
            let rest = vstd::slice::slice_subrange(piece.as_slice(), key.len(), piece.len());
            assert(rest@ =~= piece@.skip(key@.len() as int));
            return Some(string_of(rest));
        }
        i += 1;
    }
    None
}

/// The tenant that an optional text names, the all-zero one without a text.
pub fn resolve_tenant(raw: &Option<String>) -> (r: Option<TenantId>)
    ensures
        r == tenant_named_by(owned_text(*raw)),
{
    match raw {
        None => {
            let id = TenantId::zero();
            proof {
                lemma_tenant_id_of(id);
            }
            Some(id)
        },
        Some(s) => match TenantId::from_str(s.as_str()) {
            Ok(id) => Some(id),
            Err(_) => None,
        },
    }
}

fn run_tenant_op<R: WalRedoManager>(
    id: TenantId,
    tenant: &mut Tenant<R>,
    body: &RouteBody,
    addr_ok: bool,
) -> (r: RouteStep)
    requires
        old(tenant).wf(),
    ensures
        final(tenant).wf(),
        final(tenant).backend() == old(tenant).backend(),
        tenant_op(id, old(tenant)@, body@, addr_ok) == (final(tenant)@, r@),
{
    match body {
        RouteBody::Create(b) => {
            let x = match TimelineId::from_str(b.id.as_str()) {
                Ok(x) => x,
                Err(_) => return err(400, "id must be 32 hex chars"),
            };
            match tenant.create_timeline(x) {
                Ok(()) => RouteStep::Reply(
                    201,
                    json_field("created", json_text(x.to_string().as_str())),
                ),
                Err(e) => err(409, e.to_string().as_str()),
            }
        },
        RouteBody::Branch(b) => {
            let (n, p) = match (
                TimelineId::from_str(b.timeline.as_str()),
                TimelineId::from_str(b.parent.as_str()),
            ) {
                (Ok(n), Ok(p)) => (n, p),
                _ => return err(400, "timeline and parent must be 32 hex chars"),
            };
            match tenant.branch_timeline(n, p, Lsn(b.lsn)) {
                Ok(()) => {
                    let mut f = Fields::new();
                    f.put("branched", json_text(n.to_string().as_str()));
                    f.put("parent", json_text(p.to_string().as_str()));
                    f.put("lsn", json_uint(b.lsn));
                    assert(f@ =~= seq![
                        ("branched"@, JsonV::Text(id_text(n@))),
                        ("parent"@, JsonV::Text(id_text(p@))),
                        ("lsn"@, uint(b.lsn)),
                    ]);
                    RouteStep::Reply(201, f.done())
                },
                Err(e) => err(409, e.to_string().as_str()),
            }
        },
        RouteBody::Receive(b) => {
            let x = match TimelineId::from_str(b.timeline.as_str()) {
                Ok(x) => x,
                Err(_) => return err(400, "timeline must be 32 hex chars"),
            };
            if !addr_ok {
                return err(400, "safekeeper must be host:port");
            }
            if tenant.get_timeline(x).is_none() {
                let mut m = copy_str("unknown timeline ");
                m.push_str(x.to_string().as_str());
                return err(404, m.as_str());
            }
            RouteStep::Connect {
                tenant: id,
                timeline: x,
                safekeeper: copy_str(b.safekeeper.as_str()),
                start_lsn: b.start_lsn,
            }
        },
        RouteBody::Gc(b) => {
            let ghost t = tenant@;
            let stats = tenant.gc(Lsn(b.horizon_lsn));
            let (dropped, replaced) = collection_totals(
                &stats,
                Ghost(t),
                Ghost(Lsn(b.horizon_lsn)),
            );
            RouteStep::Collected {
                horizon_lsn: b.horizon_lsn,
                timelines: stats.len(),
                dropped,
                replaced,
            }
        },
        _ => {
            let ids = timeline_texts(tenant);
            RouteStep::Reply(200, json_field("timelines", json_texts(&ids)))
        },
    }
}

fn run_on_tenant<R: WalRedoManager>(
    tenants: &mut TenantManager<R>,
    raw: &Option<String>,
    body: &RouteBody,
    addr_ok: bool,
) -> (r: RouteStep)
    requires
        old(tenants).wf(),
    ensures
        final(tenants).wf(),
        final(tenants).backend() == old(tenants).backend(),
        on_tenant(old(tenants)@, owned_text(*raw), body@, addr_ok) == (
            final(tenants)@,
            r@,
        ),
{
    let id = match resolve_tenant(raw) {
        Some(id) => id,
        None => return err(400, "tenant must be 32 hex chars"),
    };
    let tenant = tenants.get_or_create(id);
    run_tenant_op(id, tenant, body, addr_ok)
}

/// Decide a request. `body` is the body read as [`body_kind`] says; `addr_ok`
/// says whether the body's safekeeper is a socket address.
pub fn route<R: WalRedoManager>(
    tenants: &mut TenantManager<R>,
    method: &str,
    path: &str,
    query: &str,
    body: &RouteBody,
    addr_ok: bool,
) -> (r: RouteStep)
    requires
        old(tenants).wf(),
        body_fits(kind_of_body(method@, path@), body@),
    ensures
        final(tenants).wf(),
        final(tenants).backend() == old(tenants).backend(),
        routed(old(tenants)@, method@, path@, query@, body@, addr_ok) == (final(tenants)@, r@),
{
    let get = same_text(method, "GET");
    if get && same_text(path, "/healthz") {
        return RouteStep::Reply(200, json_field("status", json_text("ok")));
    }
    if get && same_text(path, "/v1/tenants") {
        let ids = tenant_texts(tenants);
        return RouteStep::Reply(200, json_field("tenants", json_texts(&ids)));
    }
    if get && same_text(path, "/v1/timelines") {
        let raw = query_tenant(query);
        return run_on_tenant(tenants, &raw, &RouteBody::Unread, addr_ok);
    }
    if body_kind(method, path) == BodyKind::Unread {
        return err(404, "not found");
    }
    match body {
        RouteBody::Invalid(e) => {
            let mut m = copy_str("invalid body: ");
            m.push_str(e.as_str());
            err(400, m.as_str())
        },
        RouteBody::Tenant(b) => {
            let x = match TenantId::from_str(b.id.as_str()) {
                Ok(x) => x,
                Err(_) => return err(400, "id must be 32 hex chars"),
            };
            match tenants.create(x) {
                Ok(()) => RouteStep::Reply(
                    201,
                    json_field("created", json_text(x.to_string().as_str())),
                ),
                Err(e) => err(409, e.to_string().as_str()),
            }
        },
        RouteBody::Create(b) => run_on_tenant(tenants, &b.tenant, body, addr_ok),
        RouteBody::Branch(b) => run_on_tenant(tenants, &b.tenant, body, addr_ok),
        RouteBody::Receive(b) => run_on_tenant(tenants, &b.tenant, body, addr_ok),
        RouteBody::Gc(b) => run_on_tenant(tenants, &b.tenant, body, addr_ok),
        RouteBody::Unread => err(404, "not found"),
    }
}


// ---------------------------------------------------------------------------
// Answering
// ---------------------------------------------------------------------------

/// Whether a request may be served: `/healthz` always, everything else where no
/// token is configured or the request bears it.
pub open spec fn may_serve(
    path: Seq<char>,
    token: Option<Seq<char>>,
    authorization: Option<Seq<char>>,
) -> bool {
    path == "/healthz"@ || match token {
        None => true,
        Some(t) => authorization == Some("Bearer "@ + t),
    }
}

/// The path and the query of a request target.
pub open spec fn target_parts(raw: Seq<char>) -> (Seq<char>, Seq<char>) {
    match split_once(raw, '?') {
        Some(p) => p,
        None => (raw, ""@),
    }
}

/// What a request does to the tenants, and what is left to do, once it is known
/// whether it may be served.
pub open spec fn served(
    m: ManagerV,
    token: Option<Seq<char>>,
    head: HeadV,
    body: RouteBodyV,
    addr_ok: bool,
) -> (ManagerV, RouteStepV) {
    let (path, query) = target_parts(head.path);
    if may_serve(path, token, head.authorization) {
        routed(m, head.method, path, query, body, addr_ok)
    } else {
        (m, err_reply(401, "unauthorized"@))
    }
}

/// The path of a request target, without its query.
pub fn target_path(raw: &str) -> (r: String)
    ensures
        r@ == target_parts(raw@).0,
{
    let c = chars_of(raw);
    match split_once_at(c.as_slice(), '?') {
        Some((path, _query)) => string_of(path),
        None => copy_str(raw),
    }
}

fn target_query(raw: &str) -> (r: String)
    ensures
        r@ == target_parts(raw@).1,
{
    let c = chars_of(raw);
    match split_once_at(c.as_slice(), '?') {
        Some((_path, query)) => string_of(query),
        None => copy_str(""),
    }
}

/// Whether a request may be served.
pub fn authorized(path: &str, token: Option<&str>, authorization: &Option<String>) -> (r: bool)
    ensures
        r == may_serve(
            path@,
            crate::pageserver::control::optional_text(token),
            owned_text(*authorization),
        ),
{
    if same_text(path, "/healthz") {
        return true;
    }
    match token {
        None => true,
        Some(t) => {
            let mut want = copy_str("Bearer ");
            want.push_str(t);
            match authorization {
                Some(a) => same_text(a.as_str(), want.as_str()),
                None => false,
            }
        },
    }
}

/// Decide a whole request: whether it may be served, and what it does.
pub fn handle_request<R: WalRedoManager>(
    tenants: &mut TenantManager<R>,
    token: Option<&str>,
    head: &RequestHead,
    body: &RouteBody,
    addr_ok: bool,
) -> (r: RouteStep)
    requires
        old(tenants).wf(),
        body_fits(kind_of_body(head@.method, target_parts(head@.path).0), body@),
    ensures
        final(tenants).wf(),
        final(tenants).backend() == old(tenants).backend(),
        served(
            old(tenants)@,
            crate::pageserver::control::optional_text(token),
            head@,
            body@,
            addr_ok,
        ) == (final(tenants)@, r@),
{
    let path = target_path(head.path.as_str());
    let query = target_query(head.path.as_str());
    if !authorized(path.as_str(), token, &head.authorization) {
        return err(401, "unauthorized");
    }
    route(tenants, head.method.as_str(), path.as_str(), query.as_str(), body, addr_ok)
}

/// A request that may not be served changes nothing and is answered 401.
pub proof fn refused_requests_change_nothing(
    m: ManagerV,
    token: Option<Seq<char>>,
    head: HeadV,
    body: RouteBodyV,
    addr_ok: bool,
)
    requires
        !may_serve(target_parts(head.path).0, token, head.authorization),
    ensures
        served(m, token, head, body, addr_ok) == (m, err_reply(401, "unauthorized"@)),
{
}

/// The answer once WAL is streaming.
pub fn receiving(timeline: TimelineId, safekeeper: &str) -> (r: RouteStep)
    ensures
        r@ == RouteStepV::Reply(
            200,
            JsonV::Object(
                seq![
                    ("receiving"@, JsonV::Text(id_text(timeline@))),
                    ("from"@, JsonV::Text(safekeeper@)),
                ],
            ),
        ),
{
    let mut f = Fields::new();
    f.put("receiving", json_text(timeline.to_string().as_str()));
    f.put("from", json_text(safekeeper));
    assert(f@ =~= seq![
        ("receiving"@, JsonV::Text(id_text(timeline@))),
        ("from"@, JsonV::Text(safekeeper@)),
    ]);
    RouteStep::Reply(200, f.done())
}

/// The answer where the safekeeper cannot be reached.
pub fn not_connected(why: &str) -> (r: RouteStep)
    ensures
        r@ == err_reply(502, "connecting to safekeeper: "@ + why@),
{
    let mut m = copy_str("connecting to safekeeper: ");
    m.push_str(why);
    err(502, m.as_str())
}

/// The answer to a collection.
pub fn gc_done(horizon_lsn: u64, timelines: usize, dropped: u64, objects_deleted: usize) -> (r:
    RouteStep)
    ensures
        r@ == RouteStepV::Reply(
            200,
            JsonV::Object(
                seq![
                    ("horizon_lsn"@, uint(horizon_lsn)),
                    ("timelines"@, uint(timelines as u64)),
                    ("versions_removed"@, uint(dropped)),
                    ("objects_deleted"@, uint(objects_deleted as u64)),
                ],
            ),
        ),
{
    let mut f = Fields::new();
    f.put("horizon_lsn", json_uint(horizon_lsn));
    f.put("timelines", json_uint(timelines as u64));
    f.put("versions_removed", json_uint(dropped));
    f.put("objects_deleted", json_uint(objects_deleted as u64));
    assert(f@ =~= seq![
        ("horizon_lsn"@, uint(horizon_lsn)),
        ("timelines"@, uint(timelines as u64)),
        ("versions_removed"@, uint(dropped)),
        ("objects_deleted"@, uint(objects_deleted as u64)),
    ]);
    RouteStep::Reply(200, f.done())
}

/// A topology was changed by a request answered with this status.
pub fn changes_topology(status: u16) -> (r: bool)
    ensures
        r == (status == 201),
{
    status == 201
}

/// The wire form of an answer.
pub open spec fn response_text(status: u16, json: Seq<char>) -> Seq<char> {
    "HTTP/1.1 "@ + decimal(status as nat) + " "@ + (if 200 <= status < 300 {
        "OK"@
    } else {
        "Error"@
    }) + "\r\nContent-Type: application/json\r\nContent-Length: "@ + decimal(
        encode_utf8(json).len(),
    ) + "\r\nConnection: close\r\n\r\n"@ + json
}

/// Write out an answer.
pub fn http_response(status: u16, json: &str) -> (r: String)
    ensures
        r@ == response_text(status, json@),
{
    let mut m = copy_str("HTTP/1.1 ");
    push_decimal(&mut m, status as u64);
    m.push_str(" ");
    if 200 <= status && status < 300 {
        m.push_str("OK");
    } else {
        m.push_str("Error");
    }
    m.push_str("\r\nContent-Type: application/json\r\nContent-Length: ");
    let n: usize = json.as_bytes().len();
    push_decimal(&mut m, n as u64);
    m.push_str("\r\nConnection: close\r\n\r\n");
    m.push_str(json);
    m
}

/// The first place at which the needle stands is found, and nothing where it stands
/// nowhere.
pub proof fn the_first_place_is_found(haystack: Seq<u8>, needle: Seq<u8>, i: int)
    requires
        needle.len() > 0,
        0 <= i,
    ensures
        match found_from(haystack, needle, i) {
            Some(p) => {
                &&& i <= p
                &&& p + needle.len() <= haystack.len()
                &&& haystack.subrange(p, p + needle.len()) == needle
                &&& forall|q: int|
                    i <= q < p ==> #[trigger] haystack.subrange(q, q + needle.len()) != needle
            },
            None => forall|q: int|
                i <= q && q + needle.len() <= haystack.len() ==> #[trigger] haystack.subrange(
                    q,
                    q + needle.len(),
                ) != needle,
        },
    decreases haystack.len() - i,
{
    if i + needle.len() <= haystack.len() && haystack.subrange(i, i + needle.len()) != needle {
        the_first_place_is_found(haystack, needle, i + 1);
    }
}

/// What was found stays found when more comes behind.
proof fn lemma_found_extends(a: Seq<u8>, b: Seq<u8>, needle: Seq<u8>)
    requires
        needle.len() > 0,
        found_from(a, needle, 0) is Some,
    ensures
        found_from(a + b, needle, 0) == found_from(a, needle, 0),
{
    let s = a + b;
    the_first_place_is_found(a, needle, 0);
    the_first_place_is_found(s, needle, 0);
    let p = found_from(a, needle, 0)->0;
    assert(s.subrange(p, p + needle.len()) =~= a.subrange(p, p + needle.len()));
    match found_from(s, needle, 0) {
        Some(q) => {
            if q < p {
                assert(s.subrange(q, q + needle.len()) =~= a.subrange(q, q + needle.len()));
            } else if p < q {
                assert(s.subrange(p, p + needle.len()) != needle);
            }
        },
        None => {
            assert(s.subrange(p, p + needle.len()) != needle);
        },
    }
}

/// How a request is cut into pieces makes no difference: where the first piece is not the
/// whole request, the second completes it as both at once do, and leaves the reader the
/// same.
pub proof fn pieces_make_one_request(v: ReaderV, a: Seq<u8>, b: Seq<u8>)
    requires
        v.head is None ==> (v.buf + a + b).len() < MAX_HEAD,
        fed(v, a).1 is More,
    ensures
        fed(fed(v, a).0, b) == fed(v, a + b),
{
    assert(v.buf + (a + b) =~= (v.buf + a) + b);
    if v.head is None {
        let buf = v.buf + a;
        if found_from(buf, head_end(), 0) is Some {
            let p = found_from(buf, head_end(), 0)->0;
            the_first_place_is_found(buf, head_end(), 0);
            lemma_found_extends(buf, b, head_end());
            assert((buf + b).take(p) =~= buf.take(p));
            assert((buf + b).skip(p + 4) =~= buf.skip(p + 4) + b);
        }
    }
}

/// A request is its head, up to the first empty line, and as many bytes behind it as the
/// head announces; what comes behind those is not part of it.
pub proof fn requests_are_head_and_body(
    head: Seq<u8>,
    end: Seq<u8>,
    body: Seq<u8>,
    behind: Seq<u8>,
)
    requires
        end == seq![13u8, 10u8, 13u8, 10u8],
        forall|q: int| 0 <= q < head.len() ==> #[trigger] (head + end).subrange(q, q + 4) != end,
        parse_head(read_text(head)).length == body.len(),
        head.len() + 4 + body.len() + behind.len() < MAX_HEAD,
    ensures
        fed(
            ReaderV { head: None, buf: Seq::empty() },
            head + end + body + behind,
        ).1 == ReadStepV::Ready(parse_head(read_text(head)), body),
{
    assert(end =~= head_end());
    let h = head.len() as int;
    let front = head + end;
    let all = front + body + behind;
    let buf = Seq::<u8>::empty() + all;
    assert(buf =~= all);
    the_first_place_is_found(front, end, 0);
    assert(front.subrange(h, h + 4) =~= end);
    assert(found_from(front, end, 0) == Some(head.len() as int)) by {
        match found_from(front, end, 0) {
            Some(p) => {
                if p < head.len() {
                    assert(front.subrange(p, p + 4) == end);
                } else if p > head.len() {
                    assert(front.subrange(h, h + 4) != end);
                }
            },
            None => {
                assert(front.subrange(h, h + 4) != end);
            },
        }
    }
    lemma_found_extends(front, body + behind, end);
    assert(front + (body + behind) =~= all);
    assert(all.take(head.len() as int) =~= head);
    assert(all.skip(h + 4) =~= body + behind);
    assert((body + behind).take(body.len() as int) =~= body);
}

/// An answer ends with its document behind an empty line.
pub proof fn answers_end_with_their_document(status: u16, json: Seq<char>)
    ensures
        ({
            let r = response_text(status, json);
            let end = "\r\n\r\n"@;
            &&& json.len() + 4 <= r.len()
            &&& r.skip(r.len() - json.len()) == json
            &&& r.subrange(r.len() - json.len() - 4, r.len() - json.len()) == end
            &&& starts_with(r, "HTTP/1.1 "@ + decimal(status as nat))
        }),
{
    let r = response_text(status, json);
    let close = "\r\nConnection: close\r\n\r\n"@;
    reveal_strlit("\r\n\r\n");
    reveal_strlit("\r\nConnection: close\r\n\r\n");
    let n = r.len() - json.len();
    assert(r.skip(n) =~= json);
    assert(r.subrange(n - 4, n) =~= close.skip(close.len() - 4));
    assert(close.skip(close.len() - 4) =~= "\r\n\r\n"@);
    let a = "HTTP/1.1 "@ + decimal(status as nat);
    assert(r.take(a.len() as int) =~= a);
}

/// A line of a header, its name and value: the value where the name is asked for, however
/// its letters are cased, and nothing where another is.
proof fn lemma_header_line(line: Seq<char>, name: Seq<char>, value: Seq<char>, want: Seq<char>)
    requires
        line == name + seq![':', ' '] + value,
        name.len() > 0,
        forall|i: int| 0 <= i < name.len() ==> name[i] != ':' && !is_space(#[trigger] name[i]),
        value.len() > 0,
        !is_space(value[0]),
        !is_space(value.last()),
    ensures
        header_value(line, want) == (if lower(name) == want {
            Some(value)
        } else {
            None
        }),
{
    let k = name.len() as int;
    lemma_position_at(line, ':', k);
    assert(line.take(k) =~= name);
    let rest = line.skip(k + 1);
    assert(rest =~= seq![' '] + value);
    assert(!is_space(name[0]) && !is_space(name[k - 1]));
    assert(trim(name) == name);
    assert(is_space(' '));
    assert(rest.skip(1) =~= value);
    assert(trim_start(rest) == trim_start(value));
    assert(trim(rest) == value);
}

/// What a head says is what stands in it: the first two words of its first line are the
/// method and the path, and its headers give the authorization and the length of the body,
/// however their names are cased.
pub proof fn heads_say_what_stands_in_them(
    text: Seq<char>,
    method: Seq<char>,
    path: Seq<char>,
    auth_name: Seq<char>,
    authorization: Seq<char>,
    length_name: Seq<char>,
    n: usize,
)
    requires
        lines(text).len() >= 3,
        words(lines(text)[0]).len() >= 2,
        words(lines(text)[0])[0] == method,
        words(lines(text)[0])[1] == path,
        lower(auth_name) == "authorization"@,
        lower(length_name) == "content-length"@,
        authorization.len() > 0,
        !is_space(authorization[0]),
        !is_space(authorization.last()),
        lines(text)[1] == auth_name + seq![':', ' '] + authorization,
        lines(text)[2] == length_name + seq![':', ' '] + decimal(n as nat),
    ensures
        parse_head(text) == (HeadV {
            method,
            path,
            length: n,
            authorization: Some(authorization),
        }),
{
    let l = lines(text);
    let d = decimal(n as nat);
    reveal_strlit("authorization");
    reveal_strlit("content-length");
    digits_round_trip(n as nat, 10, false, usize::MAX as nat);
    assert(is_digit_char(d[0]) && is_digit_char(d[d.len() - 1]));
    lemma_plain_name(auth_name, "authorization"@);
    lemma_plain_name(length_name, "content-length"@);
    assert("authorization"@.len() == 13 && "content-length"@.len() == 14);
    lemma_header_line(l[1], auth_name, authorization, "content-length"@);
    lemma_header_line(l[1], auth_name, authorization, "authorization"@);
    lemma_header_line(l[2], length_name, d, "content-length"@);
    assert(length_value(l[1]) is None);
    assert(length_value(l[2]) == Some(n));
    assert(length_from(l, 1) == length_from(l, 2));
}

/// A name whose lower case is one of letters and hyphens has no colon or white space.
proof fn lemma_plain_name(name: Seq<char>, want: Seq<char>)
    requires
        lower(name) == want,
        forall|i: int|
            0 <= i < want.len() ==> 97 <= (#[trigger] want[i]) as u32 <= 122 || want[i] == '-',
    ensures
        name.len() == want.len(),
        forall|i: int| 0 <= i < name.len() ==> name[i] != ':' && !is_space(#[trigger] name[i]),
{
    assert forall|i: int| 0 <= i < name.len() implies name[i] != ':' && !is_space(
        #[trigger] name[i],
    ) by {
        let c = name[i];
        assert(lower(name)[i] == lower_char(c));
        assert(want[i] == lower_char(c));
        assert(97 <= want[i] as u32 <= 122 || want[i] == '-');
        if !(65 <= c as u32 <= 90) {
            assert(want[i] == c);
        }
    }
}

/// Where the connection ends before the request is whole, what came of the body is the
/// body, cut to the announced length; without a head there is no request, and nothing at
/// all where nothing came.
pub proof fn closed_connections_give_what_came(v: ReaderV)
    ensures
        match ended(v) {
            ReadEndV::Ready(h, body) => v.head == Some(h) && body.len() <= h.length && (body.len()
                == h.length || body.len() == v.buf.len()) && body.len() <= v.buf.len() && body
                == v.buf.take(body.len() as int),
            ReadEndV::Nothing => v.head is None && v.buf.len() == 0,
            ReadEndV::Incomplete => v.head is None && v.buf.len() > 0,
        },
{
    assert(v.buf.take(v.buf.len() as int) =~= v.buf);
}

/// A target is its path and, behind the first question mark, its query.
pub proof fn targets_are_path_and_query(path: Seq<char>, query: Seq<char>)
    requires
        forall|i: int| 0 <= i < path.len() ==> #[trigger] path[i] != '?',
    ensures
        target_parts(path + seq!['?'] + query) == (path, query),
        target_parts(path) == (path, Seq::<char>::empty()),
{
    let t = path + seq!['?'] + query;
    lemma_position_at(t, '?', path.len() as int);
    lemma_position_at(path, '?', path.len() as int);
    assert(t.take(path.len() as int) =~= path);
    assert(t.skip(path.len() as int + 1) =~= query);
    reveal_strlit("");
    assert(""@ =~= Seq::<char>::empty());
}

/// Where there is a token, everything but the health check asks for it: a request is served
/// exactly where its authorization is `Bearer ` and the token. Where there is none, every
/// request is served, and the health check always is.
pub proof fn only_the_token_is_served(
    path: Seq<char>,
    token: Seq<char>,
    authorization: Option<Seq<char>>,
)
    ensures
        path != "/healthz"@ ==> (may_serve(path, Some(token), authorization) <==> authorization
            == Some("Bearer "@ + token)),
        may_serve(path, None, authorization),
        may_serve("/healthz"@, Some(token), authorization),
{
}

/// An answer says in front whether it is one of success, and how many bytes its document
/// has.
pub proof fn answers_announce_their_document(status: u16, json: Seq<char>)
    ensures
        starts_with(
            response_text(status, json),
            "HTTP/1.1 "@ + decimal(status as nat) + (if status / 100 == 2 {
                " OK"@
            } else {
                " Error"@
            }) + "\r\nContent-Type: application/json\r\nContent-Length: "@ + decimal(
                encode_utf8(json).len(),
            ) + "\r\n"@,
        ),
{
    let r = response_text(status, json);
    let d = decimal(status as nat);
    let n = decimal(encode_utf8(json).len());
    let t = "\r\nContent-Type: application/json\r\nContent-Length: "@;
    let close = "\r\nConnection: close\r\n\r\n"@;
    let word = if status / 100 == 2 {
        "OK"@
    } else {
        "Error"@
    };
    let spaced = if status / 100 == 2 {
        " OK"@
    } else {
        " Error"@
    };
    reveal_strlit(" ");
    reveal_strlit("OK");
    reveal_strlit("Error");
    reveal_strlit(" OK");
    reveal_strlit(" Error");
    reveal_strlit("\r\n");
    reveal_strlit("\r\nConnection: close\r\n\r\n");
    assert(" "@ + word =~= spaced);
    assert(close.take(2) =~= "\r\n"@);
    let a = "HTTP/1.1 "@ + d + spaced + t + n + "\r\n"@;
    assert("HTTP/1.1 "@ + d + " "@ + word =~= "HTTP/1.1 "@ + d + spaced);
    assert(r.take(a.len() as int) =~= a);
}

/// Of several headers of a name the first counts. One that does not say a length does not
/// count as one of a length.
pub proof fn the_first_header_of_a_name_counts(l: Seq<Seq<char>>, i: int, k: int)
    requires
        0 <= i <= k < l.len(),
    ensures
        header_value(l[k], "authorization"@) is Some && (forall|j: int|
            i <= j < k ==> header_value(#[trigger] l[j], "authorization"@) is None)
            ==> authorization_from(l, i) == header_value(l[k], "authorization"@),
        length_value(l[k]) is Some && (forall|j: int|
            i <= j < k ==> length_value(#[trigger] l[j]) is None) ==> length_from(l, i)
            == length_value(l[k])->0,
    decreases k - i,
{
    if i < k {
        the_first_header_of_a_name_counts(l, i + 1, k);
        let j = l[i];
    }
}

/// Without a header of the name there is no authorization, and no body.
pub proof fn nothing_is_said_without_a_header(l: Seq<Seq<char>>, i: int)
    requires
        0 <= i <= l.len(),
    ensures
        (forall|j: int| i <= j < l.len() ==> header_value(#[trigger] l[j], "authorization"@) is None)
            ==> authorization_from(l, i) is None,
        (forall|j: int| i <= j < l.len() ==> length_value(#[trigger] l[j]) is None) ==> length_from(
            l,
            i,
        ) == 0,
    decreases l.len() - i,
{
    if i < l.len() {
        nothing_is_said_without_a_header(l, i + 1);
        let j = l[i];
    }
}

/// Of several parameters of a query the first that is the tenant's counts.
pub proof fn the_first_tenant_of_a_query_counts(p: Seq<Seq<char>>, i: int, k: int, text: Seq<char>)
    requires
        0 <= i <= k < p.len(),
        p[k] == "tenant="@ + text,
        forall|j: int| i <= j < k ==> !starts_with(#[trigger] p[j], "tenant="@),
    ensures
        tenant_piece(p, i) == Some(text),
    decreases k - i,
{
    if i < k {
        assert(!starts_with(p[i], "tenant="@));
        the_first_tenant_of_a_query_counts(p, i + 1, k, text);
    } else {
        assert(p[k].take("tenant="@.len() as int) =~= "tenant="@);
        assert(p[k].skip("tenant="@.len() as int) =~= text);
    }
}

/// A head of a mebibyte or more is too large; a shorter one that has not ended yet is read
/// on.
pub proof fn large_heads_are_refused(v: ReaderV, chunk: Seq<u8>)
    requires
        v.head is None,
    ensures
        v.buf.len() + chunk.len() >= 1048576 ==> fed(v, chunk).1 is TooLarge && fed(v, chunk).0.head is None,
        v.buf.len() + chunk.len() < 1048576 ==> !(fed(v, chunk).1 is TooLarge),
{
}

} // verus!
