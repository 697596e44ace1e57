//! The wire protocol between the compute node and the pageserver.
//!
//! A fixed-layout, big-endian binary protocol. Two requests exist: fetch one
//! 8 KiB page, and fetch a relation fork's block count.
//!
//! ```text
//! Request:   magic:u32  version:u8  type:u8  fork:u8  flags:u8  payload
//! Response:  magic:u32  version:u8  status:u8  reserved:u16
//!            payload_len:u32  payload
//! ```

use vstd::prelude::*;
use vstd::utf8::{decode_utf8_encode_utf8, encode_utf8, valid_utf8};

use crate::bytes::{
    be32, be64, be_bytes, be_u32, be_u64, copy_range, lemma_be_bytes_len, lemma_before_cut,
    lemma_number_again, lemma_pow256, lemma_stands_number, lemma_stands_split, put_be_u32,
    put_be_u64, put_slice, read_16, stands_at,
};
use crate::common::error::Error;
use crate::common::ids::{
    lemma_any_id, lemma_tenant_id_of, lemma_timeline_id_of, tenant_id_of, timeline_id_of, TenantId,
    TimelineId,
};
use crate::common::lsn::Lsn;
use crate::common::page::{fork_code, fork_of, ForkNumber, RelTag, PAGE_SIZE};
use crate::text::{copy_str, read_text, text_lossy, text_round_trip};

verus! {

/// Protocol magic, ASCII "SPG1".
pub const MAGIC: u32 = 0x5350_4731;

/// Protocol version.
pub const VERSION: u8 = 1;

/// Request type: fetch a page.
pub const TYPE_GET_PAGE: u8 = 1;

/// Request type: fetch a relation fork size.
pub const TYPE_GET_REL_SIZE: u8 = 2;

/// Response status: success.
pub const STATUS_OK: u8 = 0;

/// Response status: the page or relation does not exist at the position.
pub const STATUS_NOT_FOUND: u8 = 1;

/// Response status: a server-side error; the payload is a UTF-8 message.
pub const STATUS_ERROR: u8 = 2;

/// Size of a `GetPage` payload: tenant, timeline, relation, block, position.
pub const GET_PAGE_PAYLOAD: usize = 56;

/// Size of a `GetRelSize` payload: tenant, timeline, relation, position.
pub const GET_REL_SIZE_PAYLOAD: usize = 52;

/// Size of a request header.
pub const HEADER_LEN: usize = 8;

/// Size of a response header, with the payload length.
pub const RESPONSE_HEADER_LEN: usize = 12;

/// A request from the compute node to the pageserver.
#[derive(Debug, Clone, Copy, PartialEq, Eq)]
pub enum Request {
    /// Fetch the 8 KiB image of one page as of `lsn`; the invalid position means
    /// the latest version.
    GetPage { tenant: TenantId, timeline: TimelineId, rel: RelTag, block: u32, lsn: Lsn },
    /// Fetch the number of blocks in a relation fork as of `lsn`.
    GetRelSize { tenant: TenantId, timeline: TimelineId, rel: RelTag, lsn: Lsn },
}

/// A response from the pageserver.
#[derive(Debug, Clone, PartialEq, Eq)]
pub enum Response {
    /// A full 8 KiB page image.
    Page(Vec<u8>),
    /// A relation fork's block count.
    RelSize(u32),
    /// The requested object does not exist at that position.
    NotFound,
    /// A server-side error with a message.
    Error(String),
}

/// What a [`Response`] says.
pub enum ResponseV {
    Page(Seq<u8>),
    RelSize(u32),
    NotFound,
    Error(Seq<char>),
}

impl View for Response {
    type V = ResponseV;

    open spec fn view(&self) -> ResponseV {
        match *self {
            Response::Page(p) => ResponseV::Page(p@),
            Response::RelSize(n) => ResponseV::RelSize(n),
            Response::NotFound => ResponseV::NotFound,
            Response::Error(m) => ResponseV::Error(m@),
        }
    }
}

/// Magic, version, type or status, one byte more, and a zero byte.
pub open spec fn head_bytes(kind: u8, extra: u8) -> Seq<u8> {
    be_bytes(MAGIC as nat, 4) + seq![VERSION, kind, extra, 0u8]
}

/// Tenant, timeline and relation.
pub open spec fn target_bytes(tenant: TenantId, timeline: TimelineId, rel: RelTag) -> Seq<u8> {
    tenant@ + timeline@ + be_bytes(rel.spc_node as nat, 4) + be_bytes(rel.db_node as nat, 4)
        + be_bytes(rel.rel_node as nat, 4)
}

/// The wire form of a request.
pub open spec fn request_bytes(r: Request) -> Seq<u8> {
    match r {
        Request::GetPage { tenant, timeline, rel, block, lsn } => head_bytes(
            TYPE_GET_PAGE,
            fork_code(rel.fork),
        ) + target_bytes(tenant, timeline, rel) + be_bytes(block as nat, 4) + be_bytes(
            lsn.0 as nat,
            8,
        ),
        Request::GetRelSize { tenant, timeline, rel, lsn } => head_bytes(
            TYPE_GET_REL_SIZE,
            fork_code(rel.fork),
        ) + target_bytes(tenant, timeline, rel) + be_bytes(lsn.0 as nat, 8),
    }
}

/// The length of the whole request that a header announces, or what is wrong.
pub open spec fn parse_total_len(header: Seq<u8>) -> Result<int, Seq<char>> {
    if header.len() < HEADER_LEN {
        Err("request header too short"@)
    } else if be32(header, 0) != MAGIC {
        Err("bad protocol magic"@)
    } else if header[4] != VERSION {
        Err("unsupported protocol version"@)
    } else if header[5] == TYPE_GET_PAGE {
        Ok(HEADER_LEN + GET_PAGE_PAYLOAD)
    } else if header[5] == TYPE_GET_REL_SIZE {
        Ok(HEADER_LEN + GET_REL_SIZE_PAYLOAD)
    } else {
        Err("unknown request type"@)
    }
}

/// The request that a message says, or what is wrong. What follows the payload
/// is ignored.
pub open spec fn parse_request(buf: Seq<u8>) -> Result<Request, Seq<char>> {
    if buf.len() < HEADER_LEN {
        Err("request shorter than header"@)
    } else if be32(buf, 0) != MAGIC {
        Err("bad protocol magic"@)
    } else if buf[4] != VERSION {
        Err("unsupported protocol version"@)
    } else if fork_of(buf[6]) is None {
        Err("invalid fork number"@)
    } else if buf[5] != TYPE_GET_PAGE && buf[5] != TYPE_GET_REL_SIZE {
        Err("unknown request type"@)
    } else if buf.len() < HEADER_LEN + (if buf[5] == TYPE_GET_PAGE {
        GET_PAGE_PAYLOAD
    } else {
        GET_REL_SIZE_PAYLOAD
    }) {
        Err("request payload truncated"@)
    } else {
        let tenant = tenant_id_of(buf.subrange(8, 24));
        let timeline = timeline_id_of(buf.subrange(24, 40));
        let rel = RelTag {
            spc_node: be32(buf, 40),
            db_node: be32(buf, 44),
            rel_node: be32(buf, 48),
            fork: fork_of(buf[6])->0,
        };
        if buf[5] == TYPE_GET_PAGE {
            Ok(
                Request::GetPage {
                    tenant,
                    timeline,
                    rel,
                    block: be32(buf, 52),
                    lsn: Lsn(be64(buf, 56)),
                },
            )
        } else {
            Ok(Request::GetRelSize { tenant, timeline, rel, lsn: Lsn(be64(buf, 52)) })
        }
    }
}

/// The status and payload of a response.
pub open spec fn response_payload(r: ResponseV) -> (u8, Seq<u8>) {
    match r {
        ResponseV::Page(p) => (STATUS_OK, p),
        ResponseV::RelSize(n) => (STATUS_OK, be_bytes(n as nat, 4)),
        ResponseV::NotFound => (STATUS_NOT_FOUND, Seq::empty()),
        ResponseV::Error(m) => (STATUS_ERROR, encode_utf8(m)),
    }
}

/// The wire form of a response.
pub open spec fn response_bytes(r: ResponseV) -> Seq<u8> {
    let (status, payload) = response_payload(r);
    head_bytes(status, 0) + be_bytes(payload.len() % 0x1_0000_0000, 4) + payload
}

/// The response that a message says, or what is wrong. What follows the payload
/// is ignored.
pub open spec fn parse_response(buf: Seq<u8>) -> Result<ResponseV, Seq<char>> {
    if buf.len() < RESPONSE_HEADER_LEN {
        Err("response shorter than header"@)
    } else if be32(buf, 0) != MAGIC {
        Err("bad protocol magic"@)
    } else if buf[4] != VERSION {
        Err("unsupported protocol version"@)
    } else if buf.len() < RESPONSE_HEADER_LEN + be32(buf, 8) {
        Err("response payload truncated"@)
    } else {
        let len = be32(buf, 8) as int;
        let payload = buf.subrange(12, 12 + len);
        if buf[5] == STATUS_OK {
            if len == PAGE_SIZE {
                Ok(ResponseV::Page(payload))
            } else if len == 4 {
                Ok(ResponseV::RelSize(be32(buf, 12)))
            } else {
                Err("OK response with unexpected payload length"@)
            }
        } else if buf[5] == STATUS_NOT_FOUND {
            Ok(ResponseV::NotFound)
        } else if buf[5] == STATUS_ERROR {
            Ok(ResponseV::Error(read_text(payload)))
        } else {
            Err("unknown response status"@)
        }
    }
}

fn put_head(buf: &mut Vec<u8>, kind: u8, extra: u8)
    ensures
        final(buf)@ == old(buf)@ + head_bytes(kind, extra),
{
    put_be_u32(buf, MAGIC);
    buf.push(VERSION);
    buf.push(kind);
    buf.push(extra);
    buf.push(0);
    assert(buf@ =~= old(buf)@ + head_bytes(kind, extra));
}

fn put_target(buf: &mut Vec<u8>, tenant: &TenantId, timeline: &TimelineId, rel: &RelTag)
    ensures
        final(buf)@ == old(buf)@ + target_bytes(*tenant, *timeline, *rel),
{
    put_slice(buf, tenant.as_bytes().as_slice());
    put_slice(buf, timeline.as_bytes().as_slice());
    put_be_u32(buf, rel.spc_node);
    put_be_u32(buf, rel.db_node);
    put_be_u32(buf, rel.rel_node);
    assert(buf@ =~= old(buf)@ + target_bytes(*tenant, *timeline, *rel));
}

fn fail<T>(why: &'static str) -> (r: Result<T, Error>)
    ensures
        r matches Err(e) && e.reason() == why@,
{
    Err(Error::parse(copy_str(why)))
}

impl Request {
    /// Encode this request to its wire form.
    pub fn encode(&self) -> (buf: Vec<u8>)
        ensures
            buf@ == request_bytes(*self),
    {
        let mut buf: Vec<u8> = Vec::with_capacity(HEADER_LEN + GET_PAGE_PAYLOAD);
        match self {
            Request::GetPage { tenant, timeline, rel, block, lsn } => {
                put_head(&mut buf, TYPE_GET_PAGE, rel.fork.to_raw());
                put_target(&mut buf, tenant, timeline, rel);
                put_be_u32(&mut buf, *block);
                put_be_u64(&mut buf, lsn.raw());
            },
            Request::GetRelSize { tenant, timeline, rel, lsn } => {
                put_head(&mut buf, TYPE_GET_REL_SIZE, rel.fork.to_raw());
                put_target(&mut buf, tenant, timeline, rel);
                put_be_u64(&mut buf, lsn.raw());
            },
        }
        assert(buf@ =~= request_bytes(*self));
        buf
    }

    /// The length of the whole message that an 8-byte request header announces.
    pub fn total_len(header: &[u8]) -> (r: Result<usize, Error>)
        ensures
            match parse_total_len(header@) {
                Ok(n) => r matches Ok(x) && x == n,
                Err(m) => r matches Err(e) && e.reason() == m,
            },
    {
        if header.len() < HEADER_LEN {
            return fail("request header too short");
        }
        if be_u32(header, 0) != MAGIC {
            return fail("bad protocol magic");
        }
        if header[4] != VERSION {
            return fail("unsupported protocol version");
        }
        if header[5] == TYPE_GET_PAGE {
            Ok(HEADER_LEN + GET_PAGE_PAYLOAD)
        } else if header[5] == TYPE_GET_REL_SIZE {
            Ok(HEADER_LEN + GET_REL_SIZE_PAYLOAD)
        } else {
            fail("unknown request type")
        }
    }

    /// Decode a request from a complete message.
    pub fn decode(buf: &[u8]) -> (r: Result<Request, Error>)
        ensures
            match parse_request(buf@) {
                Ok(q) => r matches Ok(x) && x == q,
                Err(m) => r matches Err(e) && e.reason() == m,
            },
    {
        if buf.len() < HEADER_LEN {
            return fail("request shorter than header");
        }
        if be_u32(buf, 0) != MAGIC {
            return fail("bad protocol magic");
        }
        if buf[4] != VERSION {
            return fail("unsupported protocol version");
        }
        let kind: u8 = buf[5];
        let fork = match ForkNumber::from_raw(buf[6]) {
            Some(f) => f,
            None => return fail("invalid fork number"),
        };
        let expected: usize = if kind == TYPE_GET_PAGE {
            GET_PAGE_PAYLOAD
        } else if kind == TYPE_GET_REL_SIZE {
            GET_REL_SIZE_PAYLOAD
        } else {
            return fail("unknown request type");
        };
        if buf.len() < HEADER_LEN + expected {
            return fail("request payload truncated");
        }
        let tenant = TenantId::from_bytes(read_16(buf, 8));
        let timeline = TimelineId::from_bytes(read_16(buf, 24));
        proof {
            lemma_tenant_id_of(tenant);
            lemma_timeline_id_of(timeline);
        }
        let rel = RelTag {
            spc_node: be_u32(buf, 40),
            db_node: be_u32(buf, 44),
            rel_node: be_u32(buf, 48),
            fork,
        };
        if kind == TYPE_GET_PAGE {
            let block: u32 = be_u32(buf, 52);
            let lsn = Lsn(be_u64(buf, 56));
            Ok(Request::GetPage { tenant, timeline, rel, block, lsn })
        } else {
            let lsn = Lsn(be_u64(buf, 52));
            Ok(Request::GetRelSize { tenant, timeline, rel, lsn })
        }
    }
}

impl Response {
    /// Encode this response, with its header and length.
    pub fn encode(&self) -> (buf: Vec<u8>)
        ensures
            buf@ == response_bytes(self@),
    {
        let mut payload: Vec<u8> = Vec::new();
        let status: u8 = match self {
            Response::Page(page) => {
                put_slice(&mut payload, page.as_slice());
                STATUS_OK
            },
            Response::RelSize(n) => {
                put_be_u32(&mut payload, *n);
                STATUS_OK
            },
            Response::NotFound => STATUS_NOT_FOUND,
            Response::Error(msg) => {
                put_slice(&mut payload, msg.as_str().as_bytes());
                STATUS_ERROR
            },
        };
        assert(payload@ =~= response_payload(self@).1);
        let mut buf: Vec<u8> = Vec::new();
        put_head(&mut buf, status, 0);
        put_be_u32(&mut buf, (payload.len() as u64 % 0x1_0000_0000) as u32);
        put_slice(&mut buf, payload.as_slice());
        assert(buf@ =~= response_bytes(self@));
        buf
    }

    /// Decode a response from a complete message.
    pub fn decode(buf: &[u8]) -> (r: Result<Response, Error>)
        ensures
            match parse_response(buf@) {
                Ok(q) => r matches Ok(x) && x@ == q,
                Err(m) => r matches Err(e) && e.reason() == m,
            },
    {
        if buf.len() < RESPONSE_HEADER_LEN {
            return fail("response shorter than header");
        }
        if be_u32(buf, 0) != MAGIC {
            return fail("bad protocol magic");
        }
        if buf[4] != VERSION {
            return fail("unsupported protocol version");
        }
        let status: u8 = buf[5];
        let len: usize = be_u32(buf, 8) as usize;
        if buf.len() - RESPONSE_HEADER_LEN < len {
            return fail("response payload truncated");
        }
        if status == STATUS_OK {
            if len == PAGE_SIZE {
                Ok(Response::Page(copy_range(buf, 12, 12 + len)))
            } else if len == 4 {
                Ok(Response::RelSize(be_u32(buf, 12)))
            } else {
                fail("OK response with unexpected payload length")
            }
        } else if status == STATUS_NOT_FOUND {
            Ok(Response::NotFound)
        } else if status == STATUS_ERROR {
            let payload = copy_range(buf, 12, 12 + len);
            Ok(Response::Error(text_lossy(payload.as_slice())))
        } else {
            fail("unknown response status")
        }
    }
}

proof fn lemma_head(buf: Seq<u8>, kind: u8, extra: u8)
    requires
        stands_at(buf, 0, head_bytes(kind, extra)),
    ensures
        buf.len() >= 8,
        head_bytes(kind, extra).len() == 8,
        be32(buf, 0) == MAGIC,
        buf[4] == VERSION,
        buf[5] == kind,
        buf[6] == extra,
{
    let tail = seq![VERSION, kind, extra, 0u8];
    lemma_be_bytes_len(MAGIC as nat, 4);
    lemma_pow256();
    lemma_stands_split(buf, 0, be_bytes(MAGIC as nat, 4), tail);
    lemma_stands_number(buf, 0, MAGIC as nat, 4);
    let t = buf.subrange(4, 8);
    assert(t == tail);
    assert(buf[4] == t[0] && buf[5] == t[1] && buf[6] == t[2]);
}

proof fn lemma_target(buf: Seq<u8>, tenant: TenantId, timeline: TimelineId, rel: RelTag)
    requires
        stands_at(buf, 8, target_bytes(tenant, timeline, rel)),
    ensures
        target_bytes(tenant, timeline, rel).len() == 44,
        tenant_id_of(buf.subrange(8, 24)) == tenant,
        timeline_id_of(buf.subrange(24, 40)) == timeline,
        be32(buf, 40) == rel.spc_node,
        be32(buf, 44) == rel.db_node,
        be32(buf, 48) == rel.rel_node,
{
    let a = tenant@;
    let b = timeline@;
    let c = be_bytes(rel.spc_node as nat, 4);
    let d = be_bytes(rel.db_node as nat, 4);
    let e = be_bytes(rel.rel_node as nat, 4);
    lemma_be_bytes_len(rel.spc_node as nat, 4);
    lemma_be_bytes_len(rel.db_node as nat, 4);
    lemma_be_bytes_len(rel.rel_node as nat, 4);
    lemma_pow256();
    lemma_stands_split(buf, 8, a + b + c + d, e);
    lemma_stands_split(buf, 8, a + b + c, d);
    lemma_stands_split(buf, 8, a + b, c);
    lemma_stands_split(buf, 8, a, b);
    lemma_stands_number(buf, 40, rel.spc_node as nat, 4);
    lemma_stands_number(buf, 44, rel.db_node as nat, 4);
    lemma_stands_number(buf, 48, rel.rel_node as nat, 4);
    lemma_tenant_id_of(tenant);
    lemma_timeline_id_of(timeline);
}

/// A request decoded from its own wire form is the request, and its header
/// announces the length of the whole.
pub proof fn request_round_trip(r: Request)
    ensures
        parse_request(request_bytes(r)) == Ok::<Request, Seq<char>>(r),
        parse_total_len(request_bytes(r).take(8)) == Ok::<int, Seq<char>>(
            request_bytes(r).len() as int,
        ),
{
    let buf = request_bytes(r);
    assert(buf.subrange(0, buf.len() as int) =~= buf);
    assert(stands_at(buf, 0, buf));
    lemma_pow256();
    match r {
        Request::GetPage { tenant, timeline, rel, block, lsn } => {
            let h = head_bytes(TYPE_GET_PAGE, fork_code(rel.fork));
            let t = target_bytes(tenant, timeline, rel);
            let b = be_bytes(block as nat, 4);
            let l = be_bytes(lsn.0 as nat, 8);
            lemma_be_bytes_len(block as nat, 4);
            lemma_be_bytes_len(lsn.0 as nat, 8);
            lemma_stands_split(buf, 0, h + t + b, l);
            lemma_stands_split(buf, 0, h + t, b);
            lemma_stands_split(buf, 0, h, t);
            lemma_head(buf, TYPE_GET_PAGE, fork_code(rel.fork));
            lemma_target(buf, tenant, timeline, rel);
            lemma_stands_number(buf, 52, block as nat, 4);
            lemma_stands_number(buf, 56, lsn.0 as nat, 8);
        },
        Request::GetRelSize { tenant, timeline, rel, lsn } => {
            let h = head_bytes(TYPE_GET_REL_SIZE, fork_code(rel.fork));
            let t = target_bytes(tenant, timeline, rel);
            let l = be_bytes(lsn.0 as nat, 8);
            lemma_be_bytes_len(lsn.0 as nat, 8);
            lemma_stands_split(buf, 0, h + t, l);
            lemma_stands_split(buf, 0, h, t);
            lemma_head(buf, TYPE_GET_REL_SIZE, fork_code(rel.fork));
            lemma_target(buf, tenant, timeline, rel);
            lemma_stands_number(buf, 52, lsn.0 as nat, 8);
        },
    }
    assert(buf.take(8).subrange(0, 4) =~= buf.subrange(0, 4));
}

/// A response decoded from its own wire form is the response, where it is a
/// whole page, a size, "not found", or an error whose message fits.
pub proof fn response_round_trip(r: ResponseV)
    requires
        r matches ResponseV::Page(p) ==> p.len() == PAGE_SIZE,
        r matches ResponseV::Error(m) ==> encode_utf8(m).len() < 0x1_0000_0000,
    ensures
        parse_response(response_bytes(r)) == Ok::<ResponseV, Seq<char>>(r),
        response_bytes(r).len() == RESPONSE_HEADER_LEN + be32(response_bytes(r), 8),
{
    let buf = response_bytes(r);
    let (status, payload) = response_payload(r);
    let h = head_bytes(status, 0);
    let n = be_bytes(payload.len() % 0x1_0000_0000, 4);
    assert(buf.subrange(0, buf.len() as int) =~= buf);
    assert(stands_at(buf, 0, buf));
    lemma_pow256();
    lemma_be_bytes_len(payload.len() % 0x1_0000_0000, 4);
    lemma_stands_split(buf, 0, h + n, payload);
    lemma_stands_split(buf, 0, h, n);
    lemma_head(buf, status, 0);
    lemma_stands_number(buf, 8, payload.len() % 0x1_0000_0000, 4);
    match r {
        ResponseV::RelSize(k) => {
            lemma_be_bytes_len(k as nat, 4);
            lemma_stands_number(buf, 12, k as nat, 4);
        },
        ResponseV::Error(m) => {
            text_round_trip(m);
        },
        _ => {},
    }
}

/// A request that is cut short is refused, wherever it is cut.
pub proof fn cut_requests_are_refused(r: Request, n: int)
    requires
        0 <= n < request_bytes(r).len(),
    ensures
        parse_request(request_bytes(r).take(n)) is Err,
{
    let buf = request_bytes(r);
    request_round_trip(r);
    let cut = buf.take(n);
    if n >= 8 {
        assert(buf.take(8)[5] == buf[5] && cut[5] == buf[5]);
    }
}

/// A response that is cut short is refused, wherever it is cut.
pub proof fn cut_responses_are_refused(r: ResponseV, n: int)
    requires
        r matches ResponseV::Page(p) ==> p.len() == PAGE_SIZE,
        r matches ResponseV::Error(m) ==> encode_utf8(m).len() < 0x1_0000_0000,
        0 <= n < response_bytes(r).len(),
    ensures
        parse_response(response_bytes(r).take(n)) is Err,
{
    let buf = response_bytes(r);
    response_round_trip(r);
    if n >= RESPONSE_HEADER_LEN {
        lemma_before_cut(buf, n, 8, 4);
    }
}

/// A response that says "OK" is a page or a size, by its length, and a status
/// that is none of the three is refused.
pub proof fn odd_responses_are_refused(buf: Seq<u8>)
    requires
        buf.len() >= RESPONSE_HEADER_LEN,
        (buf[5] == STATUS_OK && be32(buf, 8) != PAGE_SIZE && be32(buf, 8) != 4) || buf[5]
            > STATUS_ERROR,
    ensures
        parse_response(buf) is Err,
{
}

/// The head of a message, written again.
proof fn lemma_head_again(buf: Seq<u8>)
    requires
        buf.len() >= 8,
        be32(buf, 0) == MAGIC,
        buf[4] == VERSION,
    ensures
        head_bytes(buf[5], buf[6]) == buf.subrange(0, 8).update(7, 0u8),
{
    lemma_number_again(buf, 0, 4);
    lemma_pow256();
    assert(be_bytes(MAGIC as nat, 4) == buf.subrange(0, 4));
    assert(head_bytes(buf[5], buf[6]) =~= buf.subrange(0, 8).update(7, 0u8));
}

/// The target of a request, written again.
proof fn lemma_target_again(buf: Seq<u8>, rel: RelTag)
    requires
        buf.len() >= 52,
        rel.spc_node == be32(buf, 40),
        rel.db_node == be32(buf, 44),
        rel.rel_node == be32(buf, 48),
    ensures
        target_bytes(
            tenant_id_of(buf.subrange(8, 24)),
            timeline_id_of(buf.subrange(24, 40)),
            rel,
        ) == buf.subrange(8, 52),
{
    lemma_pow256();
    lemma_any_id(buf.subrange(8, 24));
    lemma_any_id(buf.subrange(24, 40));
    lemma_number_again(buf, 40, 4);
    lemma_number_again(buf, 44, 4);
    lemma_number_again(buf, 48, 4);
    assert(target_bytes(
        tenant_id_of(buf.subrange(8, 24)),
        timeline_id_of(buf.subrange(24, 40)),
        rel,
    ) =~= buf.subrange(8, 52));
}

/// A message that says a request starts with the wire form of that request, but
/// for the byte of flags, which is not read.
pub proof fn requests_are_written_as_they_were_read(buf: Seq<u8>)
    requires
        parse_request(buf) is Ok,
    ensures
        ({
            let w = request_bytes(parse_request(buf)->Ok_0);
            w.len() <= buf.len() && w == buf.take(w.len() as int).update(7, 0u8)
        }),
{
    let r = parse_request(buf)->Ok_0;
    let w = request_bytes(r);
    lemma_pow256();
    lemma_head_again(buf);
    let rel = match r {
        Request::GetPage { rel, .. } => rel,
        Request::GetRelSize { rel, .. } => rel,
    };
    assert(fork_code(rel.fork) == buf[6]);
    lemma_target_again(buf, rel);
    if buf[5] == TYPE_GET_PAGE {
        lemma_number_again(buf, 52, 4);
        lemma_number_again(buf, 56, 8);
        assert(w =~= buf.take(64).update(7, 0u8));
    } else {
        lemma_number_again(buf, 52, 8);
        assert(w =~= buf.take(60).update(7, 0u8));
    }
}

/// A message that says a response starts with the wire form of that response,
/// but for the two reserved bytes, which are not read: where "not found" comes
/// without a payload, and the message of an error is UTF-8.
pub proof fn responses_are_written_as_they_were_read(buf: Seq<u8>)
    requires
        parse_response(buf) is Ok,
        buf[5] == STATUS_NOT_FOUND ==> be32(buf, 8) == 0,
        buf[5] == STATUS_ERROR ==> valid_utf8(buf.subrange(12, 12 + be32(buf, 8) as int)),
    ensures
        ({
            let w = response_bytes(parse_response(buf)->Ok_0);
            w.len() <= buf.len() && w == buf.take(w.len() as int).update(6, 0u8).update(7, 0u8)
        }),
{
    let r = parse_response(buf)->Ok_0;
    let w = response_bytes(r);
    let len = be32(buf, 8) as int;
    let payload = buf.subrange(12, 12 + len);
    lemma_pow256();
    lemma_number_again(buf, 0, 4);
    lemma_number_again(buf, 8, 4);
    if buf[5] == STATUS_OK && len == 4 {
        lemma_number_again(buf, 12, 4);
    }
    if buf[5] == STATUS_ERROR {
        decode_utf8_encode_utf8(payload);
    }
    assert(response_payload(r).1 =~= payload);
    assert(response_payload(r).0 == buf[5]);
    assert(be_bytes(payload.len() % 0x1_0000_0000, 4) == buf.subrange(8, 12));
    assert(w =~= buf.take(12 + len).update(6, 0u8).update(7, 0u8));
}

} // verus!
