//! The safekeeper WAL protocols.
//!
//! *Ingest*: the compute node streams its WAL to the safekeepers as
//! [`AppendRequest`]s, each a contiguous run of WAL bytes tagged with the
//! proposer's term; the safekeeper answers how far it has flushed and what the
//! quorum has committed.
//!
//! *Read-back*: the pageserver pulls committed WAL with a [`ReadRequest`] from a
//! cursor position; the safekeeper answers with a chunk and its commit position.
//!
//! *Votes*: a candidate asks for leadership of a term.
//!
//! All messages are fixed big-endian layouts behind one 8-byte prefix.

use vstd::prelude::*;

use crate::bytes::{
    be32, be64, be_bytes, be_u32, be_u64, copy_range, lemma_be_bytes_len, lemma_before_cut,
    lemma_number_again, lemma_pow256, lemma_stands_number, lemma_stands_split, put_be_u32,
    put_be_u64, put_slice, read_16, stands_at,
};
use crate::common::error::Error;
use crate::common::ids::{
    lemma_any_id, lemma_tenant_id_of, lemma_timeline_id_of, tenant_id_of, timeline_id_of, TenantId,
    TimelineId,
};
use crate::common::lsn::Lsn;
use crate::text::copy_str;

verus! {

/// Protocol magic, ASCII "SWL1".
pub const MAGIC: u32 = 0x5357_4C31;

/// Protocol version.
pub const VERSION: u8 = 1;

/// Request type: append WAL (compute to safekeeper).
pub const TYPE_APPEND: u8 = 1;

/// Request type: read committed WAL (pageserver to safekeeper).
pub const TYPE_READ: u8 = 2;

/// Request type: replicate WAL (leader to peer safekeeper). Same body as an
/// append; the peer does not replicate further.
pub const TYPE_REPLICATE: u8 = 3;

/// Request type: request a leadership vote.
pub const TYPE_VOTE: u8 = 4;

/// Response status: success.
pub const STATUS_OK: u8 = 0;

/// Response status: the proposer's term is stale.
pub const STATUS_STALE_TERM: u8 = 1;

/// Response status: a non-contiguous or otherwise invalid append.
pub const STATUS_REJECTED: u8 = 2;

/// Length of the prefix of every message: magic, version, type, reserved.
pub const PREFIX_LEN: usize = 8;

/// Size of an [`AppendRequest`] header (the payload follows it).
pub const REQUEST_HEADER_LEN: usize = 60;

/// Size of an [`AppendResponse`].
pub const RESPONSE_LEN: usize = 32;

/// Size of a [`ReadRequest`].
pub const READ_REQUEST_LEN: usize = 52;

/// Size of a [`ReadResponse`] header (the WAL payload follows it).
pub const READ_RESPONSE_HEADER_LEN: usize = 28;

/// Size of a [`VoteRequest`].
pub const VOTE_REQUEST_LEN: usize = 56;

/// Size of a [`VoteResponse`].
pub const VOTE_RESPONSE_LEN: usize = 24;

/// A run of WAL bytes streamed from compute to a safekeeper.
#[derive(Debug, Clone, PartialEq, Eq)]
pub struct AppendRequest {
    /// Tenant whose WAL this is.
    pub tenant: TenantId,
    /// Timeline this WAL belongs to.
    pub timeline: TimelineId,
    /// Consensus term of the proposing compute node.
    pub term: u64,
    /// Position of the first byte of `payload`.
    pub start_lsn: Lsn,
    /// The contiguous WAL bytes.
    pub payload: Vec<u8>,
}

/// A safekeeper's reply to an [`AppendRequest`].
#[derive(Debug, Clone, Copy, PartialEq, Eq, Structural)]
pub struct AppendResponse {
    /// Status code.
    pub status: u8,
    /// The safekeeper's current term.
    pub term: u64,
    /// How far this safekeeper has durably flushed.
    pub flush_lsn: Lsn,
    /// The position durable on a majority of safekeepers.
    pub commit_lsn: Lsn,
}

/// A pageserver's request for committed WAL from a cursor position on.
#[derive(Debug, Clone, Copy, PartialEq, Eq)]
pub struct ReadRequest {
    /// Tenant whose WAL to read.
    pub tenant: TenantId,
    /// Timeline to read.
    pub timeline: TimelineId,
    /// Position to begin reading from.
    pub start_lsn: Lsn,
    /// Maximum number of WAL bytes in one chunk.
    pub max_bytes: u32,
}

/// A safekeeper's reply carrying a chunk of committed WAL.
#[derive(Debug, Clone, PartialEq, Eq)]
pub struct ReadResponse {
    /// Status code.
    pub status: u8,
    /// The safekeeper's current commit position.
    pub commit_lsn: Lsn,
    /// Position of the first byte of `payload`; it may be above the requested
    /// one where that has fallen below what is retained.
    pub start_lsn: Lsn,
    /// Committed WAL bytes; empty when the reader has caught up.
    pub payload: Vec<u8>,
}

/// A candidate's request for a leadership vote in `term`.
#[derive(Debug, Clone, Copy, PartialEq, Eq)]
pub struct VoteRequest {
    /// Tenant whose safekeeper group is voting.
    pub tenant: TenantId,
    /// Timeline this group serves.
    pub timeline: TimelineId,
    /// The term the candidate is standing for.
    pub term: u64,
    /// The candidate's node id.
    pub candidate: u64,
}

/// A safekeeper's reply to a [`VoteRequest`].
#[derive(Debug, Clone, Copy, PartialEq, Eq, Structural)]
pub struct VoteResponse {
    /// Whether the vote was granted.
    pub granted: bool,
    /// The voter's current term.
    pub term: u64,
    /// The voter's durable flush position.
    pub flush_lsn: Lsn,
}

/// What an [`AppendRequest`] holds.
pub struct AppendRequestV {
    pub tenant: TenantId,
    pub timeline: TimelineId,
    pub term: u64,
    pub start_lsn: Lsn,
    pub payload: Seq<u8>,
}

/// What a [`ReadResponse`] holds.
pub struct ReadResponseV {
    pub status: u8,
    pub commit_lsn: Lsn,
    pub start_lsn: Lsn,
    pub payload: Seq<u8>,
}

impl View for AppendRequest {
    type V = AppendRequestV;

    open spec fn view(&self) -> AppendRequestV {
        AppendRequestV {
            tenant: self.tenant,
            timeline: self.timeline,
            term: self.term,
            start_lsn: self.start_lsn,
            payload: self.payload@,
        }
    }
}

impl View for ReadResponse {
    type V = ReadResponseV;

    open spec fn view(&self) -> ReadResponseV {
        ReadResponseV {
            status: self.status,
            commit_lsn: self.commit_lsn,
            start_lsn: self.start_lsn,
            payload: self.payload@,
        }
    }
}

/// Magic, version, type or status, and two reserved bytes.
pub open spec fn prefix_bytes(kind: u8) -> Seq<u8> {
    be_bytes(MAGIC as nat, 4) + seq![VERSION, kind, 0u8, 0u8]
}

/// The wire form of an append (or, with another type, a replication).
pub open spec fn append_request_bytes(r: AppendRequestV, kind: u8) -> Seq<u8> {
    prefix_bytes(kind) + r.tenant@ + r.timeline@ + be_bytes(r.term as nat, 8) + be_bytes(
        r.start_lsn.0 as nat,
        8,
    ) + be_bytes(r.payload.len() % 0x1_0000_0000, 4) + r.payload
}

/// The wire form of the answer to an append.
pub open spec fn append_response_bytes(r: AppendResponse) -> Seq<u8> {
    prefix_bytes(r.status) + be_bytes(r.term as nat, 8) + be_bytes(r.flush_lsn.0 as nat, 8)
        + be_bytes(r.commit_lsn.0 as nat, 8)
}

/// The wire form of a read.
pub open spec fn read_request_bytes(r: ReadRequest) -> Seq<u8> {
    prefix_bytes(TYPE_READ) + r.tenant@ + r.timeline@ + be_bytes(r.start_lsn.0 as nat, 8)
        + be_bytes(r.max_bytes as nat, 4)
}

/// The wire form of the answer to a read.
pub open spec fn read_response_bytes(r: ReadResponseV) -> Seq<u8> {
    prefix_bytes(r.status) + be_bytes(r.commit_lsn.0 as nat, 8) + be_bytes(
        r.start_lsn.0 as nat,
        8,
    ) + be_bytes(r.payload.len() % 0x1_0000_0000, 4) + r.payload
}

/// The wire form of a request for a vote.
pub open spec fn vote_request_bytes(r: VoteRequest) -> Seq<u8> {
    prefix_bytes(TYPE_VOTE) + r.tenant@ + r.timeline@ + be_bytes(r.term as nat, 8) + be_bytes(
        r.candidate as nat,
        8,
    )
}

/// The wire form of a vote.
pub open spec fn vote_response_bytes(r: VoteResponse) -> Seq<u8> {
    prefix_bytes(
        if r.granted {
            1
        } else {
            0
        },
    ) + be_bytes(r.term as nat, 8) + be_bytes(r.flush_lsn.0 as nat, 8)
}

/// The type of a message, or what is wrong with its prefix.
pub open spec fn parse_type(prefix: Seq<u8>) -> Result<u8, Seq<char>> {
    if prefix.len() < PREFIX_LEN {
        Err("WAL message prefix too short"@)
    } else if be32(prefix, 0) != MAGIC {
        Err("bad WAL protocol magic"@)
    } else if prefix[4] != VERSION {
        Err("unsupported WAL protocol version"@)
    } else {
        Ok(prefix[5])
    }
}

/// The payload length in an append header, or what is wrong with the header.
pub open spec fn parse_append_len(header: Seq<u8>) -> Result<int, Seq<char>> {
    if header.len() < REQUEST_HEADER_LEN {
        Err("append header too short"@)
    } else if be32(header, 0) != MAGIC {
        Err("bad WAL protocol magic"@)
    } else if header[4] != VERSION {
        Err("unsupported WAL protocol version"@)
    } else if header[5] != TYPE_APPEND && header[5] != TYPE_REPLICATE {
        Err("unexpected WAL message type"@)
    } else {
        Ok(be32(header, 56) as int)
    }
}

/// The append that a message says, or what is wrong.
pub open spec fn parse_append_request(buf: Seq<u8>) -> Result<AppendRequestV, Seq<char>> {
    match parse_append_len(buf) {
        Err(m) => Err(m),
        Ok(n) => if buf.len() < REQUEST_HEADER_LEN + n {
            Err("append payload truncated"@)
        } else {
            Ok(
                AppendRequestV {
                    tenant: tenant_id_of(buf.subrange(8, 24)),
                    timeline: timeline_id_of(buf.subrange(24, 40)),
                    term: be64(buf, 40),
                    start_lsn: Lsn(be64(buf, 48)),
                    payload: buf.subrange(60, 60 + n),
                },
            )
        },
    }
}

/// The answer to an append that a message says, or what is wrong.
pub open spec fn parse_append_response(buf: Seq<u8>) -> Result<AppendResponse, Seq<char>> {
    if buf.len() < RESPONSE_LEN {
        Err("append response too short"@)
    } else if be32(buf, 0) != MAGIC || buf[4] != VERSION {
        Err("bad WAL response header"@)
    } else {
        Ok(
            AppendResponse {
                status: buf[5],
                term: be64(buf, 8),
                flush_lsn: Lsn(be64(buf, 16)),
                commit_lsn: Lsn(be64(buf, 24)),
            },
        )
    }
}

/// The read that a message says, or what is wrong.
pub open spec fn parse_read_request(buf: Seq<u8>) -> Result<ReadRequest, Seq<char>> {
    if buf.len() < READ_REQUEST_LEN {
        Err("read request too short"@)
    } else {
        match parse_type(buf) {
            Err(m) => Err(m),
            Ok(t) => if t != TYPE_READ {
                Err("unexpected WAL message type"@)
            } else {
                Ok(
                    ReadRequest {
                        tenant: tenant_id_of(buf.subrange(8, 24)),
                        timeline: timeline_id_of(buf.subrange(24, 40)),
                        start_lsn: Lsn(be64(buf, 40)),
                        max_bytes: be32(buf, 48),
                    },
                )
            },
        }
    }
}

/// The payload length in the header of the answer to a read, or what is wrong.
pub open spec fn parse_read_len(header: Seq<u8>) -> Result<int, Seq<char>> {
    if header.len() < READ_RESPONSE_HEADER_LEN {
        Err("read response header too short"@)
    } else if be32(header, 0) != MAGIC || header[4] != VERSION {
        Err("bad WAL read response header"@)
    } else {
        Ok(be32(header, 24) as int)
    }
}

/// The answer to a read that a message says, or what is wrong.
pub open spec fn parse_read_response(buf: Seq<u8>) -> Result<ReadResponseV, Seq<char>> {
    match parse_read_len(buf) {
        Err(m) => Err(m),
        Ok(n) => if buf.len() < READ_RESPONSE_HEADER_LEN + n {
            Err("read response payload truncated"@)
        } else {
            Ok(
                ReadResponseV {
                    status: buf[5],
                    commit_lsn: Lsn(be64(buf, 8)),
                    start_lsn: Lsn(be64(buf, 16)),
                    payload: buf.subrange(28, 28 + n),
                },
            )
        },
    }
}

/// The request for a vote that a message says, or what is wrong.
pub open spec fn parse_vote_request(buf: Seq<u8>) -> Result<VoteRequest, Seq<char>> {
    if buf.len() < VOTE_REQUEST_LEN {
        Err("vote request too short"@)
    } else {
        match parse_type(buf) {
            Err(m) => Err(m),
            Ok(t) => if t != TYPE_VOTE {
                Err("unexpected WAL message type"@)
            } else {
                Ok(
                    VoteRequest {
                        tenant: tenant_id_of(buf.subrange(8, 24)),
                        timeline: timeline_id_of(buf.subrange(24, 40)),
                        term: be64(buf, 40),
                        candidate: be64(buf, 48),
                    },
                )
            },
        }
    }
}

/// The vote that a message says, or what is wrong.
pub open spec fn parse_vote_response(buf: Seq<u8>) -> Result<VoteResponse, Seq<char>> {
    if buf.len() < VOTE_RESPONSE_LEN {
        Err("vote response too short"@)
    } else if be32(buf, 0) != MAGIC || buf[4] != VERSION {
        Err("bad vote response header"@)
    } else {
        Ok(
            VoteResponse {
                granted: buf[5] != 0,
                term: be64(buf, 8),
                flush_lsn: Lsn(be64(buf, 16)),
            },
        )
    }
}

fn fail<T>(why: &'static str) -> (r: Result<T, Error>)
    ensures
        r matches Err(e) && e.reason() == why@,
{
    Err(Error::parse(copy_str(why)))
}

fn put_prefix(b: &mut Vec<u8>, kind: u8)
    ensures
        final(b)@ == old(b)@ + prefix_bytes(kind),
{
    put_be_u32(b, MAGIC);
    b.push(VERSION);
    b.push(kind);
    b.push(0);
    b.push(0);
    assert(b@ =~= old(b)@ + prefix_bytes(kind));
}

/// Validate the common prefix; the type of the message.
pub fn message_type(prefix: &[u8]) -> (r: Result<u8, Error>)
    ensures
        match parse_type(prefix@) {
            Ok(t) => r matches Ok(x) && x == t,
            Err(m) => r matches Err(e) && e.reason() == m,
        },
{
    if prefix.len() < PREFIX_LEN {
        return fail("WAL message prefix too short");
    }
    if be_u32(prefix, 0) != MAGIC {
        return fail("bad WAL protocol magic");
    }
    if prefix[4] != VERSION {
        return fail("unsupported WAL protocol version");
    }
    Ok(prefix[5])
}

impl AppendRequest {
    /// Encode the request as an append.
    pub fn encode(&self) -> (b: Vec<u8>)
        ensures
            b@ == append_request_bytes(self@, TYPE_APPEND),
    {
        self.encode_as(TYPE_APPEND)
    }

    /// Encode the request as a replication (leader to peer).
    pub fn encode_replicate(&self) -> (b: Vec<u8>)
        ensures
            b@ == append_request_bytes(self@, TYPE_REPLICATE),
    {
        self.encode_as(TYPE_REPLICATE)
    }

    fn encode_as(&self, msg_type: u8) -> (b: Vec<u8>)
        ensures
            b@ == append_request_bytes(self@, msg_type),
    {
        let mut b: Vec<u8> = Vec::new();
        put_prefix(&mut b, msg_type);
        put_slice(&mut b, self.tenant.as_bytes().as_slice());
        put_slice(&mut b, self.timeline.as_bytes().as_slice());
        put_be_u64(&mut b, self.term);
        put_be_u64(&mut b, self.start_lsn.raw());
        put_be_u32(&mut b, (self.payload.len() as u64 % 0x1_0000_0000) as u32);
        put_slice(&mut b, self.payload.as_slice());
        assert(b@ =~= append_request_bytes(self@, msg_type));
        b
    }

    /// Read the payload length out of an append or replicate header.
    pub fn payload_len(header: &[u8]) -> (r: Result<usize, Error>)
        ensures
            match parse_append_len(header@) {
                Ok(n) => r matches Ok(x) && x == n,
                Err(m) => r matches Err(e) && e.reason() == m,
            },
    {
        if header.len() < REQUEST_HEADER_LEN {
            return fail("append header too short");
        }
        if be_u32(header, 0) != MAGIC {
            return fail("bad WAL protocol magic");
        }
        if header[4] != VERSION {
            return fail("unsupported WAL protocol version");
        }
        if header[5] != TYPE_APPEND && header[5] != TYPE_REPLICATE {
            return fail("unexpected WAL message type");
        }
        Ok(be_u32(header, 56) as usize)
    }

    /// Decode a complete request (header and payload).
    pub fn decode(buf: &[u8]) -> (r: Result<AppendRequest, Error>)
        ensures
            match parse_append_request(buf@) {
                Ok(q) => r matches Ok(x) && x@ == q,
                Err(m) => r matches Err(e) && e.reason() == m,
            },
    {
        let n: usize = match Self::payload_len(buf) {
            Ok(n) => n,
            Err(e) => return Err(e),
        };
        if buf.len() - REQUEST_HEADER_LEN < n {
            return fail("append payload truncated");
        }
        let tenant = TenantId::from_bytes(read_16(buf, 8));
        let timeline = TimelineId::from_bytes(read_16(buf, 24));
        proof {
            lemma_tenant_id_of(tenant);
            lemma_timeline_id_of(timeline);
        }
        Ok(
            AppendRequest {
                tenant,
                timeline,
                term: be_u64(buf, 40),
                start_lsn: Lsn(be_u64(buf, 48)),
                payload: copy_range(buf, 60, 60 + n),
            },
        )
    }

    /// The position just past the end of this request's payload.
    pub fn end_lsn(&self) -> (r: Lsn)
        requires
            self@.start_lsn.0 + self@.payload.len() <= u64::MAX,
        ensures
            r.0 == self@.start_lsn.0 + self@.payload.len(),
    {
        Lsn(self.start_lsn.raw() + self.payload.len() as u64)
    }
}

impl AppendResponse {
    /// Encode the fixed-size response.
    pub fn encode(&self) -> (b: Vec<u8>)
        ensures
            b@ == append_response_bytes(*self),
    {
        let mut b: Vec<u8> = Vec::with_capacity(RESPONSE_LEN);
        put_prefix(&mut b, self.status);
        put_be_u64(&mut b, self.term);
        put_be_u64(&mut b, self.flush_lsn.raw());
        put_be_u64(&mut b, self.commit_lsn.raw());
        assert(b@ =~= append_response_bytes(*self));
        b
    }

    /// Decode a fixed-size response.
    pub fn decode(buf: &[u8]) -> (r: Result<AppendResponse, Error>)
        ensures
            match parse_append_response(buf@) {
                Ok(q) => r matches Ok(x) && x == q,
                Err(m) => r matches Err(e) && e.reason() == m,
            },
    {
        if buf.len() < RESPONSE_LEN {
            return fail("append response too short");
        }
        if be_u32(buf, 0) != MAGIC || buf[4] != VERSION {
            return fail("bad WAL response header");
        }
        Ok(
            AppendResponse {
                status: buf[5],
                term: be_u64(buf, 8),
                flush_lsn: Lsn(be_u64(buf, 16)),
                commit_lsn: Lsn(be_u64(buf, 24)),
            },
        )
    }
}

impl ReadRequest {
    /// Encode the fixed-size read request.
    pub fn encode(&self) -> (b: Vec<u8>)
        ensures
            b@ == read_request_bytes(*self),
    {
        let mut b: Vec<u8> = Vec::with_capacity(READ_REQUEST_LEN);
        put_prefix(&mut b, TYPE_READ);
        put_slice(&mut b, self.tenant.as_bytes().as_slice());
        put_slice(&mut b, self.timeline.as_bytes().as_slice());
        put_be_u64(&mut b, self.start_lsn.raw());
        put_be_u32(&mut b, self.max_bytes);
        assert(b@ =~= read_request_bytes(*self));
        b
    }

    /// Decode a fixed-size read request.
    pub fn decode(buf: &[u8]) -> (r: Result<ReadRequest, Error>)
        ensures
            match parse_read_request(buf@) {
                Ok(q) => r matches Ok(x) && x == q,
                Err(m) => r matches Err(e) && e.reason() == m,
            },
    {
        if buf.len() < READ_REQUEST_LEN {
            return fail("read request too short");
        }
        let t: u8 = match message_type(buf) {
            Ok(t) => t,
            Err(e) => return Err(e),
        };
        if t != TYPE_READ {
            return fail("unexpected WAL message type");
        }
        let tenant = TenantId::from_bytes(read_16(buf, 8));
        let timeline = TimelineId::from_bytes(read_16(buf, 24));
        proof {
            lemma_tenant_id_of(tenant);
            lemma_timeline_id_of(timeline);
        }
        Ok(
            ReadRequest {
                tenant,
                timeline,
                start_lsn: Lsn(be_u64(buf, 40)),
                max_bytes: be_u32(buf, 48),
            },
        )
    }
}

impl ReadResponse {
    /// Encode the response (header and WAL payload).
    pub fn encode(&self) -> (b: Vec<u8>)
        ensures
            b@ == read_response_bytes(self@),
    {
        let mut b: Vec<u8> = Vec::new();
        put_prefix(&mut b, self.status);
        put_be_u64(&mut b, self.commit_lsn.raw());
        put_be_u64(&mut b, self.start_lsn.raw());
        put_be_u32(&mut b, (self.payload.len() as u64 % 0x1_0000_0000) as u32);
        put_slice(&mut b, self.payload.as_slice());
        assert(b@ =~= read_response_bytes(self@));
        b
    }

    /// Read the payload length out of a response header.
    pub fn payload_len(header: &[u8]) -> (r: Result<usize, Error>)
        ensures
            match parse_read_len(header@) {
                Ok(n) => r matches Ok(x) && x == n,
                Err(m) => r matches Err(e) && e.reason() == m,
            },
    {
        if header.len() < READ_RESPONSE_HEADER_LEN {
            return fail("read response header too short");
        }
        if be_u32(header, 0) != MAGIC || header[4] != VERSION {
            return fail("bad WAL read response header");
        }
        Ok(be_u32(header, 24) as usize)
    }

    /// Decode a complete response (header and payload).
    pub fn decode(buf: &[u8]) -> (r: Result<ReadResponse, Error>)
        ensures
            match parse_read_response(buf@) {
                Ok(q) => r matches Ok(x) && x@ == q,
                Err(m) => r matches Err(e) && e.reason() == m,
            },
    {
        let n: usize = match Self::payload_len(buf) {
            Ok(n) => n,
            Err(e) => return Err(e),
        };
        if buf.len() - READ_RESPONSE_HEADER_LEN < n {
            return fail("read response payload truncated");
        }
        Ok(
            ReadResponse {
                status: buf[5],
                commit_lsn: Lsn(be_u64(buf, 8)),
                start_lsn: Lsn(be_u64(buf, 16)),
                payload: copy_range(buf, 28, 28 + n),
            },
        )
    }
}

impl VoteRequest {
    /// Encode the fixed-size vote request.
    pub fn encode(&self) -> (b: Vec<u8>)
        ensures
            b@ == vote_request_bytes(*self),
    {
        let mut b: Vec<u8> = Vec::with_capacity(VOTE_REQUEST_LEN);
        put_prefix(&mut b, TYPE_VOTE);
        put_slice(&mut b, self.tenant.as_bytes().as_slice());
        put_slice(&mut b, self.timeline.as_bytes().as_slice());
        put_be_u64(&mut b, self.term);
        put_be_u64(&mut b, self.candidate);
        assert(b@ =~= vote_request_bytes(*self));
        b
    }

    /// Decode a fixed-size vote request.
    pub fn decode(buf: &[u8]) -> (r: Result<VoteRequest, Error>)
        ensures
            match parse_vote_request(buf@) {
                Ok(q) => r matches Ok(x) && x == q,
                Err(m) => r matches Err(e) && e.reason() == m,
            },
    {
        if buf.len() < VOTE_REQUEST_LEN {
            return fail("vote request too short");
        }
        let t: u8 = match message_type(buf) {
            Ok(t) => t,
            Err(e) => return Err(e),
        };
        if t != TYPE_VOTE {
            return fail("unexpected WAL message type");
        }
        let tenant = TenantId::from_bytes(read_16(buf, 8));
        let timeline = TimelineId::from_bytes(read_16(buf, 24));
        proof {
            lemma_tenant_id_of(tenant);
            lemma_timeline_id_of(timeline);
        }
        Ok(VoteRequest { tenant, timeline, term: be_u64(buf, 40), candidate: be_u64(buf, 48) })
    }
}

impl VoteResponse {
    /// Encode the fixed-size vote.
    pub fn encode(&self) -> (b: Vec<u8>)
        ensures
            b@ == vote_response_bytes(*self),
    {
        let mut b: Vec<u8> = Vec::with_capacity(VOTE_RESPONSE_LEN);
        let granted: u8 = if self.granted {
            1
        } else {
            0
        };
        put_prefix(&mut b, granted);
        put_be_u64(&mut b, self.term);
        put_be_u64(&mut b, self.flush_lsn.raw());
        assert(b@ =~= vote_response_bytes(*self));
        b
    }

    /// Decode a fixed-size vote.
    pub fn decode(buf: &[u8]) -> (r: Result<VoteResponse, Error>)
        ensures
            match parse_vote_response(buf@) {
                Ok(q) => r matches Ok(x) && x == q,
                Err(m) => r matches Err(e) && e.reason() == m,
            },
    {
        if buf.len() < VOTE_RESPONSE_LEN {
            return fail("vote response too short");
        }
        if be_u32(buf, 0) != MAGIC || buf[4] != VERSION {
            return fail("bad vote response header");
        }
        Ok(
            VoteResponse {
                granted: buf[5] != 0,
                term: be_u64(buf, 8),
                flush_lsn: Lsn(be_u64(buf, 16)),
            },
        )
    }
}

proof fn lemma_prefix(buf: Seq<u8>, kind: u8)
    requires
        stands_at(buf, 0, prefix_bytes(kind)),
    ensures
        buf.len() >= 8,
        prefix_bytes(kind).len() == 8,
        be32(buf, 0) == MAGIC,
        buf[4] == VERSION,
        buf[5] == kind,
{
    let tail = seq![VERSION, kind, 0u8, 0u8];
    lemma_be_bytes_len(MAGIC as nat, 4);
    lemma_pow256();
    lemma_stands_split(buf, 0, be_bytes(MAGIC as nat, 4), tail);
    lemma_stands_number(buf, 0, MAGIC as nat, 4);
    let t = buf.subrange(4, 8);
    assert(t == tail);
    assert(buf[4] == t[0] && buf[5] == t[1]);
}

proof fn lemma_whole(buf: Seq<u8>)
    ensures
        stands_at(buf, 0, buf),
{
    assert(buf.subrange(0, buf.len() as int) =~= buf);
}

/// An append or replication decoded from its own wire form is the request, where
/// its payload's length fits, and its header announces that length.
pub proof fn append_request_round_trip(r: AppendRequestV, kind: u8)
    requires
        kind == TYPE_APPEND || kind == TYPE_REPLICATE,
        r.payload.len() < 0x1_0000_0000,
    ensures
        parse_append_request(append_request_bytes(r, kind)) == Ok::<AppendRequestV, Seq<char>>(r),
        parse_append_len(append_request_bytes(r, kind)) == Ok::<int, Seq<char>>(
            r.payload.len() as int,
        ),
        parse_type(append_request_bytes(r, kind)) == Ok::<u8, Seq<char>>(kind),
{
    let buf = append_request_bytes(r, kind);
    let p = prefix_bytes(kind);
    let a = r.tenant@;
    let b = r.timeline@;
    let c = be_bytes(r.term as nat, 8);
    let d = be_bytes(r.start_lsn.0 as nat, 8);
    let e = be_bytes(r.payload.len() % 0x1_0000_0000, 4);
    lemma_whole(buf);
    lemma_be_bytes_len(r.term as nat, 8);
    lemma_be_bytes_len(r.start_lsn.0 as nat, 8);
    lemma_be_bytes_len(r.payload.len() % 0x1_0000_0000, 4);
    lemma_pow256();
    lemma_stands_split(buf, 0, p + a + b + c + d + e, r.payload);
    lemma_stands_split(buf, 0, p + a + b + c + d, e);
    lemma_stands_split(buf, 0, p + a + b + c, d);
    lemma_stands_split(buf, 0, p + a + b, c);
    lemma_stands_split(buf, 0, p + a, b);
    lemma_stands_split(buf, 0, p, a);
    lemma_prefix(buf, kind);
    lemma_stands_number(buf, 40, r.term as nat, 8);
    lemma_stands_number(buf, 48, r.start_lsn.0 as nat, 8);
    lemma_stands_number(buf, 56, r.payload.len() % 0x1_0000_0000, 4);
    lemma_tenant_id_of(r.tenant);
    lemma_timeline_id_of(r.timeline);
}

/// An answer to an append decoded from its own wire form is the answer.
pub proof fn append_response_round_trip(r: AppendResponse)
    ensures
        parse_append_response(append_response_bytes(r)) == Ok::<AppendResponse, Seq<char>>(r),
{
    let buf = append_response_bytes(r);
    let p = prefix_bytes(r.status);
    let a = be_bytes(r.term as nat, 8);
    let b = be_bytes(r.flush_lsn.0 as nat, 8);
    let c = be_bytes(r.commit_lsn.0 as nat, 8);
    lemma_whole(buf);
    lemma_be_bytes_len(r.term as nat, 8);
    lemma_be_bytes_len(r.flush_lsn.0 as nat, 8);
    lemma_be_bytes_len(r.commit_lsn.0 as nat, 8);
    lemma_pow256();
    lemma_stands_split(buf, 0, p + a + b, c);
    lemma_stands_split(buf, 0, p + a, b);
    lemma_stands_split(buf, 0, p, a);
    lemma_prefix(buf, r.status);
    lemma_stands_number(buf, 8, r.term as nat, 8);
    lemma_stands_number(buf, 16, r.flush_lsn.0 as nat, 8);
    lemma_stands_number(buf, 24, r.commit_lsn.0 as nat, 8);
}

/// A read decoded from its own wire form is the read.
pub proof fn read_request_round_trip(r: ReadRequest)
    ensures
        parse_read_request(read_request_bytes(r)) == Ok::<ReadRequest, Seq<char>>(r),
        parse_type(read_request_bytes(r)) == Ok::<u8, Seq<char>>(TYPE_READ),
{
    let buf = read_request_bytes(r);
    let p = prefix_bytes(TYPE_READ);
    let a = r.tenant@;
    let b = r.timeline@;
    let c = be_bytes(r.start_lsn.0 as nat, 8);
    let d = be_bytes(r.max_bytes as nat, 4);
    lemma_whole(buf);
    lemma_be_bytes_len(r.start_lsn.0 as nat, 8);
    lemma_be_bytes_len(r.max_bytes as nat, 4);
    lemma_pow256();
    lemma_stands_split(buf, 0, p + a + b + c, d);
    lemma_stands_split(buf, 0, p + a + b, c);
    lemma_stands_split(buf, 0, p + a, b);
    lemma_stands_split(buf, 0, p, a);
    lemma_prefix(buf, TYPE_READ);
    lemma_stands_number(buf, 40, r.start_lsn.0 as nat, 8);
    lemma_stands_number(buf, 48, r.max_bytes as nat, 4);
    lemma_tenant_id_of(r.tenant);
    lemma_timeline_id_of(r.timeline);
}

/// An answer to a read decoded from its own wire form is the answer, where its
/// payload's length fits, and its header announces that length.
pub proof fn read_response_round_trip(r: ReadResponseV)
    requires
        r.payload.len() < 0x1_0000_0000,
    ensures
        parse_read_response(read_response_bytes(r)) == Ok::<ReadResponseV, Seq<char>>(r),
        parse_read_len(read_response_bytes(r)) == Ok::<int, Seq<char>>(r.payload.len() as int),
{
    let buf = read_response_bytes(r);
    let p = prefix_bytes(r.status);
    let a = be_bytes(r.commit_lsn.0 as nat, 8);
    let b = be_bytes(r.start_lsn.0 as nat, 8);
    let c = be_bytes(r.payload.len() % 0x1_0000_0000, 4);
    lemma_whole(buf);
    lemma_be_bytes_len(r.commit_lsn.0 as nat, 8);
    lemma_be_bytes_len(r.start_lsn.0 as nat, 8);
    lemma_be_bytes_len(r.payload.len() % 0x1_0000_0000, 4);
    lemma_pow256();
    lemma_stands_split(buf, 0, p + a + b + c, r.payload);
    lemma_stands_split(buf, 0, p + a + b, c);
    lemma_stands_split(buf, 0, p + a, b);
    lemma_stands_split(buf, 0, p, a);
    lemma_prefix(buf, r.status);
    lemma_stands_number(buf, 8, r.commit_lsn.0 as nat, 8);
    lemma_stands_number(buf, 16, r.start_lsn.0 as nat, 8);
    lemma_stands_number(buf, 24, r.payload.len() % 0x1_0000_0000, 4);
}

/// A request for a vote decoded from its own wire form is the request.
pub proof fn vote_request_round_trip(r: VoteRequest)
    ensures
        parse_vote_request(vote_request_bytes(r)) == Ok::<VoteRequest, Seq<char>>(r),
        parse_type(vote_request_bytes(r)) == Ok::<u8, Seq<char>>(TYPE_VOTE),
{
    let buf = vote_request_bytes(r);
    let p = prefix_bytes(TYPE_VOTE);
    let a = r.tenant@;
    let b = r.timeline@;
    let c = be_bytes(r.term as nat, 8);
    let d = be_bytes(r.candidate as nat, 8);
    lemma_whole(buf);
    lemma_be_bytes_len(r.term as nat, 8);
    lemma_be_bytes_len(r.candidate as nat, 8);
    lemma_pow256();
    lemma_stands_split(buf, 0, p + a + b + c, d);
    lemma_stands_split(buf, 0, p + a + b, c);
    lemma_stands_split(buf, 0, p + a, b);
    lemma_stands_split(buf, 0, p, a);
    lemma_prefix(buf, TYPE_VOTE);
    lemma_stands_number(buf, 40, r.term as nat, 8);
    lemma_stands_number(buf, 48, r.candidate as nat, 8);
    lemma_tenant_id_of(r.tenant);
    lemma_timeline_id_of(r.timeline);
}

/// A vote decoded from its own wire form is the vote.
pub proof fn vote_response_round_trip(r: VoteResponse)
    ensures
        parse_vote_response(vote_response_bytes(r)) == Ok::<VoteResponse, Seq<char>>(r),
{
    let buf = vote_response_bytes(r);
    let kind: u8 = if r.granted {
        1
    } else {
        0
    };
    let p = prefix_bytes(kind);
    let a = be_bytes(r.term as nat, 8);
    let b = be_bytes(r.flush_lsn.0 as nat, 8);
    lemma_whole(buf);
    lemma_be_bytes_len(r.term as nat, 8);
    lemma_be_bytes_len(r.flush_lsn.0 as nat, 8);
    lemma_pow256();
    lemma_stands_split(buf, 0, p + a, b);
    lemma_stands_split(buf, 0, p, a);
    lemma_prefix(buf, kind);
    lemma_stands_number(buf, 8, r.term as nat, 8);
    lemma_stands_number(buf, 16, r.flush_lsn.0 as nat, 8);
}

/// A message that is cut short is refused, wherever it is cut.
pub proof fn cut_append_requests_are_refused(r: AppendRequestV, kind: u8, n: int)
    requires
        kind == TYPE_APPEND || kind == TYPE_REPLICATE,
        r.payload.len() < 0x1_0000_0000,
        0 <= n < append_request_bytes(r, kind).len(),
    ensures
        parse_append_request(append_request_bytes(r, kind).take(n)) is Err,
{
    let buf = append_request_bytes(r, kind);
    append_request_round_trip(r, kind);
    lemma_be_bytes_len(MAGIC as nat, 4);
    lemma_be_bytes_len(r.term as nat, 8);
    lemma_be_bytes_len(r.start_lsn.0 as nat, 8);
    lemma_be_bytes_len(r.payload.len() % 0x1_0000_0000, 4);
    assert(buf.len() == 60 + r.payload.len());
    if n >= 60 {
        lemma_before_cut(buf, n, 56, 4);
    }
}

/// An answer to an append that is cut short is refused.
pub proof fn cut_append_responses_are_refused(r: AppendResponse, n: int)
    requires
        0 <= n < append_response_bytes(r).len(),
    ensures
        parse_append_response(append_response_bytes(r).take(n)) is Err,
{
    lemma_be_bytes_len(MAGIC as nat, 4);
    lemma_be_bytes_len(r.term as nat, 8);
    lemma_be_bytes_len(r.flush_lsn.0 as nat, 8);
    lemma_be_bytes_len(r.commit_lsn.0 as nat, 8);
}

/// A read that is cut short is refused.
pub proof fn cut_read_requests_are_refused(r: ReadRequest, n: int)
    requires
        0 <= n < read_request_bytes(r).len(),
    ensures
        parse_read_request(read_request_bytes(r).take(n)) is Err,
{
    lemma_be_bytes_len(MAGIC as nat, 4);
    lemma_be_bytes_len(r.start_lsn.0 as nat, 8);
    lemma_be_bytes_len(r.max_bytes as nat, 4);
}

/// An answer to a read that is cut short is refused.
pub proof fn cut_read_responses_are_refused(r: ReadResponseV, n: int)
    requires
        r.payload.len() < 0x1_0000_0000,
        0 <= n < read_response_bytes(r).len(),
    ensures
        parse_read_response(read_response_bytes(r).take(n)) is Err,
{
    let buf = read_response_bytes(r);
    read_response_round_trip(r);
    lemma_be_bytes_len(MAGIC as nat, 4);
    lemma_be_bytes_len(r.commit_lsn.0 as nat, 8);
    lemma_be_bytes_len(r.start_lsn.0 as nat, 8);
    lemma_be_bytes_len(r.payload.len() % 0x1_0000_0000, 4);
    assert(buf.len() == 28 + r.payload.len());
    if n >= 28 {
        lemma_before_cut(buf, n, 24, 4);
    }
}

/// A request for a vote that is cut short is refused.
pub proof fn cut_vote_requests_are_refused(r: VoteRequest, n: int)
    requires
        0 <= n < vote_request_bytes(r).len(),
    ensures
        parse_vote_request(vote_request_bytes(r).take(n)) is Err,
{
    lemma_be_bytes_len(MAGIC as nat, 4);
    lemma_be_bytes_len(r.term as nat, 8);
    lemma_be_bytes_len(r.candidate as nat, 8);
}

/// A vote that is cut short is refused.
pub proof fn cut_vote_responses_are_refused(r: VoteResponse, n: int)
    requires
        0 <= n < vote_response_bytes(r).len(),
    ensures
        parse_vote_response(vote_response_bytes(r).take(n)) is Err,
{
    lemma_be_bytes_len(MAGIC as nat, 4);
    lemma_be_bytes_len(r.term as nat, 8);
    lemma_be_bytes_len(r.flush_lsn.0 as nat, 8);
}

/// The first `n` bytes of a message, the two reserved ones, which are not read,
/// cleared.
pub open spec fn as_read(buf: Seq<u8>, n: int) -> Seq<u8> {
    buf.take(n).update(6, 0u8).update(7, 0u8)
}

/// The prefix of a message, written again.
proof fn lemma_prefix_again(buf: Seq<u8>)
    requires
        buf.len() >= 8,
        be32(buf, 0) == MAGIC,
        buf[4] == VERSION,
    ensures
        prefix_bytes(buf[5]) == as_read(buf, 8),
{
    lemma_number_again(buf, 0, 4);
    lemma_pow256();
    assert(be_bytes(MAGIC as nat, 4) == buf.subrange(0, 4));
    assert(prefix_bytes(buf[5]) =~= as_read(buf, 8));
}

/// A message that says an append or a replication starts with its wire form, but
/// for the reserved bytes.
pub proof fn append_requests_are_written_as_they_were_read(buf: Seq<u8>)
    requires
        parse_append_request(buf) is Ok,
    ensures
        ({
            let w = append_request_bytes(parse_append_request(buf)->Ok_0, buf[5]);
            w.len() <= buf.len() && w == as_read(buf, w.len() as int)
        }),
{
    let r = parse_append_request(buf)->Ok_0;
    let n = be32(buf, 56) as int;
    lemma_pow256();
    lemma_prefix_again(buf);
    lemma_any_id(buf.subrange(8, 24));
    lemma_any_id(buf.subrange(24, 40));
    lemma_number_again(buf, 40, 8);
    lemma_number_again(buf, 48, 8);
    lemma_number_again(buf, 56, 4);
    assert(r.payload.len() == n);
    assert(append_request_bytes(r, buf[5]) =~= as_read(buf, 60 + n));
}

/// A message that says an answer to an append starts with its wire form, but for
/// the reserved bytes.
pub proof fn append_responses_are_written_as_they_were_read(buf: Seq<u8>)
    requires
        parse_append_response(buf) is Ok,
    ensures
        append_response_bytes(parse_append_response(buf)->Ok_0) == as_read(buf, 32),
{
    lemma_pow256();
    lemma_prefix_again(buf);
    lemma_number_again(buf, 8, 8);
    lemma_number_again(buf, 16, 8);
    lemma_number_again(buf, 24, 8);
    assert(append_response_bytes(parse_append_response(buf)->Ok_0) =~= as_read(buf, 32));
}

/// A message that says a read starts with its wire form, but for the reserved
/// bytes.
pub proof fn read_requests_are_written_as_they_were_read(buf: Seq<u8>)
    requires
        parse_read_request(buf) is Ok,
    ensures
        read_request_bytes(parse_read_request(buf)->Ok_0) == as_read(buf, 52),
{
    lemma_pow256();
    lemma_prefix_again(buf);
    lemma_any_id(buf.subrange(8, 24));
    lemma_any_id(buf.subrange(24, 40));
    lemma_number_again(buf, 40, 8);
    lemma_number_again(buf, 48, 4);
    assert(read_request_bytes(parse_read_request(buf)->Ok_0) =~= as_read(buf, 52));
}

/// A message that says an answer to a read starts with its wire form, but for the
/// reserved bytes.
pub proof fn read_responses_are_written_as_they_were_read(buf: Seq<u8>)
    requires
        parse_read_response(buf) is Ok,
    ensures
        ({
            let w = read_response_bytes(parse_read_response(buf)->Ok_0);
            w.len() <= buf.len() && w == as_read(buf, w.len() as int)
        }),
{
    let r = parse_read_response(buf)->Ok_0;
    let n = be32(buf, 24) as int;
    lemma_pow256();
    lemma_prefix_again(buf);
    lemma_number_again(buf, 8, 8);
    lemma_number_again(buf, 16, 8);
    lemma_number_again(buf, 24, 4);
    assert(r.payload.len() == n);
    assert(read_response_bytes(r) =~= as_read(buf, 28 + n));
}

/// A message that says a request for a vote starts with its wire form, but for
/// the reserved bytes.
pub proof fn vote_requests_are_written_as_they_were_read(buf: Seq<u8>)
    requires
        parse_vote_request(buf) is Ok,
    ensures
        vote_request_bytes(parse_vote_request(buf)->Ok_0) == as_read(buf, 56),
{
    lemma_pow256();
    lemma_prefix_again(buf);
    lemma_any_id(buf.subrange(8, 24));
    lemma_any_id(buf.subrange(24, 40));
    lemma_number_again(buf, 40, 8);
    lemma_number_again(buf, 48, 8);
    assert(vote_request_bytes(parse_vote_request(buf)->Ok_0) =~= as_read(buf, 56));
}

/// A message that says a vote, in the usual 0 or 1, starts with its wire form, but
/// for the reserved bytes.
pub proof fn vote_responses_are_written_as_they_were_read(buf: Seq<u8>)
    requires
        parse_vote_response(buf) is Ok,
        buf[5] <= 1,
    ensures
        vote_response_bytes(parse_vote_response(buf)->Ok_0) == as_read(buf, 24),
{
    lemma_pow256();
    lemma_prefix_again(buf);
    lemma_number_again(buf, 8, 8);
    lemma_number_again(buf, 16, 8);
    assert(vote_response_bytes(parse_vote_response(buf)->Ok_0) =~= as_read(buf, 24));
}

/// A vote is granted by every status but 0.
pub proof fn any_status_but_zero_grants(buf: Seq<u8>)
    requires
        parse_vote_response(buf) is Ok,
    ensures
        parse_vote_response(buf)->Ok_0.granted <==> buf[5] != 0,
{
}

} // verus!
