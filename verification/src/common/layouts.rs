//! Where each field of a message stands, byte by byte.
//!
//! The two protocols are spoken by other programs, so that a message is not only what
//! is read back from it: numbers stand most significant byte first, at fixed places.

use vstd::prelude::*;
use vstd::utf8::encode_utf8;

use crate::bytes::{
    be_bytes, be_round_trip, be_value, lemma_be_value_bound, lemma_behind, lemma_pow256,
};
use crate::common::ids::{TenantId, TimelineId};
use crate::common::lsn::Lsn;
use crate::common::page::{ForkNumber, RelTag};
use crate::common::page_service::{
    parse_request, parse_response, parse_total_len, request_bytes, response_bytes, Request,
    ResponseV,
};
use crate::common::wal_service::{
    append_request_bytes, append_response_bytes, parse_append_len, parse_append_request,
    parse_append_response, parse_read_len, parse_read_request, parse_read_response, parse_type,
    parse_vote_request, parse_vote_response, read_request_bytes, read_response_bytes,
    vote_request_bytes, vote_response_bytes, AppendRequestV, AppendResponse, ReadRequest,
    ReadResponseV, VoteRequest, VoteResponse,
};

verus! {

/// The number that a fork has on the wire.
pub open spec fn fork_byte(f: ForkNumber) -> u8 {
    match f {
        ForkNumber::Main => 0,
        ForkNumber::Fsm => 1,
        ForkNumber::VisibilityMap => 2,
        ForkNumber::Init => 3,
    }
}

/// A request for a page.
pub proof fn get_page_requests_are_laid_out(tenant: TenantId, timeline: TimelineId, rel: RelTag, block: u32, lsn: Lsn)
    ensures
        ({
            let b = request_bytes(Request::GetPage { tenant, timeline, rel, block, lsn });
            &&& b.len() == 64
            &&& be_value(b.subrange(0, 4)) == 0x5350_4731
            &&& b[4] == 1
            &&& b[5] == 1
            &&& b[6] == fork_byte(rel.fork)
            &&& b[7] == 0
            &&& b.subrange(8, 24) == tenant@
            &&& b.subrange(24, 40) == timeline@
            &&& be_value(b.subrange(40, 44)) == rel.spc_node
            &&& be_value(b.subrange(44, 48)) == rel.db_node
            &&& be_value(b.subrange(48, 52)) == rel.rel_node
            &&& be_value(b.subrange(52, 56)) == block
            &&& be_value(b.subrange(56, 64)) == lsn.0
        }),
{
    let b = request_bytes(Request::GetPage { tenant, timeline, rel, block, lsn });
    lemma_pow256();
    be_round_trip(0x5350_4731 as nat, 4);
    be_round_trip(rel.spc_node as nat, 4);
    be_round_trip(rel.db_node as nat, 4);
    be_round_trip(rel.rel_node as nat, 4);
    be_round_trip(block as nat, 4);
    be_round_trip(lsn.0 as nat, 8);
    assert(b.subrange(0, 4) =~= be_bytes(0x5350_4731 as nat, 4));
    assert(b.subrange(8, 24) =~= tenant@);
    assert(b.subrange(24, 40) =~= timeline@);
    assert(b.subrange(40, 44) =~= be_bytes(rel.spc_node as nat, 4));
    assert(b.subrange(44, 48) =~= be_bytes(rel.db_node as nat, 4));
    assert(b.subrange(48, 52) =~= be_bytes(rel.rel_node as nat, 4));
    assert(b.subrange(52, 56) =~= be_bytes(block as nat, 4));
    assert(b.subrange(56, 64) =~= be_bytes(lsn.0 as nat, 8));
}

/// A request for the size of a relation fork.
pub proof fn get_rel_size_requests_are_laid_out(tenant: TenantId, timeline: TimelineId, rel: RelTag, lsn: Lsn)
    ensures
        ({
            let b = request_bytes(Request::GetRelSize { tenant, timeline, rel, lsn });
            &&& b.len() == 60
            &&& be_value(b.subrange(0, 4)) == 0x5350_4731
            &&& b[4] == 1
            &&& b[5] == 2
            &&& b[6] == fork_byte(rel.fork)
            &&& b[7] == 0
            &&& b.subrange(8, 24) == tenant@
            &&& b.subrange(24, 40) == timeline@
            &&& be_value(b.subrange(40, 44)) == rel.spc_node
            &&& be_value(b.subrange(44, 48)) == rel.db_node
            &&& be_value(b.subrange(48, 52)) == rel.rel_node
            &&& be_value(b.subrange(52, 60)) == lsn.0
        }),
{
    let b = request_bytes(Request::GetRelSize { tenant, timeline, rel, lsn });
    lemma_pow256();
    be_round_trip(0x5350_4731 as nat, 4);
    be_round_trip(rel.spc_node as nat, 4);
    be_round_trip(rel.db_node as nat, 4);
    be_round_trip(rel.rel_node as nat, 4);
    be_round_trip(lsn.0 as nat, 8);
    assert(b.subrange(0, 4) =~= be_bytes(0x5350_4731 as nat, 4));
    assert(b.subrange(8, 24) =~= tenant@);
    assert(b.subrange(24, 40) =~= timeline@);
    assert(b.subrange(40, 44) =~= be_bytes(rel.spc_node as nat, 4));
    assert(b.subrange(44, 48) =~= be_bytes(rel.db_node as nat, 4));
    assert(b.subrange(48, 52) =~= be_bytes(rel.rel_node as nat, 4));
    assert(b.subrange(52, 60) =~= be_bytes(lsn.0 as nat, 8));
}

/// The answer to a request: a page.
pub proof fn page_responses_are_laid_out(page: Seq<u8>)
    requires
        page.len() < 0x1_0000_0000,
    ensures
        ({
            let b = response_bytes(ResponseV::Page(page));
            &&& be_value(b.subrange(0, 4)) == 0x5350_4731
            &&& b[4] == 1
            &&& b[5] == 0
            &&& b[6] == 0
            &&& b[7] == 0
            &&& be_value(b.subrange(8, 12)) == page.len()
            &&& b.skip(12) == page
        }),
{
    let b = response_bytes(ResponseV::Page(page));
    lemma_pow256();
    be_round_trip(0x5350_4731 as nat, 4);
    be_round_trip(page.len() % 0x1_0000_0000, 4);
    assert(b.subrange(0, 4) =~= be_bytes(0x5350_4731 as nat, 4));
    assert(b.subrange(8, 12) =~= be_bytes(page.len() % 0x1_0000_0000, 4));
    assert(b.skip(12) =~= page);
}

/// The answer to a request: a number of blocks.
pub proof fn size_responses_are_laid_out(blocks: u32)
    ensures
        ({
            let b = response_bytes(ResponseV::RelSize(blocks));
            &&& b.len() == 16
            &&& be_value(b.subrange(0, 4)) == 0x5350_4731
            &&& b[4] == 1
            &&& b[5] == 0
            &&& b[6] == 0
            &&& b[7] == 0
            &&& be_value(b.subrange(8, 12)) == 4
            &&& be_value(b.subrange(12, 16)) == blocks
        }),
{
    let b = response_bytes(ResponseV::RelSize(blocks));
    lemma_pow256();
    be_round_trip(0x5350_4731 as nat, 4);
    be_round_trip(4nat, 4);
    be_round_trip(blocks as nat, 4);
    assert(b.subrange(0, 4) =~= be_bytes(0x5350_4731 as nat, 4));
    assert(b.subrange(8, 12) =~= be_bytes(4nat, 4));
    assert(b.subrange(12, 16) =~= be_bytes(blocks as nat, 4));
}

/// The answer to a request: not found.
pub proof fn not_found_responses_are_laid_out()
    ensures
        ({
            let b = response_bytes(ResponseV::NotFound);
            &&& b.len() == 12
            &&& be_value(b.subrange(0, 4)) == 0x5350_4731
            &&& b[4] == 1
            &&& b[5] == 1
            &&& b[6] == 0
            &&& b[7] == 0
            &&& be_value(b.subrange(8, 12)) == 0
        }),
{
    let b = response_bytes(ResponseV::NotFound);
    lemma_pow256();
    be_round_trip(0x5350_4731 as nat, 4);
    be_round_trip(0nat, 4);
    assert(b.subrange(0, 4) =~= be_bytes(0x5350_4731 as nat, 4));
    assert(b.subrange(8, 12) =~= be_bytes(0nat, 4));
}

/// The answer to a request: an error with its message.
pub proof fn error_responses_are_laid_out(message: Seq<char>)
    requires
        encode_utf8(message).len() < 0x1_0000_0000,
    ensures
        ({
            let b = response_bytes(ResponseV::Error(message));
            &&& be_value(b.subrange(0, 4)) == 0x5350_4731
            &&& b[4] == 1
            &&& b[5] == 2
            &&& b[6] == 0
            &&& b[7] == 0
            &&& be_value(b.subrange(8, 12)) == encode_utf8(message).len()
            &&& b.skip(12) == encode_utf8(message)
        }),
{
    let b = response_bytes(ResponseV::Error(message));
    lemma_pow256();
    be_round_trip(0x5350_4731 as nat, 4);
    be_round_trip(encode_utf8(message).len() % 0x1_0000_0000, 4);
    assert(b.subrange(0, 4) =~= be_bytes(0x5350_4731 as nat, 4));
    assert(b.subrange(8, 12) =~= be_bytes(encode_utf8(message).len() % 0x1_0000_0000, 4));
    assert(b.skip(12) =~= encode_utf8(message));
}

/// An append, or with type 3 a replication.
pub proof fn appends_are_laid_out(r: AppendRequestV, kind: u8)
    requires
        r.payload.len() < 0x1_0000_0000,
    ensures
        ({
            let b = append_request_bytes(r, kind);
            &&& b.len() == 60 + r.payload.len()
            &&& be_value(b.subrange(0, 4)) == 0x5357_4C31
            &&& b[4] == 1
            &&& b[5] == kind
            &&& b[6] == 0
            &&& b[7] == 0
            &&& b.subrange(8, 24) == r.tenant@
            &&& b.subrange(24, 40) == r.timeline@
            &&& be_value(b.subrange(40, 48)) == r.term
            &&& be_value(b.subrange(48, 56)) == r.start_lsn.0
            &&& be_value(b.subrange(56, 60)) == r.payload.len()
            &&& b.skip(60) == r.payload
        }),
{
    let b = append_request_bytes(r, kind);
    lemma_pow256();
    be_round_trip(0x5357_4C31 as nat, 4);
    be_round_trip(r.term as nat, 8);
    be_round_trip(r.start_lsn.0 as nat, 8);
    be_round_trip(r.payload.len() % 0x1_0000_0000, 4);
    assert(b.subrange(0, 4) =~= be_bytes(0x5357_4C31 as nat, 4));
    assert(b.subrange(8, 24) =~= r.tenant@);
    assert(b.subrange(24, 40) =~= r.timeline@);
    assert(b.subrange(40, 48) =~= be_bytes(r.term as nat, 8));
    assert(b.subrange(48, 56) =~= be_bytes(r.start_lsn.0 as nat, 8));
    assert(b.subrange(56, 60) =~= be_bytes(r.payload.len() % 0x1_0000_0000, 4));
    assert(b.skip(60) =~= r.payload);
}

/// The answer to an append.
pub proof fn append_answers_are_laid_out(r: AppendResponse)
    ensures
        ({
            let b = append_response_bytes(r);
            &&& b.len() == 32
            &&& be_value(b.subrange(0, 4)) == 0x5357_4C31
            &&& b[4] == 1
            &&& b[5] == r.status
            &&& b[6] == 0
            &&& b[7] == 0
            &&& be_value(b.subrange(8, 16)) == r.term
            &&& be_value(b.subrange(16, 24)) == r.flush_lsn.0
            &&& be_value(b.subrange(24, 32)) == r.commit_lsn.0
        }),
{
    let b = append_response_bytes(r);
    lemma_pow256();
    be_round_trip(0x5357_4C31 as nat, 4);
    be_round_trip(r.term as nat, 8);
    be_round_trip(r.flush_lsn.0 as nat, 8);
    be_round_trip(r.commit_lsn.0 as nat, 8);
    assert(b.subrange(0, 4) =~= be_bytes(0x5357_4C31 as nat, 4));
    assert(b.subrange(8, 16) =~= be_bytes(r.term as nat, 8));
    assert(b.subrange(16, 24) =~= be_bytes(r.flush_lsn.0 as nat, 8));
    assert(b.subrange(24, 32) =~= be_bytes(r.commit_lsn.0 as nat, 8));
}

/// A read.
pub proof fn reads_are_laid_out(r: ReadRequest)
    ensures
        ({
            let b = read_request_bytes(r);
            &&& b.len() == 52
            &&& be_value(b.subrange(0, 4)) == 0x5357_4C31
            &&& b[4] == 1
            &&& b[5] == 2
            &&& b[6] == 0
            &&& b[7] == 0
            &&& b.subrange(8, 24) == r.tenant@
            &&& b.subrange(24, 40) == r.timeline@
            &&& be_value(b.subrange(40, 48)) == r.start_lsn.0
            &&& be_value(b.subrange(48, 52)) == r.max_bytes
        }),
{
    let b = read_request_bytes(r);
    lemma_pow256();
    be_round_trip(0x5357_4C31 as nat, 4);
    be_round_trip(r.start_lsn.0 as nat, 8);
    be_round_trip(r.max_bytes as nat, 4);
    assert(b.subrange(0, 4) =~= be_bytes(0x5357_4C31 as nat, 4));
    assert(b.subrange(8, 24) =~= r.tenant@);
    assert(b.subrange(24, 40) =~= r.timeline@);
    assert(b.subrange(40, 48) =~= be_bytes(r.start_lsn.0 as nat, 8));
    assert(b.subrange(48, 52) =~= be_bytes(r.max_bytes as nat, 4));
}

/// The answer to a read.
pub proof fn read_answers_are_laid_out(r: ReadResponseV)
    requires
        r.payload.len() < 0x1_0000_0000,
    ensures
        ({
            let b = read_response_bytes(r);
            &&& b.len() == 28 + r.payload.len()
            &&& be_value(b.subrange(0, 4)) == 0x5357_4C31
            &&& b[4] == 1
            &&& b[5] == r.status
            &&& b[6] == 0
            &&& b[7] == 0
            &&& be_value(b.subrange(8, 16)) == r.commit_lsn.0
            &&& be_value(b.subrange(16, 24)) == r.start_lsn.0
            &&& be_value(b.subrange(24, 28)) == r.payload.len()
            &&& b.skip(28) == r.payload
        }),
{
    let b = read_response_bytes(r);
    lemma_pow256();
    be_round_trip(0x5357_4C31 as nat, 4);
    be_round_trip(r.commit_lsn.0 as nat, 8);
    be_round_trip(r.start_lsn.0 as nat, 8);
    be_round_trip(r.payload.len() % 0x1_0000_0000, 4);
    assert(b.subrange(0, 4) =~= be_bytes(0x5357_4C31 as nat, 4));
    assert(b.subrange(8, 16) =~= be_bytes(r.commit_lsn.0 as nat, 8));
    assert(b.subrange(16, 24) =~= be_bytes(r.start_lsn.0 as nat, 8));
    assert(b.subrange(24, 28) =~= be_bytes(r.payload.len() % 0x1_0000_0000, 4));
    assert(b.skip(28) =~= r.payload);
}

/// A request for a vote.
pub proof fn vote_requests_are_laid_out(r: VoteRequest)
    ensures
        ({
            let b = vote_request_bytes(r);
            &&& b.len() == 56
            &&& be_value(b.subrange(0, 4)) == 0x5357_4C31
            &&& b[4] == 1
            &&& b[5] == 4
            &&& b[6] == 0
            &&& b[7] == 0
            &&& b.subrange(8, 24) == r.tenant@
            &&& b.subrange(24, 40) == r.timeline@
            &&& be_value(b.subrange(40, 48)) == r.term
            &&& be_value(b.subrange(48, 56)) == r.candidate
        }),
{
    let b = vote_request_bytes(r);
    lemma_pow256();
    be_round_trip(0x5357_4C31 as nat, 4);
    be_round_trip(r.term as nat, 8);
    be_round_trip(r.candidate as nat, 8);
    assert(b.subrange(0, 4) =~= be_bytes(0x5357_4C31 as nat, 4));
    assert(b.subrange(8, 24) =~= r.tenant@);
    assert(b.subrange(24, 40) =~= r.timeline@);
    assert(b.subrange(40, 48) =~= be_bytes(r.term as nat, 8));
    assert(b.subrange(48, 56) =~= be_bytes(r.candidate as nat, 8));
}

/// A vote: 1 where it is granted, and 0 where it is not.
pub proof fn votes_are_laid_out(r: VoteResponse)
    ensures
        ({
            let b = vote_response_bytes(r);
            &&& b.len() == 24
            &&& be_value(b.subrange(0, 4)) == 0x5357_4C31
            &&& b[4] == 1
            &&& b[5] == (if r.granted {
                1int
            } else {
                0
            })
            &&& b[6] == 0
            &&& b[7] == 0
            &&& be_value(b.subrange(8, 16)) == r.term
            &&& be_value(b.subrange(16, 24)) == r.flush_lsn.0
        }),
{
    let b = vote_response_bytes(r);
    lemma_pow256();
    be_round_trip(0x5357_4C31 as nat, 4);
    be_round_trip(r.term as nat, 8);
    be_round_trip(r.flush_lsn.0 as nat, 8);
    assert(b.subrange(0, 4) =~= be_bytes(0x5357_4C31 as nat, 4));
    assert(b.subrange(8, 16) =~= be_bytes(r.term as nat, 8));
    assert(b.subrange(16, 24) =~= be_bytes(r.flush_lsn.0 as nat, 8));
}

/// A page-service message that does not begin with the protocol's magic and version is
/// neither a request nor a response, and no length is taken from it.
pub proof fn foreign_page_messages_are_refused(b: Seq<u8>)
    requires
        b.len() >= 8,
        be_value(b.subrange(0, 4)) != 0x5350_4731 || b[4] != 1,
    ensures
        parse_total_len(b) is Err,
        parse_request(b) is Err,
        parse_response(b) is Err,
{
    lemma_pow256();
    lemma_be_value_bound(b.subrange(0, 4));
}

/// A request has one of two types and one of four forks; a response one of three
/// statuses.
pub proof fn unknown_page_messages_are_refused(b: Seq<u8>)
    requires
        b.len() >= 8,
    ensures
        b[5] != 1 && b[5] != 2 ==> parse_total_len(b) is Err && parse_request(b) is Err,
        b[6] > 3 ==> parse_request(b) is Err,
        b[5] > 2 ==> parse_response(b) is Err,
{
}

/// What a request's first bytes announce is the length of the request.
pub proof fn request_heads_announce_the_request(r: Request)
    ensures
        parse_total_len(request_bytes(r).take(8)) == Ok::<int, Seq<char>>(
            request_bytes(r).len() as int,
        ),
{
    let b = request_bytes(r);
    let h = b.take(8);
    match r {
        Request::GetPage { tenant, timeline, rel, block, lsn } => {
            get_page_requests_are_laid_out(tenant, timeline, rel, block, lsn);
        },
        Request::GetRelSize { tenant, timeline, rel, lsn } => {
            get_rel_size_requests_are_laid_out(tenant, timeline, rel, lsn);
        },
    }
    assert(h.subrange(0, 4) =~= b.subrange(0, 4));
}

/// A WAL-service message that does not begin with the protocol's magic and version is
/// none of its messages, and neither a type nor a length is taken from it.
pub proof fn foreign_wal_messages_are_refused(b: Seq<u8>)
    requires
        b.len() >= 8,
        be_value(b.subrange(0, 4)) != 0x5357_4C31 || b[4] != 1,
    ensures
        parse_type(b) is Err,
        parse_append_len(b) is Err,
        parse_read_len(b) is Err,
        parse_append_request(b) is Err,
        parse_append_response(b) is Err,
        parse_read_request(b) is Err,
        parse_read_response(b) is Err,
        parse_vote_request(b) is Err,
        parse_vote_response(b) is Err,
{
    lemma_pow256();
    lemma_be_value_bound(b.subrange(0, 4));
}

/// A request is read only under its own type: appends under 1 or 3, reads under 2 and
/// votes under 4.
pub proof fn wal_requests_of_another_type_are_refused(b: Seq<u8>)
    requires
        b.len() >= 8,
    ensures
        parse_type(b) matches Ok(t) ==> t == b[5],
        b[5] != 1 && b[5] != 3 ==> parse_append_len(b) is Err && parse_append_request(b) is Err,
        b[5] != 2 ==> parse_read_request(b) is Err,
        b[5] != 4 ==> parse_vote_request(b) is Err,
{
}

/// The numbers that a whole message and its first `n` bytes begin with are the same.
proof fn lemma_wal_head(b: Seq<u8>, n: int)
    requires
        8 <= n <= b.len(),
        be_value(b.subrange(0, 4)) == 0x5357_4C31,
        b[4] == 1,
    ensures
        parse_type(b.take(n)) == Ok::<u8, Seq<char>>(b[5]),
        n >= 60 && (b[5] == 1 || b[5] == 3) ==> parse_append_len(b.take(n)) == Ok::<int, Seq<char>>(
            be_value(b.subrange(56, 60)) as int,
        ),
        n >= 28 ==> parse_read_len(b.take(n)) == Ok::<int, Seq<char>>(
            be_value(b.subrange(24, 28)) as int,
        ),
{
    let h = b.take(n);
    lemma_pow256();
    assert(h.subrange(0, 4) =~= b.subrange(0, 4));
    if n >= 28 {
        assert(h.subrange(24, 28) =~= b.subrange(24, 28));
        lemma_be_value_bound(b.subrange(24, 28));
    }
    if n >= 60 {
        assert(h.subrange(56, 60) =~= b.subrange(56, 60));
        lemma_be_value_bound(b.subrange(56, 60));
    }
}

/// What the first bytes of an append announce is its type and the length of its payload.
pub proof fn append_heads_announce_the_payload(r: AppendRequestV, kind: u8)
    requires
        r.payload.len() < 0x1_0000_0000,
        kind == 1 || kind == 3,
    ensures
        parse_type(append_request_bytes(r, kind).take(8)) == Ok::<u8, Seq<char>>(kind),
        parse_append_len(append_request_bytes(r, kind).take(60)) == Ok::<int, Seq<char>>(
            r.payload.len() as int,
        ),
{
    appends_are_laid_out(r, kind);
    lemma_wal_head(append_request_bytes(r, kind), 8);
    lemma_wal_head(append_request_bytes(r, kind), 60);
}

/// What the first bytes of the answer to a read announce is the length of its payload.
pub proof fn read_heads_announce_the_payload(r: ReadResponseV)
    requires
        r.payload.len() < 0x1_0000_0000,
    ensures
        parse_read_len(read_response_bytes(r).take(28)) == Ok::<int, Seq<char>>(
            r.payload.len() as int,
        ),
{
    read_answers_are_laid_out(r);
    lemma_wal_head(read_response_bytes(r), 28);
}

/// What the first bytes of a read or of a request for a vote announce is its type.
pub proof fn read_and_vote_heads_announce_their_type(r: ReadRequest, v: VoteRequest)
    ensures
        parse_type(read_request_bytes(r).take(8)) == Ok::<u8, Seq<char>>(2u8),
        parse_type(vote_request_bytes(v).take(8)) == Ok::<u8, Seq<char>>(4u8),
{
    reads_are_laid_out(r);
    vote_requests_are_laid_out(v);
    lemma_wal_head(read_request_bytes(r), 8);
    lemma_wal_head(vote_request_bytes(v), 8);
}

/// What follows a whole message of the page service does not change what it says.
pub proof fn page_messages_end_where_they_say(b: Seq<u8>, more: Seq<u8>)
    ensures
        parse_total_len(b) is Ok ==> parse_total_len(b + more) == parse_total_len(b),
        parse_request(b) is Ok ==> parse_request(b + more) == parse_request(b),
        parse_response(b) is Ok ==> parse_response(b + more) == parse_response(b),
{
    if parse_total_len(b) is Ok {
        lemma_behind(b, more, 0, 4);
    }
    if parse_request(b) is Ok {
        lemma_behind(b, more, 0, 4);
        lemma_behind(b, more, 8, 16);
        lemma_behind(b, more, 24, 16);
        lemma_behind(b, more, 40, 4);
        lemma_behind(b, more, 44, 4);
        lemma_behind(b, more, 48, 4);
        lemma_behind(b, more, 52, 8);
        if b[5] == 1 {
            lemma_behind(b, more, 52, 4);
            lemma_behind(b, more, 56, 8);
        }
    }
    if parse_response(b) is Ok {
        lemma_behind(b, more, 0, 4);
        lemma_behind(b, more, 8, 4);
        let n = be_value(b.subrange(8, 12)) as u32 as int;
        lemma_behind(b, more, 12, n);
        if n == 4 {
            lemma_behind(b, more, 12, 4);
        }
    }
}

/// What follows a whole message of the WAL service does not change what it says.
pub proof fn wal_messages_end_where_they_say(b: Seq<u8>, more: Seq<u8>)
    ensures
        parse_append_request(b) is Ok ==> parse_append_request(b + more) == parse_append_request(b),
        parse_append_response(b) is Ok ==> parse_append_response(b + more)
            == parse_append_response(b),
        parse_read_request(b) is Ok ==> parse_read_request(b + more) == parse_read_request(b),
        parse_read_response(b) is Ok ==> parse_read_response(b + more) == parse_read_response(b),
        parse_vote_request(b) is Ok ==> parse_vote_request(b + more) == parse_vote_request(b),
        parse_vote_response(b) is Ok ==> parse_vote_response(b + more) == parse_vote_response(b),
{
    if b.len() >= 24 {
        lemma_behind(b, more, 0, 4);
        lemma_behind(b, more, 8, 8);
        lemma_behind(b, more, 8, 16);
        lemma_behind(b, more, 16, 8);
    }
    if b.len() >= 28 {
        lemma_behind(b, more, 24, 4);
        let n = be_value(b.subrange(24, 28)) as u32 as int;
        if 28 + n <= b.len() {
            lemma_behind(b, more, 28, n);
        }
    }
    if b.len() >= 32 {
        lemma_behind(b, more, 24, 8);
    }
    if b.len() >= 52 {
        lemma_behind(b, more, 24, 16);
        lemma_behind(b, more, 40, 8);
        lemma_behind(b, more, 48, 4);
    }
    if b.len() >= 56 {
        lemma_behind(b, more, 48, 8);
    }
    if b.len() >= 60 {
        lemma_behind(b, more, 56, 4);
        let n = be_value(b.subrange(56, 60)) as u32 as int;
        if 60 + n <= b.len() {
            lemma_behind(b, more, 60, n);
        }
    }
}

} // verus!
