//! Where each field of the page store's formats stands, byte by byte: modifications on
//! the ingest endpoint, offloaded layers, and the messages to and from a wal-redo
//! process. Numbers stand most significant byte first.

use vstd::prelude::*;
use vstd::utf8::encode_utf8;

use crate::bytes::{
    be_bytes, be_round_trip, be_value, lemma_be_bytes_len, lemma_be_value_bound, lemma_pow256,
};
use crate::common::layouts::fork_byte;
use crate::common::lsn::Lsn;
use crate::common::page::PageKey;
use crate::common::wal_service::{STATUS_OK, STATUS_REJECTED, STATUS_STALE_TERM, TYPE_REPLICATE};
use crate::pageserver::basebackup::{DEFAULT_SPC, GLOBAL_SPC};
use crate::pageserver::httpapi::MAX_HEAD;
use crate::pageserver::layer::{
    layer_bytes, layer_head, listing_bytes, parse_layer, LayerId, LayerV, ListingV,
};
use crate::pageserver::lsnmap::ordered;
use crate::pageserver::page::{
    address_bytes, edit_bytes, edits_bytes, parse_address, parse_version, version_bytes, EditV,
    PageErrorV, VersionV,
};
use crate::pageserver::server::MAX_INGEST_BODY;
use crate::pageserver::waldecode::DEFAULT_WAL_SEG_SIZE;
use crate::pageserver::walreceiver::DEFAULT_MAX_CHUNK;
use crate::pageserver::walredo_process::{reply_kind, RedoReply};
use crate::pageserver::walredo_proto::{
    parse_redo_request, parse_redo_response, redo_head_bytes, redo_record_bytes, redo_records_bytes,
    redo_request_bytes, redo_response_bytes, RedoRequestV, RedoResponseV,
};

verus! {

/// A page's address and a position.
pub proof fn addresses_are_laid_out(key: PageKey, lsn: Lsn)
    ensures
        ({
            let b = address_bytes(key, lsn);
            &&& b.len() == 25
            &&& be_value(b.subrange(0, 4)) == key.rel.spc_node
            &&& be_value(b.subrange(4, 8)) == key.rel.db_node
            &&& be_value(b.subrange(8, 12)) == key.rel.rel_node
            &&& b[12] == fork_byte(key.rel.fork)
            &&& be_value(b.subrange(13, 17)) == key.block
            &&& be_value(b.subrange(17, 25)) == lsn.0
        }),
{
    let b = address_bytes(key, lsn);
    lemma_pow256();
    be_round_trip(key.rel.spc_node as nat, 4);
    be_round_trip(key.rel.db_node as nat, 4);
    be_round_trip(key.rel.rel_node as nat, 4);
    be_round_trip(key.block as nat, 4);
    be_round_trip(lsn.0 as nat, 8);
    assert(b.subrange(0, 4) =~= be_bytes(key.rel.spc_node as nat, 4));
    assert(b.subrange(4, 8) =~= be_bytes(key.rel.db_node as nat, 4));
    assert(b.subrange(8, 12) =~= be_bytes(key.rel.rel_node as nat, 4));
    assert(b.subrange(13, 17) =~= be_bytes(key.block as nat, 4));
    assert(b.subrange(17, 25) =~= be_bytes(lsn.0 as nat, 8));
}

/// An edit.
pub proof fn edits_are_laid_out(e: EditV)
    requires
        e.data.len() < 0x1_0000,
    ensures
        ({
            let b = edit_bytes(e);
            &&& be_value(b.subrange(0, 2)) == e.offset
            &&& be_value(b.subrange(2, 4)) == e.data.len()
            &&& b.skip(4) == e.data
        }),
{
    let b = edit_bytes(e);
    lemma_pow256();
    be_round_trip(e.offset as nat, 2);
    be_round_trip(e.data.len() % 0x1_0000, 2);
    assert(b.subrange(0, 2) =~= be_bytes(e.offset as nat, 2));
    assert(b.subrange(2, 4) =~= be_bytes(e.data.len() % 0x1_0000, 2));
    assert(b.skip(4) =~= e.data);
}

/// An image: a zero and the page. A delta: a one, the number of edits, and the edits one
/// behind the other.
pub proof fn versions_are_laid_out(img: Seq<u8>, edits: Seq<EditV>, last: EditV)
    requires
        edits.len() < 0x1_0000,
    ensures
        version_bytes(VersionV::Image(img))[0] == 0,
        version_bytes(VersionV::Image(img)).skip(1) == img,
        ({
            let b = version_bytes(VersionV::Delta(edits));
            &&& b[0] == 1
            &&& be_value(b.subrange(1, 3)) == edits.len()
            &&& b.skip(3) == edits_bytes(edits)
        }),
        edits_bytes(Seq::empty()).len() == 0,
        edits_bytes(edits.push(last)) == edits_bytes(edits) + edit_bytes(last),
{
    lemma_pow256();
    be_round_trip(edits.len() % 0x1_0000, 2);
    let b = version_bytes(VersionV::Delta(edits));
    assert(version_bytes(VersionV::Image(img)).skip(1) =~= img);
    assert(b.subrange(1, 3) =~= be_bytes(edits.len() % 0x1_0000, 2));
    assert(b.skip(3) =~= edits_bytes(edits));
    assert(edits.push(last).drop_last() =~= edits);
}

/// The head of a layer: its magic number, the version of the format, its id and the number
/// of its entries.
pub proof fn layers_are_laid_out(id: LayerId, n: nat)
    requires
        n < 0x1_0000_0000,
    ensures
        ({
            let b = layer_head(id, n);
            &&& b.len() == 17
            &&& be_value(b.subrange(0, 4)) == 0x5350_4C31
            &&& b[4] == 1
            &&& be_value(b.subrange(5, 13)) == id
            &&& be_value(b.subrange(13, 17)) == n
        }),
{
    let b = layer_head(id, n);
    lemma_pow256();
    be_round_trip(0x5350_4C31 as nat, 4);
    be_round_trip(id as nat, 8);
    be_round_trip(n % 0x1_0000_0000, 4);
    assert(b.subrange(0, 4) =~= be_bytes(0x5350_4C31 as nat, 4));
    assert(b.subrange(5, 13) =~= be_bytes(id as nat, 8));
    assert(b.subrange(13, 17) =~= be_bytes(n % 0x1_0000_0000, 4));
}

/// The head of a request to a wal-redo process.
pub proof fn redo_heads_are_laid_out(r: RedoRequestV)
    ensures
        ({
            let b = redo_head_bytes(r);
            &&& b.len() == 28
            &&& be_value(b.subrange(0, 4)) == 0x5752_4431
            &&& b[4] == 1
            &&& b[5] == (if r.base_image is Some {
                1int
            } else {
                0
            })
            &&& b[6] == 0
            &&& b[7] == 0
            &&& be_value(b.subrange(8, 12)) == r.rel.spc_node
            &&& be_value(b.subrange(12, 16)) == r.rel.db_node
            &&& be_value(b.subrange(16, 20)) == r.rel.rel_node
            &&& b[20] == fork_byte(r.rel.fork)
            &&& b[21] == 0
            &&& b[22] == 0
            &&& b[23] == 0
            &&& be_value(b.subrange(24, 28)) == r.blkno
        }),
{
    let b = redo_head_bytes(r);
    lemma_pow256();
    be_round_trip(0x5752_4431 as nat, 4);
    be_round_trip(r.rel.spc_node as nat, 4);
    be_round_trip(r.rel.db_node as nat, 4);
    be_round_trip(r.rel.rel_node as nat, 4);
    be_round_trip(r.blkno as nat, 4);
    assert(b.subrange(0, 4) =~= be_bytes(0x5752_4431 as nat, 4));
    assert(b.subrange(8, 12) =~= be_bytes(r.rel.spc_node as nat, 4));
    assert(b.subrange(12, 16) =~= be_bytes(r.rel.db_node as nat, 4));
    assert(b.subrange(16, 20) =~= be_bytes(r.rel.rel_node as nat, 4));
    assert(b.subrange(24, 28) =~= be_bytes(r.blkno as nat, 4));
}

/// A record in a request.
pub proof fn redo_records_are_laid_out(r: (Lsn, Seq<u8>))
    requires
        r.1.len() < 0x1_0000_0000,
    ensures
        ({
            let b = redo_record_bytes(r);
            &&& be_value(b.subrange(0, 8)) == r.0.0
            &&& be_value(b.subrange(8, 12)) == r.1.len()
            &&& b.skip(12) == r.1
        }),
{
    let b = redo_record_bytes(r);
    lemma_pow256();
    be_round_trip(r.0.0 as nat, 8);
    be_round_trip(r.1.len() % 0x1_0000_0000, 4);
    assert(b.subrange(0, 8) =~= be_bytes(r.0.0 as nat, 8));
    assert(b.subrange(8, 12) =~= be_bytes(r.1.len() % 0x1_0000_0000, 4));
    assert(b.skip(12) =~= r.1);
}

/// Behind the head of a request stand the base image, where there is one, the number of
/// records, and the records one behind the other.
pub proof fn redo_requests_are_laid_out(
    r: RedoRequestV,
    rs: Seq<(Lsn, Seq<u8>)>,
    last: (Lsn, Seq<u8>),
)
    requires
        r.records.len() < 0x1_0000_0000,
    ensures
        ({
            let b = redo_request_bytes(r);
            let base = match r.base_image {
                Some(page) => page,
                None => Seq::empty(),
            };
            let at = 28 + base.len() as int;
            &&& b.take(28) == redo_head_bytes(r)
            &&& b.subrange(28, at) == base
            &&& be_value(b.subrange(at, at + 4)) == r.records.len()
            &&& b.skip(at + 4) == redo_records_bytes(r.records)
        }),
        redo_records_bytes(Seq::empty()).len() == 0,
        redo_records_bytes(rs.push(last)) == redo_records_bytes(rs) + redo_record_bytes(last),
{
    let b = redo_request_bytes(r);
    let base = match r.base_image {
        Some(page) => page,
        None => Seq::empty(),
    };
    let at = 28 + base.len() as int;
    redo_heads_are_laid_out(r);
    lemma_pow256();
    be_round_trip(r.records.len() % 0x1_0000_0000, 4);
    assert(b.take(28) =~= redo_head_bytes(r));
    assert(b.subrange(28, at) =~= base);
    assert(b.subrange(at, at + 4) =~= be_bytes(r.records.len() % 0x1_0000_0000, 4));
    assert(b.skip(at + 4) =~= redo_records_bytes(r.records));
    assert(rs.push(last).drop_last() =~= rs);
}

/// The answer of a wal-redo process: a page.
pub proof fn redo_pages_are_laid_out(page: Seq<u8>)
    ensures
        ({
            let b = redo_response_bytes(RedoResponseV::Page(page));
            &&& be_value(b.subrange(0, 4)) == 0x5752_5231
            &&& b[4] == 1
            &&& b[5] == 0
            &&& b[6] == 0
            &&& b[7] == 0
            &&& b.skip(8) == page
        }),
{
    let b = redo_response_bytes(RedoResponseV::Page(page));
    lemma_pow256();
    be_round_trip(0x5752_5231 as nat, 4);
    assert(b.subrange(0, 4) =~= be_bytes(0x5752_5231 as nat, 4));
    assert(b.skip(8) =~= page);
}

/// The answer of a wal-redo process: an error with its message.
pub proof fn redo_errors_are_laid_out(message: Seq<char>)
    requires
        encode_utf8(message).len() < 0x1_0000_0000,
    ensures
        ({
            let b = redo_response_bytes(RedoResponseV::Error(message));
            &&& be_value(b.subrange(0, 4)) == 0x5752_5231
            &&& b[4] == 1
            &&& b[5] == 1
            &&& b[6] == 0
            &&& b[7] == 0
            &&& be_value(b.subrange(8, 12)) == encode_utf8(message).len()
            &&& b.skip(12) == encode_utf8(message)
        }),
{
    let b = redo_response_bytes(RedoResponseV::Error(message));
    lemma_pow256();
    be_round_trip(0x5752_5231 as nat, 4);
    be_round_trip(encode_utf8(message).len() % 0x1_0000_0000, 4);
    assert(b.subrange(0, 4) =~= be_bytes(0x5752_5231 as nat, 4));
    assert(b.subrange(8, 12) =~= be_bytes(encode_utf8(message).len() % 0x1_0000_0000, 4));
    assert(b.skip(12) =~= encode_utf8(message));
}

/// A layer's file is its head and then, in ascending order of page and position, each
/// version behind its address.
pub proof fn layer_files_are_head_and_entries(
    l: LayerV,
    before: ListingV,
    k: (PageKey, Lsn),
    v: VersionV,
)
    ensures
        layer_bytes(l).take(17) == layer_head(l.id, ordered(l.entries).len()),
        layer_bytes(l).skip(17) == listing_bytes(ordered(l.entries)),
        listing_bytes(Seq::empty()) == Seq::<u8>::empty(),
        listing_bytes(before.push((k, v))) == listing_bytes(before) + (address_bytes(k.0, k.1)
            + version_bytes(v)),
{
    lemma_layer_head_len(l.id, ordered(l.entries).len());
    assert(layer_bytes(l).take(17) =~= layer_head(l.id, ordered(l.entries).len()));
    assert(layer_bytes(l).skip(17) =~= listing_bytes(ordered(l.entries)));
    assert(before.push((k, v)).drop_last() =~= before);
    assert(listing_bytes(before.push((k, v))) =~= listing_bytes(before) + (address_bytes(k.0, k.1)
        + version_bytes(v)));
}

proof fn lemma_layer_head_len(id: LayerId, n: nat)
    ensures
        layer_head(id, n).len() == 17,
{
    lemma_be_bytes_len(id as nat, 8);
    lemma_be_bytes_len(n % 0x1_0000_0000, 4);
    lemma_be_bytes_len(0x5350_4C31 as nat, 4);
}

/// Bytes that do not begin with the layer format's magic and version are no layer.
pub proof fn foreign_layers_are_refused(b: Seq<u8>)
    requires
        b.len() >= 17,
        be_value(b.subrange(0, 4)) != 0x5350_4C31 || b[4] != 1,
    ensures
        parse_layer(b) is Err,
{
    lemma_pow256();
    lemma_be_value_bound(b.subrange(0, 4));
}

/// A version is an image under the tag 0 and a delta under the tag 1, and nothing under
/// another; an address names one of four forks.
pub proof fn unknown_versions_are_refused(b: Seq<u8>, at: int)
    requires
        0 <= at < b.len(),
    ensures
        parse_version(b, at) matches Ok(v) ==> match v.0 {
            VersionV::Image(_) => b[at] == 0,
            VersionV::Delta(_) => b[at] == 1,
            VersionV::WalRecord { .. } => false,
        },
        b[at] > 1 ==> parse_version(b, at) == Err::<(VersionV, int), PageErrorV>(
            PageErrorV::BadVersionTag(b[at]),
        ),
        at + 12 < b.len() && b[at + 12] > 3 ==> parse_address(b, at) is Err,
{
}

/// Messages that do not begin with their own magic and version are refused, and so is a
/// response with another status than 0 and 1 and a request for a fork above 3.
pub proof fn foreign_redo_messages_are_refused(b: Seq<u8>)
    requires
        b.len() >= 28,
    ensures
        be_value(b.subrange(0, 4)) != 0x5752_4431 || b[4] != 1 || b[20] > 3 ==> parse_redo_request(
            b,
        ) is Err,
        be_value(b.subrange(0, 4)) != 0x5752_5231 || b[4] != 1 || b[5] > 1 ==> parse_redo_response(
            b,
        ) is Err && reply_kind(b) is Err,
{
    lemma_pow256();
    lemma_be_value_bound(b.subrange(0, 4));
}

/// The first eight bytes of a response say whether a page or an error follows.
pub proof fn reply_heads_tell_pages_from_errors(page: Seq<u8>, message: Seq<char>)
    requires
        encode_utf8(message).len() < 0x1_0000_0000,
    ensures
        reply_kind(redo_response_bytes(RedoResponseV::Page(page)).take(8)) == Ok::<
            RedoReply,
            Seq<char>,
        >(RedoReply::Page),
        reply_kind(redo_response_bytes(RedoResponseV::Error(message)).take(8)) == Ok::<
            RedoReply,
            Seq<char>,
        >(RedoReply::Error),
{
    let a = redo_response_bytes(RedoResponseV::Page(page));
    let b = redo_response_bytes(RedoResponseV::Error(message));
    redo_pages_are_laid_out(page);
    redo_errors_are_laid_out(message);
    lemma_be_bytes_len(0x5752_5231 as nat, 4);
    assert(a.take(8).subrange(0, 4) =~= a.subrange(0, 4));
    assert(b.take(8).subrange(0, 4) =~= b.subrange(0, 4));
}

/// The numbers that are fixed from outside: PostgreSQL's tablespaces and the size of its
/// WAL segments, and the statuses of the WAL service.
pub proof fn fixed_numbers()
    ensures
        GLOBAL_SPC == 1664,
        DEFAULT_SPC == 1663,
        DEFAULT_WAL_SEG_SIZE == 16 * 1024 * 1024,
        STATUS_OK == 0,
        STATUS_STALE_TERM == 1,
        STATUS_REJECTED == 2,
        TYPE_REPLICATE == 3,
{
}

/// The limits on what is taken at once: a mebibyte of WAL, of a modification and of a head.
pub proof fn limits_are_a_mebibyte()
    ensures
        DEFAULT_MAX_CHUNK == 1024 * 1024,
        MAX_INGEST_BODY == 1024 * 1024,
        MAX_HEAD == 1024 * 1024,
{
}

} // verus!
