//! The sentence for each error that an operator can get to see.

use vstd::prelude::*;

use crate::common::ids::{id_text, TenantId, TimelineId};
use crate::common::lsn::{lsn_text, Lsn};
use crate::pageserver::page::{page_error_text, PageErrorV};
use crate::pageserver::tenant::{tenant_error_text, TenantError};
use crate::pageserver::tenant_manager::{manager_error_text, TenantManagerError};
use crate::pageserver::waldecode::{decode_error_text, Compression, WalDecodeErrorV};
use crate::pageserver::walredo::{redo_error_text, RedoErrorV};
use crate::pageserver::walredo_proto::{proto_error_text, ProtoErrorV};
use crate::text::{decimal, hex_fixed};

verus! {

/// What is wrong with a page's version, with the numbers that are.
pub proof fn page_errors_are_told(what: Seq<char>, n: usize, offset: usize, tag: u8)
    ensures
        page_error_text(PageErrorV::Truncated(what)) == "buffer truncated while decoding "@ + what,
        page_error_text(PageErrorV::BadImageSize(n)) == "image is "@ + decimal(n as nat)
            + " bytes, expected "@ + decimal(8192),
        page_error_text(PageErrorV::EditOutOfBounds { offset, len: n }) == "edit at offset "@
            + decimal(offset as nat) + " length "@ + decimal(n as nat)
            + " runs past the end of the page"@,
        page_error_text(PageErrorV::BadVersionTag(tag)) == "unknown version tag "@ + decimal(
            tag as nat,
        ),
        page_error_text(PageErrorV::Redo(what)) == what,
{
}

/// What is wrong with a record, with the numbers that are.
pub proof fn decode_errors_are_told(
    what: Seq<char>,
    declared: u32,
    actual: usize,
    b: u8,
    got: u16,
    want: u16,
    expected: usize,
)
    ensures
        decode_error_text(WalDecodeErrorV::Truncated(what))
            == "WAL record truncated while reading "@ + what,
        decode_error_text(WalDecodeErrorV::BadTotalLen { declared, actual }) == "xl_tot_len "@
            + decimal(declared as nat) + " != record length "@ + decimal(actual as nat),
        decode_error_text(WalDecodeErrorV::ShortTotalLen(declared)) == "xl_tot_len "@ + decimal(
            declared as nat,
        ) + " is shorter than the record header"@,
        decode_error_text(WalDecodeErrorV::BadBlockId(b)) == "illegal block id "@ + decimal(
            b as nat,
        ) + " in WAL record"@,
        decode_error_text(WalDecodeErrorV::SameRelWithoutPrev)
            == "BKPBLOCK_SAME_REL with no previous relation"@,
        decode_error_text(WalDecodeErrorV::BadFork(b)) == "unknown fork number "@ + decimal(
            b as nat,
        ),
        decode_error_text(WalDecodeErrorV::BadPageMagic { got, want })
            == "bad XLOG page magic 0x"@ + hex_fixed(got as nat, 4) + ", expected 0x"@ + hex_fixed(
            want as nat,
            4,
        ),
        decode_error_text(WalDecodeErrorV::BadImageSize { got: actual, want: expected })
            == "full-page image is "@ + decimal(actual as nat) + " bytes, expected "@ + decimal(
            expected as nat,
        ),
        decode_error_text(WalDecodeErrorV::BadHole { offset: actual, length: expected })
            == "image hole offset "@ + decimal(actual as nat) + "+"@ + decimal(expected as nat)
            + " exceeds page size"@,
        decode_error_text(WalDecodeErrorV::UnsupportedCompression(Compression::Pglz))
            == "compressed full-page image ("@ + "Pglz"@ + ") is not yet supported"@,
        decode_error_text(WalDecodeErrorV::UnsupportedCompression(Compression::Lz4))
            == "compressed full-page image ("@ + "Lz4"@ + ") is not yet supported"@,
        decode_error_text(WalDecodeErrorV::UnsupportedCompression(Compression::Zstd))
            == "compressed full-page image ("@ + "Zstd"@ + ") is not yet supported"@,
{
}

/// What is wrong with a message of the wal-redo protocol, with the numbers that are.
pub proof fn protocol_errors_are_told(what: Seq<char>, got: u32, want: u32, n: usize, b: u8)
    ensures
        proto_error_text(ProtoErrorV::Truncated(what)) == "redo message truncated while reading "@
            + what,
        proto_error_text(ProtoErrorV::BadMagic { got, want }) == "bad redo magic 0x"@ + hex_fixed(
            got as nat,
            8,
        ) + ", expected 0x"@ + hex_fixed(want as nat, 8),
        proto_error_text(ProtoErrorV::BadVersion(b)) == "unsupported redo protocol version "@
            + decimal(b as nat),
        proto_error_text(ProtoErrorV::BadBaseSize(n)) == "base image is "@ + decimal(n as nat)
            + " bytes, expected "@ + decimal(8192),
        proto_error_text(ProtoErrorV::BadStatus(b)) == "unknown response status "@ + decimal(
            b as nat,
        ),
{
}

/// Why a page could not be rebuilt.
pub proof fn redo_errors_are_told(e: PageErrorV, lsn: Lsn, what: Seq<char>)
    ensures
        redo_error_text(RedoErrorV::Apply(e)) == "applying page version: "@ + page_error_text(e),
        redo_error_text(RedoErrorV::NeedsPostgres { lsn }) == "WAL record at "@ + lsn_text(lsn)
            + " requires a Postgres wal-redo backend"@,
        redo_error_text(RedoErrorV::Process(what)) == "wal-redo process error: "@ + what,
        redo_error_text(RedoErrorV::RedoFailed(what)) == "wal-redo failed: "@ + what,
{
}

/// Why a tenant or a timeline could not be added.
pub proof fn tenant_errors_are_told(timeline: TimelineId, tenant: TenantId)
    ensures
        tenant_error_text(TenantError::AlreadyExists(timeline)) == "timeline "@ + id_text(timeline@)
            + " already exists"@,
        tenant_error_text(TenantError::NoSuchParent(timeline)) == "parent timeline "@ + id_text(
            timeline@,
        ) + " does not exist"@,
        manager_error_text(TenantManagerError::AlreadyExists(tenant)) == "tenant "@ + id_text(
            tenant@,
        ) + " already exists"@,
{
}

} // verus!
