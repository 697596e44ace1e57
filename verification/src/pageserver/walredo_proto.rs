//! The pipe protocol between the pageserver and a wal-redo process.
//!
//! Rebuilding a page from a raw WAL record needs PostgreSQL's own redo routines,
//! so the work is shipped to a child process: here is the page, its base image
//! and the WAL records that follow; apply them and hand the page back. The
//! envelope is big-endian; the record bytes inside are opaque.

use vstd::prelude::*;
use vstd::utf8::{decode_utf8_encode_utf8, encode_utf8, valid_utf8};

use crate::bytes::{
    be32, be64, be_bytes, be_u32, be_u64, copy_range, lemma_be_bytes_len, lemma_before_cut,
    lemma_behind, lemma_number_again, lemma_pow256, lemma_stands_number, lemma_stands_split,
    put_be_u32, put_be_u64, put_slice, stands_at,
};
use crate::common::lsn::Lsn;
use crate::common::page::{fork_code, fork_of, ForkNumber, RelTag, PAGE_SIZE};
use crate::text::{
    copy_str, decimal, hex_fixed, push_decimal, push_hex_fixed, read_text, text_lossy,
    text_round_trip,
};

verus! {

/// Request magic, ASCII "WRD1".
pub const REQ_MAGIC: u32 = 0x5752_4431;

/// Response magic, ASCII "WRR1".
pub const RESP_MAGIC: u32 = 0x5752_5231;

/// Protocol version.
pub const VERSION: u8 = 1;

/// Flag: a base image follows the header (else the base is all zeros).
pub const FLAG_HAS_BASE: u8 = 0x01;

/// Size of a response header.
pub const RESP_HEADER_LEN: usize = 8;

/// Response status: the 8 KiB page follows.
pub const STATUS_OK: u8 = 0;

/// Response status: an error message (length and bytes) follows.
pub const STATUS_ERR: u8 = 1;

/// Errors decoding a redo message.
#[derive(Debug, PartialEq, Eq)]
pub enum ProtoError {
    /// The message ended inside a field.
    Truncated(&'static str),
    /// The message starts with the wrong magic number.
    BadMagic { got: u32, want: u32 },
    /// The message is of another protocol version.
    BadVersion(u8),
    /// A base image is not one page long.
    BadBaseSize(usize),
    /// A response carries no known status.
    BadStatus(u8),
}

/// What a [`ProtoError`] says.
pub enum ProtoErrorV {
    Truncated(Seq<char>),
    BadMagic { got: u32, want: u32 },
    BadVersion(u8),
    BadBaseSize(usize),
    BadStatus(u8),
}

impl View for ProtoError {
    type V = ProtoErrorV;

    open spec fn view(&self) -> ProtoErrorV {
        match *self {
            ProtoError::Truncated(w) => ProtoErrorV::Truncated(w@),
            ProtoError::BadMagic { got, want } => ProtoErrorV::BadMagic { got, want },
            ProtoError::BadVersion(v) => ProtoErrorV::BadVersion(v),
            ProtoError::BadBaseSize(n) => ProtoErrorV::BadBaseSize(n),
            ProtoError::BadStatus(s) => ProtoErrorV::BadStatus(s),
        }
    }
}

/// The sentence for an error.
pub open spec fn proto_error_text(e: ProtoErrorV) -> Seq<char> {
    match e {
        ProtoErrorV::Truncated(w) => "redo message truncated while reading "@ + w,
        ProtoErrorV::BadMagic { got, want } => "bad redo magic 0x"@ + hex_fixed(got as nat, 8)
            + ", expected 0x"@ + hex_fixed(want as nat, 8),
        ProtoErrorV::BadVersion(v) => "unsupported redo protocol version "@ + decimal(v as nat),
        ProtoErrorV::BadBaseSize(n) => "base image is "@ + decimal(n as nat) + " bytes, expected "@
            + decimal(PAGE_SIZE as nat),
        ProtoErrorV::BadStatus(s) => "unknown response status "@ + decimal(s as nat),
    }
}

impl ProtoError {
    /// The error as a sentence.
    pub fn to_string(&self) -> (r: String)
        ensures
            r@ == proto_error_text(self@),
    {
        match self {
            ProtoError::Truncated(w) => {
                let mut m = copy_str("redo message truncated while reading ");
                m.push_str(w);
                m
            },
            ProtoError::BadMagic { got, want } => {
                let mut m = copy_str("bad redo magic 0x");
                push_hex_fixed(&mut m, *got as u64, 8);
                m.push_str(", expected 0x");
                push_hex_fixed(&mut m, *want as u64, 8);
                m
            },
            ProtoError::BadVersion(v) => {
                let mut m = copy_str("unsupported redo protocol version ");
                push_decimal(&mut m, *v as u64);
                m
            },
            ProtoError::BadBaseSize(n) => {
                let mut m = copy_str("base image is ");
                push_decimal(&mut m, *n as u64);
                m.push_str(" bytes, expected ");
                push_decimal(&mut m, PAGE_SIZE as u64);
                m
            },
            ProtoError::BadStatus(s) => {
                let mut m = copy_str("unknown response status ");
                push_decimal(&mut m, *s as u64);
                m
            },
        }
    }
}

/// A request to rebuild one page: a base image plus the WAL records to apply.
#[derive(Debug, Clone, PartialEq, Eq)]
pub struct RedoRequest {
    /// Relation and fork of the page.
    pub rel: RelTag,
    /// Block number within the fork.
    pub blkno: u32,
    /// The base page image; without one, an all-zero page is the start.
    pub base_image: Option<Vec<u8>>,
    /// WAL records to apply in order, each with its position.
    pub records: Vec<(Lsn, Vec<u8>)>,
}

/// A wal-redo reply: either the rebuilt page or an error message.
#[derive(Debug, Clone, PartialEq, Eq)]
pub enum RedoResponse {
    /// The rebuilt 8 KiB page.
    Page(Vec<u8>),
    /// Redo failed, with a reason.
    Error(String),
}

/// What a [`RedoRequest`] holds.
pub struct RedoRequestV {
    pub rel: RelTag,
    pub blkno: u32,
    pub base_image: Option<Seq<u8>>,
    pub records: Seq<(Lsn, Seq<u8>)>,
}

/// What a [`RedoResponse`] says.
pub enum RedoResponseV {
    Page(Seq<u8>),
    Error(Seq<char>),
}

/// What each record of a list holds.
pub open spec fn redo_records_view(r: Seq<(Lsn, Vec<u8>)>) -> Seq<(Lsn, Seq<u8>)> {
    Seq::new(r.len(), |i: int| (r[i].0, r[i].1@))
}

/// What an optional image holds.
pub open spec fn image_view(i: Option<Vec<u8>>) -> Option<Seq<u8>> {
    match i {
        Some(i) => Some(i@),
        None => None,
    }
}

impl View for RedoRequest {
    type V = RedoRequestV;

    open spec fn view(&self) -> RedoRequestV {
        RedoRequestV {
            rel: self.rel,
            blkno: self.blkno,
            base_image: image_view(self.base_image),
            records: redo_records_view(self.records@),
        }
    }
}

impl View for RedoResponse {
    type V = RedoResponseV;

    open spec fn view(&self) -> RedoResponseV {
        match *self {
            RedoResponse::Page(p) => RedoResponseV::Page(p@),
            RedoResponse::Error(m) => RedoResponseV::Error(m@),
        }
    }
}

/// A record's position, its length in four bytes, and its bytes.
pub open spec fn redo_record_bytes(r: (Lsn, Seq<u8>)) -> Seq<u8> {
    be_bytes(r.0.0 as nat, 8) + be_bytes(r.1.len() % 0x1_0000_0000, 4) + r.1
}

/// The records one behind the other.
pub open spec fn redo_records_bytes(s: Seq<(Lsn, Seq<u8>)>) -> Seq<u8>
    decreases s.len(),
{
    if s.len() == 0 {
        Seq::empty()
    } else {
        redo_records_bytes(s.drop_last()) + redo_record_bytes(s.last())
    }
}

/// The header of a request.
pub open spec fn redo_head_bytes(r: RedoRequestV) -> Seq<u8> {
    be_bytes(REQ_MAGIC as nat, 4) + seq![
        VERSION,
        if r.base_image is Some {
            FLAG_HAS_BASE
        } else {
            0u8
        },
        0u8,
        0u8,
    ] + be_bytes(r.rel.spc_node as nat, 4) + be_bytes(r.rel.db_node as nat, 4) + be_bytes(
        r.rel.rel_node as nat,
        4,
    ) + seq![fork_code(r.rel.fork), 0u8, 0u8, 0u8] + be_bytes(r.blkno as nat, 4)
}

/// The base image, if there is one.
pub open spec fn base_bytes(base: Option<Seq<u8>>) -> Seq<u8> {
    match base {
        Some(i) => i,
        None => Seq::empty(),
    }
}

/// The wire form of a request.
pub open spec fn redo_request_bytes(r: RedoRequestV) -> Seq<u8> {
    redo_head_bytes(r) + base_bytes(r.base_image) + be_bytes(r.records.len() % 0x1_0000_0000, 4)
        + redo_records_bytes(r.records)
}

/// The next `n` records at `at` (after those in `seen`).
pub open spec fn parse_redo_records(
    buf: Seq<u8>,
    at: int,
    n: nat,
    seen: Seq<(Lsn, Seq<u8>)>,
) -> Result<Seq<(Lsn, Seq<u8>)>, ProtoErrorV>
    decreases n,
{
    if n == 0 {
        Ok(seen)
    } else if at + 8 > buf.len() {
        Err(ProtoErrorV::Truncated("record lsn"@))
    } else if at + 12 > buf.len() {
        Err(ProtoErrorV::Truncated("record len"@))
    } else {
        let len = be32(buf, at + 8) as int;
        if at + 12 + len > buf.len() {
            Err(ProtoErrorV::Truncated("record bytes"@))
        } else {
            parse_redo_records(
                buf,
                at + 12 + len,
                (n - 1) as nat,
                seen.push((Lsn(be64(buf, at)), buf.subrange(at + 12, at + 12 + len))),
            )
        }
    }
}

/// The base image at 28, where the flags announce one, and where it ends.
pub open spec fn parse_base(buf: Seq<u8>, flags: u8) -> Result<(Option<Seq<u8>>, int), ProtoErrorV> {
    if flags & FLAG_HAS_BASE != 0 {
        if buf.len() < 28 + PAGE_SIZE {
            Err(ProtoErrorV::Truncated("base image"@))
        } else {
            Ok((Some(buf.subrange(28, 28 + PAGE_SIZE)), 28 + PAGE_SIZE))
        }
    } else {
        Ok((None, 28))
    }
}

/// The request that a message says, or what is wrong.
pub open spec fn parse_redo_request(buf: Seq<u8>) -> Result<RedoRequestV, ProtoErrorV> {
    if buf.len() < 4 {
        Err(ProtoErrorV::Truncated("magic"@))
    } else if be32(buf, 0) != REQ_MAGIC {
        Err(ProtoErrorV::BadMagic { got: be32(buf, 0), want: REQ_MAGIC })
    } else if buf.len() < 5 {
        Err(ProtoErrorV::Truncated("version"@))
    } else if buf[4] != VERSION {
        Err(ProtoErrorV::BadVersion(buf[4]))
    } else if buf.len() < 6 {
        Err(ProtoErrorV::Truncated("flags"@))
    } else if buf.len() < 12 {
        Err(ProtoErrorV::Truncated("spc"@))
    } else if buf.len() < 16 {
        Err(ProtoErrorV::Truncated("db"@))
    } else if buf.len() < 20 {
        Err(ProtoErrorV::Truncated("relnode"@))
    } else if buf.len() < 21 || fork_of(buf[20]) is None {
        Err(ProtoErrorV::Truncated("fork"@))
    } else if buf.len() < 28 {
        Err(ProtoErrorV::Truncated("blkno"@))
    } else {
        match parse_base(buf, buf[5]) {
            Err(e) => Err(e),
            Ok((base_image, at)) => if buf.len() < at + 4 {
                Err(ProtoErrorV::Truncated("n_records"@))
            } else {
                match parse_redo_records(buf, at + 4, be32(buf, at) as nat, Seq::empty()) {
                    Err(e) => Err(e),
                    Ok(records) => Ok(
                        RedoRequestV {
                            rel: RelTag {
                                spc_node: be32(buf, 8),
                                db_node: be32(buf, 12),
                                rel_node: be32(buf, 16),
                                fork: fork_of(buf[20])->0,
                            },
                            blkno: be32(buf, 24),
                            base_image,
                            records,
                        },
                    ),
                }
            },
        }
    }
}

/// The header of a response.
pub open spec fn redo_reply_head(status: u8) -> Seq<u8> {
    be_bytes(RESP_MAGIC as nat, 4) + seq![VERSION, status, 0u8, 0u8]
}

/// The wire form of a response.
pub open spec fn redo_response_bytes(r: RedoResponseV) -> Seq<u8> {
    match r {
        RedoResponseV::Page(p) => redo_reply_head(STATUS_OK) + p,
        RedoResponseV::Error(m) => redo_reply_head(STATUS_ERR) + be_bytes(
            encode_utf8(m).len() % 0x1_0000_0000,
            4,
        ) + encode_utf8(m),
    }
}

/// The response that a message says, or what is wrong.
pub open spec fn parse_redo_response(buf: Seq<u8>) -> Result<RedoResponseV, ProtoErrorV> {
    if buf.len() < 4 {
        Err(ProtoErrorV::Truncated("magic"@))
    } else if be32(buf, 0) != RESP_MAGIC {
        Err(ProtoErrorV::BadMagic { got: be32(buf, 0), want: RESP_MAGIC })
    } else if buf.len() < 5 {
        Err(ProtoErrorV::Truncated("version"@))
    } else if buf[4] != VERSION {
        Err(ProtoErrorV::BadVersion(buf[4]))
    } else if buf.len() < 6 {
        Err(ProtoErrorV::Truncated("status"@))
    } else if buf[5] == STATUS_OK {
        if buf.len() < 8 + PAGE_SIZE {
            Err(ProtoErrorV::Truncated("page"@))
        } else {
            Ok(RedoResponseV::Page(buf.subrange(8, 8 + PAGE_SIZE)))
        }
    } else if buf[5] == STATUS_ERR {
        if buf.len() < 12 {
            Err(ProtoErrorV::Truncated("error len"@))
        } else if buf.len() < 12 + be32(buf, 8) {
            Err(ProtoErrorV::Truncated("error msg"@))
        } else {
            Ok(RedoResponseV::Error(read_text(buf.subrange(12, 12 + be32(buf, 8)))))
        }
    } else {
        Err(ProtoErrorV::BadStatus(buf[5]))
    }
}

fn get_u32(b: &[u8], o: usize, what: &'static str) -> (r: Result<u32, ProtoError>)
    requires
        o <= b@.len() || o <= 24,
    ensures
        match r {
            Ok(v) => o + 4 <= b@.len() && v == be32(b@, o as int),
            Err(e) => o + 4 > b@.len() && e@ == ProtoErrorV::Truncated(what@),
        },
{
    if b.len() < o || b.len() - o < 4 {
        return Err(ProtoError::Truncated(what));
    }
    Ok(be_u32(b, o))
}

impl RedoRequest {
    /// Encode the request (header, optional base, records).
    pub fn encode(&self) -> (b: Vec<u8>)
        ensures
            b@ == redo_request_bytes(self@),
    {
        let mut b: Vec<u8> = Vec::new();
        put_be_u32(&mut b, REQ_MAGIC);
        b.push(VERSION);
        let flags: u8 = if self.base_image.is_some() {
            FLAG_HAS_BASE
        } else {
            0
        };
        b.push(flags);
        b.push(0);
        b.push(0);
        put_be_u32(&mut b, self.rel.spc_node);
        put_be_u32(&mut b, self.rel.db_node);
        put_be_u32(&mut b, self.rel.rel_node);
        b.push(self.rel.fork.to_raw());
        b.push(0);
        b.push(0);
        b.push(0);
        put_be_u32(&mut b, self.blkno);
        assert(b@ =~= redo_head_bytes(self@));
        if let Some(img) = &self.base_image {
            put_slice(&mut b, img.as_slice());
        }
        put_be_u32(&mut b, (self.records.len() as u64 % 0x1_0000_0000) as u32);
        let ghost head = b@;
        let ghost all = self@.records;
        assert(head =~= redo_head_bytes(self@) + base_bytes(self@.base_image) + be_bytes(
            all.len() % 0x1_0000_0000,
            4,
        ));
        let mut i: usize = 0;
        assert(all.take(0) =~= Seq::empty());
        assert(b@ =~= head + redo_records_bytes(all.take(0)));
        while i < self.records.len()
            invariant
                i <= self.records@.len(),
                all == self@.records,
                b@ == head + redo_records_bytes(all.take(i as int)),
            decreases self.records@.len() - i,
        {
            let rec = &self.records[i];
            put_be_u64(&mut b, rec.0.raw());
            put_be_u32(&mut b, (rec.1.len() as u64 % 0x1_0000_0000) as u32);
            put_slice(&mut b, rec.1.as_slice());
            assert(all.take(i + 1).drop_last() =~= all.take(i as int));
            assert(all.take(i + 1).last() == (rec.0, rec.1@));
            assert(b@ =~= head + redo_records_bytes(all.take(i + 1)));
            i += 1;
        }
        assert(all.take(i as int) =~= all);
        b
    }

    /// Decode a request from a complete message.
    pub fn decode(buf: &[u8]) -> (r: Result<RedoRequest, ProtoError>)
        ensures
            match r {
                Ok(q) => parse_redo_request(buf@) == Ok::<RedoRequestV, ProtoErrorV>(q@),
                Err(e) => parse_redo_request(buf@) == Err::<RedoRequestV, ProtoErrorV>(e@),
            },
    {
        assert(buf.len() == buf@.len());
        let magic: u32 = get_u32(buf, 0, "magic")?;
        if magic != REQ_MAGIC {
            return Err(ProtoError::BadMagic { got: magic, want: REQ_MAGIC });
        }
        if buf.len() < 5 {
            return Err(ProtoError::Truncated("version"));
        }
        if buf[4] != VERSION {
            return Err(ProtoError::BadVersion(buf[4]));
        }
        if buf.len() < 6 {
            return Err(ProtoError::Truncated("flags"));
        }
        let flags: u8 = buf[5];
        let spc: u32 = get_u32(buf, 8, "spc")?;
        let db: u32 = get_u32(buf, 12, "db")?;
        let relnode: u32 = get_u32(buf, 16, "relnode")?;
        if buf.len() < 21 {
            return Err(ProtoError::Truncated("fork"));
        }
        let fork = match ForkNumber::from_raw(buf[20]) {
            Some(f) => f,
            None => return Err(ProtoError::Truncated("fork")),
        };
        let blkno: u32 = get_u32(buf, 24, "blkno")?;
        let mut at: usize = 28;
        let base_image = if flags & FLAG_HAS_BASE != 0 {
            if buf.len() < 28 + PAGE_SIZE {
                return Err(ProtoError::Truncated("base image"));
            }
            at = 28 + PAGE_SIZE;
            Some(copy_range(buf, 28, 28 + PAGE_SIZE))
        } else {
            None
        };
        let ghost bv = image_view(base_image);
        assert(parse_base(buf@, flags) == Ok::<_, ProtoErrorV>((bv, at as int)));
        let n: u32 = get_u32(buf, at, "n_records")?;
        at = at + 4;
        let ghost start = at as int;
        let mut records: Vec<(Lsn, Vec<u8>)> = Vec::new();
        let mut left: u32 = n;
        assert(redo_records_view(records@) =~= Seq::empty());
        while left > 0
            invariant
                at <= buf@.len(),
                buf@.len() <= usize::MAX,
                buf@.len() >= 28,
                be32(buf@, 0) == REQ_MAGIC,
                buf@[4] == VERSION,
                fork_of(buf@[20]) is Some,
                flags == buf@[5],
                parse_base(buf@, flags) == Ok::<_, ProtoErrorV>((bv, start - 4)),
                start <= buf@.len(),
                n == be32(buf@, start - 4),
                parse_redo_records(buf@, at as int, left as nat, redo_records_view(records@))
                    == parse_redo_records(buf@, start, n as nat, Seq::empty()),
            decreases left,
        {
            let ghost before = redo_records_view(records@);
            if buf.len() - at < 8 {
                return Err(ProtoError::Truncated("record lsn"));
            }
            let lsn = Lsn(be_u64(buf, at));
            let len: u32 = get_u32(buf, at + 8, "record len")?;
            if buf.len() - at - 12 < len as usize {
                return Err(ProtoError::Truncated("record bytes"));
            }
            let end: usize = at + 12 + len as usize;
            let rec = copy_range(buf, at + 12, end);
            let ghost rv = (lsn, rec@);
            records.push((lsn, rec));
            assert(redo_records_view(records@) =~= before.push(rv));
            at = end;
            left -= 1;
        }
        Ok(
            RedoRequest {
                rel: RelTag { spc_node: spc, db_node: db, rel_node: relnode, fork },
                blkno,
                base_image,
                records,
            },
        )
    }
}

impl RedoResponse {
    /// Encode the response.
    pub fn encode(&self) -> (b: Vec<u8>)
        ensures
            b@ == redo_response_bytes(self@),
    {
        let mut b: Vec<u8> = Vec::new();
        put_be_u32(&mut b, RESP_MAGIC);
        b.push(VERSION);
        match self {
            RedoResponse::Page(page) => {
                b.push(STATUS_OK);
                b.push(0);
                b.push(0);
                put_slice(&mut b, page.as_slice());
            },
            RedoResponse::Error(msg) => {
                b.push(STATUS_ERR);
                b.push(0);
                b.push(0);
                let text = msg.as_str().as_bytes();
                put_be_u32(&mut b, (text.len() as u64 % 0x1_0000_0000) as u32);
                put_slice(&mut b, text);
            },
        }
        assert(b@ =~= redo_response_bytes(self@));
        b
    }

    /// Decode a response from a complete message.
    pub fn decode(buf: &[u8]) -> (r: Result<RedoResponse, ProtoError>)
        ensures
            match r {
                Ok(q) => parse_redo_response(buf@) == Ok::<RedoResponseV, ProtoErrorV>(q@),
                Err(e) => parse_redo_response(buf@) == Err::<RedoResponseV, ProtoErrorV>(e@),
            },
    {
        let magic: u32 = get_u32(buf, 0, "magic")?;
        if magic != RESP_MAGIC {
            return Err(ProtoError::BadMagic { got: magic, want: RESP_MAGIC });
        }
        if buf.len() < 5 {
            return Err(ProtoError::Truncated("version"));
        }
        if buf[4] != VERSION {
            return Err(ProtoError::BadVersion(buf[4]));
        }
        if buf.len() < 6 {
            return Err(ProtoError::Truncated("status"));
        }
        let status: u8 = buf[5];
        if status == STATUS_OK {
            if buf.len() < RESP_HEADER_LEN + PAGE_SIZE {
                return Err(ProtoError::Truncated("page"));
            }
            Ok(RedoResponse::Page(copy_range(buf, 8, 8 + PAGE_SIZE)))
        } else if status == STATUS_ERR {
            let len: u32 = get_u32(buf, RESP_HEADER_LEN, "error len")?;
            if buf.len() - 12 < len as usize {
                return Err(ProtoError::Truncated("error msg"));
            }
            let msg = copy_range(buf, 12, 12 + len as usize);
            Ok(RedoResponse::Error(text_lossy(msg.as_slice())))
        } else {
            Err(ProtoError::BadStatus(status))
        }
    }
}

/// A record that stands somewhere in its wire form is parsed there.
proof fn lemma_parse_redo_record(
    buf: Seq<u8>,
    at: int,
    r: (Lsn, Seq<u8>),
    n: nat,
    seen: Seq<(Lsn, Seq<u8>)>,
)
    requires
        n > 0,
        r.1.len() < 0x1_0000_0000,
        stands_at(buf, at, redo_record_bytes(r)),
    ensures
        parse_redo_records(buf, at, n, seen) == parse_redo_records(
            buf,
            at + redo_record_bytes(r).len(),
            (n - 1) as nat,
            seen.push(r),
        ),
{
    let a = be_bytes(r.0.0 as nat, 8);
    let b = be_bytes(r.1.len() % 0x1_0000_0000, 4);
    lemma_be_bytes_len(r.0.0 as nat, 8);
    lemma_be_bytes_len(r.1.len() % 0x1_0000_0000, 4);
    lemma_pow256();
    lemma_stands_split(buf, at, a + b, r.1);
    lemma_stands_split(buf, at, a, b);
    lemma_stands_number(buf, at, r.0.0 as nat, 8);
    lemma_stands_number(buf, at + 8, r.1.len() % 0x1_0000_0000, 4);
}

proof fn lemma_parse_redo_records(buf: Seq<u8>, at: int, s: Seq<(Lsn, Seq<u8>)>, n: nat)
    requires
        s.len() <= n,
        forall|i: int| 0 <= i < s.len() ==> (#[trigger] s[i]).1.len() < 0x1_0000_0000,
        stands_at(buf, at, redo_records_bytes(s)),
    ensures
        parse_redo_records(buf, at, n, Seq::empty()) == parse_redo_records(
            buf,
            at + redo_records_bytes(s).len(),
            (n - s.len()) as nat,
            s,
        ),
    decreases s.len(),
{
    if s.len() == 0 {
        assert(s =~= Seq::empty());
    } else {
        let before = s.drop_last();
        let r = s.last();
        lemma_stands_split(buf, at, redo_records_bytes(before), redo_record_bytes(r));
        assert forall|i: int| 0 <= i < before.len() implies (#[trigger] before[i]).1.len()
            < 0x1_0000_0000 by {
            assert(before[i] == s[i]);
        }
        lemma_parse_redo_records(buf, at, before, n);
        assert(s[s.len() - 1].1.len() < 0x1_0000_0000);
        lemma_parse_redo_record(
            buf,
            at + redo_records_bytes(before).len(),
            r,
            (n - before.len()) as nat,
            before,
        );
        assert(before.push(r) =~= s);
    }
}

pub proof fn lemma_redo_head(buf: Seq<u8>, r: RedoRequestV)
    requires
        stands_at(buf, 0, redo_head_bytes(r)),
    ensures
        redo_head_bytes(r).len() == 28,
        buf.len() >= 28,
        be32(buf, 0) == REQ_MAGIC,
        buf[4] == VERSION,
        buf[5] == (if r.base_image is Some {
            FLAG_HAS_BASE
        } else {
            0u8
        }),
        be32(buf, 8) == r.rel.spc_node,
        be32(buf, 12) == r.rel.db_node,
        be32(buf, 16) == r.rel.rel_node,
        buf[20] == fork_code(r.rel.fork),
        be32(buf, 24) == r.blkno,
{
    let m = be_bytes(REQ_MAGIC as nat, 4);
    let f = seq![
        VERSION,
        if r.base_image is Some {
            FLAG_HAS_BASE
        } else {
            0u8
        },
        0u8,
        0u8,
    ];
    let a = be_bytes(r.rel.spc_node as nat, 4);
    let b = be_bytes(r.rel.db_node as nat, 4);
    let c = be_bytes(r.rel.rel_node as nat, 4);
    let g = seq![fork_code(r.rel.fork), 0u8, 0u8, 0u8];
    let d = be_bytes(r.blkno as nat, 4);
    lemma_be_bytes_len(REQ_MAGIC as nat, 4);
    lemma_be_bytes_len(r.rel.spc_node as nat, 4);
    lemma_be_bytes_len(r.rel.db_node as nat, 4);
    lemma_be_bytes_len(r.rel.rel_node as nat, 4);
    lemma_be_bytes_len(r.blkno as nat, 4);
    lemma_pow256();
    lemma_stands_split(buf, 0, m + f + a + b + c + g, d);
    lemma_stands_split(buf, 0, m + f + a + b + c, g);
    lemma_stands_split(buf, 0, m + f + a + b, c);
    lemma_stands_split(buf, 0, m + f + a, b);
    lemma_stands_split(buf, 0, m + f, a);
    lemma_stands_split(buf, 0, m, f);
    lemma_stands_number(buf, 0, REQ_MAGIC as nat, 4);
    lemma_stands_number(buf, 8, r.rel.spc_node as nat, 4);
    lemma_stands_number(buf, 12, r.rel.db_node as nat, 4);
    lemma_stands_number(buf, 16, r.rel.rel_node as nat, 4);
    lemma_stands_number(buf, 24, r.blkno as nat, 4);
    let fb = buf.subrange(4, 8);
    assert(fb == f);
    assert(buf[4] == fb[0] && buf[5] == fb[1]);
    let gb = buf.subrange(20, 24);
    assert(gb == g);
    assert(buf[20] == gb[0]);
}

/// A request decoded from its own wire form is the request, where its base is a
/// whole page and its counts fit.
pub proof fn redo_request_round_trip(r: RedoRequestV)
    requires
        r.base_image matches Some(i) ==> i.len() == PAGE_SIZE,
        r.records.len() < 0x1_0000_0000,
        forall|i: int| 0 <= i < r.records.len() ==> (#[trigger] r.records[i]).1.len() < 0x1_0000_0000,
    ensures
        parse_redo_request(redo_request_bytes(r)) == Ok::<RedoRequestV, ProtoErrorV>(r),
{
    let buf = redo_request_bytes(r);
    let h = redo_head_bytes(r);
    let i = base_bytes(r.base_image);
    let n = be_bytes(r.records.len() % 0x1_0000_0000, 4);
    let recs = redo_records_bytes(r.records);
    assert(buf.subrange(0, buf.len() as int) =~= buf);
    assert(stands_at(buf, 0, buf));
    lemma_be_bytes_len(r.records.len() % 0x1_0000_0000, 4);
    lemma_pow256();
    lemma_stands_split(buf, 0, h + i + n, recs);
    lemma_stands_split(buf, 0, h + i, n);
    lemma_stands_split(buf, 0, h, i);
    lemma_redo_head(buf, r);
    assert(1u8 & 1u8 != 0) by (bit_vector);
    assert(0u8 & 1u8 == 0) by (bit_vector);
    let at: int = 28 + i.len() as int;
    lemma_stands_number(buf, at, r.records.len() % 0x1_0000_0000, 4);
    lemma_parse_redo_records(buf, at + 4, r.records, r.records.len());
}

/// A response decoded from its own wire form is the response, where it is a whole
/// page or an error whose message fits.
pub proof fn redo_response_round_trip(r: RedoResponseV)
    requires
        r matches RedoResponseV::Page(p) ==> p.len() == PAGE_SIZE,
        r matches RedoResponseV::Error(m) ==> encode_utf8(m).len() < 0x1_0000_0000,
    ensures
        parse_redo_response(redo_response_bytes(r)) == Ok::<RedoResponseV, ProtoErrorV>(r),
{
    let buf = redo_response_bytes(r);
    let status: u8 = match r {
        RedoResponseV::Page(_) => STATUS_OK,
        RedoResponseV::Error(_) => STATUS_ERR,
    };
    let h = redo_reply_head(status);
    let m = be_bytes(RESP_MAGIC as nat, 4);
    let f = seq![VERSION, status, 0u8, 0u8];
    assert(buf.subrange(0, buf.len() as int) =~= buf);
    assert(stands_at(buf, 0, buf));
    lemma_be_bytes_len(RESP_MAGIC as nat, 4);
    lemma_pow256();
    match r {
        RedoResponseV::Page(p) => {
            lemma_stands_split(buf, 0, h, p);
        },
        RedoResponseV::Error(t) => {
            let n = be_bytes(encode_utf8(t).len() % 0x1_0000_0000, 4);
            lemma_be_bytes_len(encode_utf8(t).len() % 0x1_0000_0000, 4);
            lemma_stands_split(buf, 0, h + n, encode_utf8(t));
            lemma_stands_split(buf, 0, h, n);
            lemma_stands_number(buf, 8, encode_utf8(t).len() % 0x1_0000_0000, 4);
            text_round_trip(t);
        },
    }
    lemma_stands_split(buf, 0, m, f);
    lemma_stands_number(buf, 0, RESP_MAGIC as nat, 4);
    let fb = buf.subrange(4, 8);
    assert(fb == f);
    assert(buf[4] == fb[0] && buf[5] == fb[1]);
}

/// Where the next `n` records at `at` end.
spec fn redo_records_end(buf: Seq<u8>, at: int, n: nat) -> int
    decreases n,
{
    if n == 0 {
        at
    } else {
        redo_records_end(buf, at + 12 + be32(buf, at + 8), (n - 1) as nat)
    }
}

/// Records that were read, written again, are the bytes that they were read from.
proof fn lemma_redo_records_again(buf: Seq<u8>, at: int, n: nat, seen: Seq<(Lsn, Seq<u8>)>)
    requires
        0 <= at <= buf.len(),
        parse_redo_records(buf, at, n, seen) is Ok,
    ensures
        ({
            let recs = parse_redo_records(buf, at, n, seen)->Ok_0;
            let end = redo_records_end(buf, at, n);
            &&& at <= end <= buf.len()
            &&& recs.len() == seen.len() + n
            &&& redo_records_bytes(recs) == redo_records_bytes(seen) + buf.subrange(at, end)
        }),
    decreases n,
{
    let recs = parse_redo_records(buf, at, n, seen)->Ok_0;
    let end = redo_records_end(buf, at, n);
    if n > 0 {
        let len = be32(buf, at + 8) as int;
        let r = (Lsn(be64(buf, at)), buf.subrange(at + 12, at + 12 + len));
        let next = seen.push(r);
        lemma_redo_records_again(buf, at + 12 + len, (n - 1) as nat, next);
        lemma_pow256();
        lemma_number_again(buf, at, 8);
        lemma_number_again(buf, at + 8, 4);
        assert(next.drop_last() =~= seen);
        assert(redo_record_bytes(r) =~= buf.subrange(at, at + 12 + len));
        assert(redo_records_bytes(next) == redo_records_bytes(seen) + redo_record_bytes(r));
        assert(redo_records_bytes(recs) =~= redo_records_bytes(seen) + buf.subrange(at, end));
    } else {
        assert(redo_records_bytes(seen) + buf.subrange(at, at) =~= redo_records_bytes(seen));
    }
}

/// Records that are cut short are missed.
proof fn lemma_cut_redo_records(
    buf: Seq<u8>,
    cut: int,
    at: int,
    n: nat,
    seen: Seq<(Lsn, Seq<u8>)>,
)
    requires
        0 <= at <= cut <= buf.len(),
        parse_redo_records(buf, at, n, seen) is Ok,
        cut < redo_records_end(buf, at, n),
    ensures
        ({
            let short = parse_redo_records(buf.take(cut), at, n, seen);
            short is Err && short->Err_0 is Truncated
        }),
    decreases n,
{
    if at + 12 <= cut {
        let len = be32(buf, at + 8) as int;
        lemma_before_cut(buf, cut, at, 8);
        lemma_before_cut(buf, cut, at + 8, 4);
        if at + 12 + len <= cut {
            lemma_before_cut(buf, cut, at + 12, len);
            lemma_cut_redo_records(
                buf,
                cut,
                at + 12 + len,
                (n - 1) as nat,
                seen.push((Lsn(be64(buf, at)), buf.subrange(at + 12, at + 12 + len))),
            );
        }
    }
}

/// A request that is cut short is reported as truncated, wherever it is cut.
pub proof fn cut_redo_requests_are_refused(r: RedoRequestV, n: int)
    requires
        r.base_image matches Some(i) ==> i.len() == PAGE_SIZE,
        r.records.len() < 0x1_0000_0000,
        forall|i: int| 0 <= i < r.records.len() ==> (#[trigger] r.records[i]).1.len() < 0x1_0000_0000,
        0 <= n < redo_request_bytes(r).len(),
    ensures
        ({
            let short = parse_redo_request(redo_request_bytes(r).take(n));
            short is Err && short->Err_0 is Truncated
        }),
{
    let buf = redo_request_bytes(r);
    redo_request_round_trip(r);
    let h = redo_head_bytes(r);
    let i = base_bytes(r.base_image);
    let c = be_bytes(r.records.len() % 0x1_0000_0000, 4);
    assert(buf.subrange(0, buf.len() as int) =~= buf);
    lemma_stands_split(buf, 0, h + i + c, redo_records_bytes(r.records));
    lemma_stands_split(buf, 0, h + i, c);
    lemma_stands_split(buf, 0, h, i);
    lemma_redo_head(buf, r);
    lemma_be_bytes_len(r.records.len() % 0x1_0000_0000, 4);
    let at = parse_base(buf, buf[5])->Ok_0.1;
    lemma_redo_records_again(buf, at + 4, be32(buf, at) as nat, Seq::empty());
    assert(Seq::<u8>::empty() + buf.subrange(
        at + 4,
        redo_records_end(buf, at + 4, be32(buf, at) as nat),
    ) =~= buf.subrange(at + 4, redo_records_end(buf, at + 4, be32(buf, at) as nat)));
    if n >= 4 {
        lemma_before_cut(buf, n, 0, 4);
    }
    if n >= at + 4 {
        lemma_before_cut(buf, n, at, 4);
        lemma_cut_redo_records(buf, n, at + 4, be32(buf, at) as nat, Seq::empty());
    }
}

/// A response that is cut short is reported as truncated, wherever it is cut.
pub proof fn cut_redo_responses_are_refused(r: RedoResponseV, n: int)
    requires
        r matches RedoResponseV::Page(p) ==> p.len() == PAGE_SIZE,
        r matches RedoResponseV::Error(m) ==> encode_utf8(m).len() < 0x1_0000_0000,
        0 <= n < redo_response_bytes(r).len(),
    ensures
        ({
            let short = parse_redo_response(redo_response_bytes(r).take(n));
            short is Err && short->Err_0 is Truncated
        }),
{
    let buf = redo_response_bytes(r);
    redo_response_round_trip(r);
    lemma_be_bytes_len(RESP_MAGIC as nat, 4);
    lemma_pow256();
    if n >= 4 {
        lemma_before_cut(buf, n, 0, 4);
    }
    if let RedoResponseV::Error(t) = r {
        let h = redo_reply_head(STATUS_ERR);
        let c = be_bytes(encode_utf8(t).len() % 0x1_0000_0000, 4);
        assert(buf.subrange(0, buf.len() as int) =~= buf);
        lemma_be_bytes_len(encode_utf8(t).len() % 0x1_0000_0000, 4);
        lemma_stands_split(buf, 0, h + c, encode_utf8(t));
        lemma_stands_split(buf, 0, h, c);
        lemma_stands_number(buf, 8, encode_utf8(t).len() % 0x1_0000_0000, 4);
        if n >= 12 {
            lemma_before_cut(buf, n, 8, 4);
        }
    }
}

/// A message that says a request, with no flag but that for a base, starts with the
/// request's wire form, but for the five reserved bytes.
pub proof fn redo_requests_are_written_as_they_were_read(buf: Seq<u8>)
    requires
        parse_redo_request(buf) is Ok,
        buf[5] <= 1,
    ensures
        ({
            let w = redo_request_bytes(parse_redo_request(buf)->Ok_0);
            &&& w.len() <= buf.len()
            &&& w == buf.take(w.len() as int).update(6, 0u8).update(7, 0u8).update(21, 0u8).update(
                22,
                0u8,
            ).update(23, 0u8)
        }),
{
    let r = parse_redo_request(buf)->Ok_0;
    let at = parse_base(buf, buf[5])->Ok_0.1;
    let n = be32(buf, at) as nat;
    let end = redo_records_end(buf, at + 4, n);
    assert(1u8 & 1u8 != 0) by (bit_vector);
    assert(0u8 & 1u8 == 0) by (bit_vector);
    lemma_pow256();
    lemma_number_again(buf, 0, 4);
    lemma_number_again(buf, 8, 4);
    lemma_number_again(buf, 12, 4);
    lemma_number_again(buf, 16, 4);
    lemma_number_again(buf, 24, 4);
    lemma_number_again(buf, at, 4);
    lemma_redo_records_again(buf, at + 4, n, Seq::empty());
    assert(redo_records_bytes(r.records) =~= buf.subrange(at + 4, end));
    assert(fork_code(r.rel.fork) == buf[20]);
    let clear = buf.take(end).update(6, 0u8).update(7, 0u8).update(21, 0u8).update(22, 0u8).update(
        23,
        0u8,
    );
    assert(redo_head_bytes(r) =~= clear.take(28));
    assert(base_bytes(r.base_image) =~= clear.subrange(28, at));
    assert(redo_request_bytes(r) =~= clear);
}

/// A message that says a response starts with the response's wire form, but for the
/// two reserved bytes, where an error's message is text.
pub proof fn redo_responses_are_written_as_they_were_read(buf: Seq<u8>)
    requires
        parse_redo_response(buf) is Ok,
        buf[5] == STATUS_ERR ==> valid_utf8(buf.subrange(12, 12 + be32(buf, 8) as int)),
    ensures
        ({
            let w = redo_response_bytes(parse_redo_response(buf)->Ok_0);
            w.len() <= buf.len() && w == buf.take(w.len() as int).update(6, 0u8).update(7, 0u8)
        }),
{
    let w = redo_response_bytes(parse_redo_response(buf)->Ok_0);
    lemma_pow256();
    lemma_number_again(buf, 0, 4);
    if buf[5] == STATUS_OK {
        assert(w =~= buf.take(8 + PAGE_SIZE).update(6, 0u8).update(7, 0u8));
    } else {
        let len = be32(buf, 8) as int;
        lemma_number_again(buf, 8, 4);
        decode_utf8_encode_utf8(buf.subrange(12, 12 + len));
        assert(w =~= buf.take(12 + len).update(6, 0u8).update(7, 0u8));
    }
}

proof fn lemma_longer_redo_records(
    buf: Seq<u8>,
    more: Seq<u8>,
    at: int,
    n: nat,
    seen: Seq<(Lsn, Seq<u8>)>,
)
    requires
        0 <= at,
        parse_redo_records(buf, at, n, seen) is Ok,
    ensures
        parse_redo_records(buf + more, at, n, seen) == parse_redo_records(buf, at, n, seen),
    decreases n,
{
    if n > 0 {
        let len = be32(buf, at + 8) as int;
        lemma_behind(buf, more, at, 8);
        lemma_behind(buf, more, at + 8, 4);
        lemma_behind(buf, more, at + 12, len);
        lemma_longer_redo_records(
            buf,
            more,
            at + 12 + len,
            (n - 1) as nat,
            seen.push((Lsn(be64(buf, at)), buf.subrange(at + 12, at + 12 + len))),
        );
    }
}

/// What follows a request or a response does not change what it says.
pub proof fn redo_messages_end_where_they_say(buf: Seq<u8>, more: Seq<u8>)
    ensures
        parse_redo_request(buf) is Ok ==> parse_redo_request(buf + more) == parse_redo_request(buf),
        parse_redo_response(buf) is Ok ==> parse_redo_response(buf + more) == parse_redo_response(
            buf,
        ),
{
    if parse_redo_request(buf) is Ok {
        lemma_behind(buf, more, 0, 4);
        lemma_behind(buf, more, 8, 4);
        lemma_behind(buf, more, 12, 4);
        lemma_behind(buf, more, 16, 4);
        lemma_behind(buf, more, 24, 4);
        let (base, at) = parse_base(buf, buf[5])->Ok_0;
        if base is Some {
            lemma_behind(buf, more, 28, PAGE_SIZE as int);
        }
        assert(parse_base(buf + more, buf[5]) == parse_base(buf, buf[5]));
        lemma_behind(buf, more, at, 4);
        lemma_longer_redo_records(buf, more, at + 4, be32(buf, at) as nat, Seq::empty());
    }
    if parse_redo_response(buf) is Ok {
        lemma_behind(buf, more, 0, 4);
        if buf[5] == STATUS_OK {
            lemma_behind(buf, more, 8, PAGE_SIZE as int);
        } else {
            lemma_behind(buf, more, 8, 4);
            lemma_behind(buf, more, 12, be32(buf, 8) as int);
        }
    }
}

} // verus!
