//! Page versions and the ingest record.
//!
//! The pageserver stores the history of every page as a sequence of versions,
//! each tagged with the position at which it took effect. A version is a full
//! 8 KiB *image* (a base), a *delta* (byte edits on the version before), or a
//! raw WAL record that only a wal-redo backend can apply.
//!
//! A [`Modification`] is one such version addressed to a specific page: the
//! unit that the repository ingests.

use vstd::prelude::*;

use crate::bytes::{
    be16, be32, be64, be_bytes, be_u16, be_u32, be_u64, copy_bytes, copy_range, lemma_be_bytes_len,
    lemma_before_cut, lemma_behind, lemma_number_again, lemma_pow256, lemma_stands_number,
    lemma_stands_split, put_be_u16, put_be_u32, put_be_u64, put_slice, stands_at,
};
use crate::common::lsn::Lsn;
use crate::common::page::{fork_code, fork_of, ForkNumber, PageKey, RelTag, PAGE_SIZE};
use crate::text::{copy_str, decimal, push_decimal};

verus! {

/// A single contiguous byte edit within a page.
#[derive(Debug, PartialEq, Eq)]
pub struct ByteEdit {
    /// Offset within the 8 KiB page.
    pub offset: u16,
    /// Replacement bytes.
    pub data: Vec<u8>,
}

/// A raw WAL record that touches a page.
#[derive(Debug, PartialEq, Eq)]
pub struct WalRecord {
    /// Redo re-initializes the page, so the record needs no base.
    pub will_init: bool,
    /// The record's bytes.
    pub rec: Vec<u8>,
}

/// One version of a page.
#[derive(Debug, PartialEq, Eq)]
pub enum PageVersion {
    /// A complete 8 KiB page image (a reconstruction base).
    Image(Vec<u8>),
    /// A set of byte edits applied on top of the previous version.
    Delta(Vec<ByteEdit>),
    /// A WAL record for a wal-redo backend to apply.
    WalRecord(WalRecord),
}

/// What a [`ByteEdit`] holds.
pub struct EditV {
    pub offset: u16,
    pub data: Seq<u8>,
}

/// What a [`PageVersion`] holds.
pub enum VersionV {
    Image(Seq<u8>),
    Delta(Seq<EditV>),
    WalRecord { will_init: bool, rec: Seq<u8> },
}

impl View for ByteEdit {
    type V = EditV;

    open spec fn view(&self) -> EditV {
        EditV { offset: self.offset, data: self.data@ }
    }
}

/// What each edit of a list holds.
pub open spec fn edits_view(e: Seq<ByteEdit>) -> Seq<EditV> {
    Seq::new(e.len(), |i: int| e[i]@)
}

impl View for PageVersion {
    type V = VersionV;

    open spec fn view(&self) -> VersionV {
        match *self {
            PageVersion::Image(img) => VersionV::Image(img@),
            PageVersion::Delta(edits) => VersionV::Delta(edits_view(edits@)),
            PageVersion::WalRecord(w) => VersionV::WalRecord {
                will_init: w.will_init,
                rec: w.rec@,
            },
        }
    }
}

/// Errors from decoding ingest records or applying deltas.
#[derive(Debug, PartialEq, Eq)]
pub enum PageError {
    /// The buffer ended inside a field.
    Truncated(&'static str),
    /// An image is not one page long.
    BadImageSize(usize),
    /// An edit runs past the end of the page.
    EditOutOfBounds { offset: usize, len: usize },
    /// A version of no known kind.
    BadVersionTag(u8),
    /// The wal-redo backend could not rebuild the page.
    Redo(String),
}

/// What a [`PageError`] says.
pub enum PageErrorV {
    Truncated(Seq<char>),
    BadImageSize(usize),
    EditOutOfBounds { offset: usize, len: usize },
    BadVersionTag(u8),
    Redo(Seq<char>),
}

impl View for PageError {
    type V = PageErrorV;

    open spec fn view(&self) -> PageErrorV {
        match *self {
            PageError::Truncated(w) => PageErrorV::Truncated(w@),
            PageError::BadImageSize(n) => PageErrorV::BadImageSize(n),
            PageError::EditOutOfBounds { offset, len } => PageErrorV::EditOutOfBounds {
                offset,
                len,
            },
            PageError::BadVersionTag(t) => PageErrorV::BadVersionTag(t),
            PageError::Redo(m) => PageErrorV::Redo(m@),
        }
    }
}

/// The sentence for an error.
pub open spec fn page_error_text(e: PageErrorV) -> Seq<char> {
    match e {
        PageErrorV::Truncated(w) => "buffer truncated while decoding "@ + w,
        PageErrorV::BadImageSize(n) => "image is "@ + decimal(n as nat) + " bytes, expected "@
            + decimal(PAGE_SIZE as nat),
        PageErrorV::EditOutOfBounds { offset, len } => "edit at offset "@ + decimal(offset as nat)
            + " length "@ + decimal(len as nat) + " runs past the end of the page"@,
        PageErrorV::BadVersionTag(t) => "unknown version tag "@ + decimal(t as nat),
        PageErrorV::Redo(m) => m,
    }
}

impl PageError {
    /// The error as a sentence.
    pub fn to_string(&self) -> (r: String)
        ensures
            r@ == page_error_text(self@),
    {
        match self {
            PageError::Truncated(w) => {
                let mut m = copy_str("buffer truncated while decoding ");
                m.push_str(w);
                m
            },
            PageError::BadImageSize(n) => {
                let mut m = copy_str("image is ");
                push_decimal(&mut m, *n as u64);
                m.push_str(" bytes, expected ");
                push_decimal(&mut m, PAGE_SIZE as u64);
                m
            },
            PageError::EditOutOfBounds { offset, len } => {
                let mut m = copy_str("edit at offset ");
                push_decimal(&mut m, *offset as u64);
                m.push_str(" length ");
                push_decimal(&mut m, *len as u64);
                m.push_str(" runs past the end of the page");
                m
            },
            PageError::BadVersionTag(t) => {
                let mut m = copy_str("unknown version tag ");
                push_decimal(&mut m, *t as u64);
                m
            },
            PageError::Redo(m) => copy_str(m.as_str()),
        }
    }
}

// ---------------------------------------------------------------------------
// Applying versions
// ---------------------------------------------------------------------------

/// `page` with `data` written over it at `at`.
pub open spec fn patched(page: Seq<u8>, at: int, data: Seq<u8>) -> Seq<u8> {
    page.take(at) + data + page.skip(at + data.len())
}

/// The page after the edits, in order, up to the first that runs past the end;
/// and that edit's error.
pub open spec fn edited(page: Seq<u8>, edits: Seq<EditV>) -> (Seq<u8>, Option<PageErrorV>)
    decreases edits.len(),
{
    if edits.len() == 0 {
        (page, None)
    } else {
        let e = edits[0];
        if e.offset + e.data.len() > PAGE_SIZE {
            (
                page,
                Some(
                    PageErrorV::EditOutOfBounds {
                        offset: e.offset as usize,
                        len: e.data.len() as usize,
                    },
                ),
            )
        } else {
            edited(patched(page, e.offset as int, e.data), edits.skip(1))
        }
    }
}

/// The page after a version was applied to it, and the error, if any.
pub open spec fn applied(page: Seq<u8>, v: VersionV) -> (Seq<u8>, Option<PageErrorV>) {
    match v {
        VersionV::Image(img) => if img.len() != PAGE_SIZE {
            (page, Some(PageErrorV::BadImageSize(img.len() as usize)))
        } else {
            (img, None)
        },
        VersionV::Delta(edits) => edited(page, edits),
        VersionV::WalRecord { .. } => (page, None),
    }
}

/// Whether a buffer of `len` bytes has room for the version: a whole image needs a
/// whole page, and each edit that stays on a page needs to stay in the buffer.
pub open spec fn has_room(len: nat, v: VersionV) -> bool {
    match v {
        VersionV::Image(img) => img.len() == PAGE_SIZE ==> len == PAGE_SIZE,
        VersionV::Delta(edits) => forall|i: int|
            0 <= i < edits.len() && (#[trigger] edits[i]).offset + edits[i].data.len() <= PAGE_SIZE
                ==> edits[i].offset + edits[i].data.len() <= len,
        VersionV::WalRecord { .. } => false,
    }
}

/// A full image, or a WAL record that re-initializes the page.
pub open spec fn is_base_version(v: VersionV) -> bool {
    match v {
        VersionV::Image(_) => true,
        VersionV::Delta(_) => false,
        VersionV::WalRecord { will_init, .. } => will_init,
    }
}

fn write_at(page: &mut [u8], at: usize, data: &[u8])
    requires
        at + data@.len() <= old(page)@.len(),
    ensures
        final(page)@ == patched(old(page)@, at as int, data@),
{
    let mut i: usize = 0;
    assert(page.len() <= usize::MAX);
    while i < data.len()
        invariant
            i <= data@.len(),
            at + data@.len() <= page@.len(),
            at + data@.len() <= usize::MAX,
            page@.len() == old(page)@.len(),
            forall|j: int|
                0 <= j < page@.len() ==> page@[j] == (if at <= j < at + i {
                    data@[j - at]
                } else {
                    old(page)@[j]
                }),
        decreases data@.len() - i,
    {
        page[at + i] = data[i];
        i += 1;
    }
    assert(page@ =~= patched(old(page)@, at as int, data@));
}

impl PageVersion {
    /// Apply this version on top of `page` in place. A raw WAL record cannot be
    /// applied here.
    pub fn apply_to(&self, page: &mut [u8]) -> (r: Result<(), PageError>)
        requires
            has_room(old(page)@.len(), self@),
        ensures
            final(page)@ == applied(old(page)@, self@).0,
            final(page)@.len() == old(page)@.len(),
            match applied(old(page)@, self@).1 {
                None => r is Ok,
                Some(e) => r matches Err(x) && x@ == e,
            },
    {
        match self {
            PageVersion::Image(img) => {
                if img.len() != PAGE_SIZE {
                    return Err(PageError::BadImageSize(img.len()));
                }
                write_at(page, 0, img.as_slice());
                assert(page@ =~= img@);
                Ok(())
            },
            PageVersion::Delta(edits) => {
                let ghost all = edits_view(edits@);
                let mut i: usize = 0;
                assert(all.skip(0) =~= all);
                while i < edits.len()
                    invariant
                        i <= edits@.len(),
                        all == edits_view(edits@),
                        page@.len() == old(page)@.len(),
                        has_room(page@.len(), self@),
                        edited(old(page)@, all) == edited(page@, all.skip(i as int)),
                        self@ == VersionV::Delta(all),
                    decreases edits@.len() - i,
                {
                    let e = &edits[i];
                    let start: usize = e.offset as usize;
                    assert(all[i as int] == e@);
                    assert(all.skip(i as int)[0] == e@);
                    assert(all.skip(i as int).skip(1) =~= all.skip(i + 1));
                    if start > PAGE_SIZE || e.data.len() > PAGE_SIZE - start {
                        return Err(PageError::EditOutOfBounds { offset: start, len: e.data.len() });
                    }
                    write_at(page, start, e.data.as_slice());
                    i += 1;
                }
                Ok(())
            },
            PageVersion::WalRecord(_) => Ok(()),
        }
    }

    /// Whether this version is a full image.
    pub fn is_image(&self) -> (r: bool)
        ensures
            r == (self@ is Image),
    {
        match self {
            PageVersion::Image(_) => true,
            _ => false,
        }
    }

    /// Whether reconstruction can start from this version: a full image, or a
    /// WAL record that re-initializes the page.
    pub fn is_base(&self) -> (r: bool)
        ensures
            r == is_base_version(self@),
    {
        match self {
            PageVersion::Image(_) => true,
            PageVersion::Delta(_) => false,
            PageVersion::WalRecord(w) => w.will_init,
        }
    }
}

impl Clone for ByteEdit {
    fn clone(&self) -> (r: ByteEdit)
        ensures
            r@ == self@,
    {
        ByteEdit { offset: self.offset, data: copy_bytes(self.data.as_slice()) }
    }
}

impl Clone for WalRecord {
    fn clone(&self) -> (r: WalRecord)
        ensures
            r.will_init == self.will_init,
            r.rec@ == self.rec@,
    {
        WalRecord { will_init: self.will_init, rec: copy_bytes(self.rec.as_slice()) }
    }
}

impl Clone for PageVersion {
    fn clone(&self) -> (r: PageVersion)
        ensures
            r@ == self@,
    {
        match self {
            PageVersion::Image(img) => PageVersion::Image(copy_bytes(img.as_slice())),
            PageVersion::Delta(edits) => {
                let mut out: Vec<ByteEdit> = Vec::new();
                let mut i: usize = 0;
                while i < edits.len()
                    invariant
                        i <= edits@.len(),
                        out@.len() == i,
                        forall|j: int| 0 <= j < i ==> (#[trigger] out@[j])@ == edits@[j]@,
                    decreases edits@.len() - i,
                {
                    out.push(edits[i].clone());
                    i += 1;
                }
                assert(edits_view(out@) =~= edits_view(edits@));
                PageVersion::Delta(out)
            },
            PageVersion::WalRecord(w) => PageVersion::WalRecord(w.clone()),
        }
    }
}


// ---------------------------------------------------------------------------
// Wire form
// ---------------------------------------------------------------------------

/// Marks an image.
pub const TAG_IMAGE: u8 = 0;

/// Marks a delta.
pub const TAG_DELTA: u8 = 1;

/// An edit's offset, the length of its data in two bytes, and the data.
pub open spec fn edit_bytes(e: EditV) -> Seq<u8> {
    be_bytes(e.offset as nat, 2) + be_bytes(e.data.len() % 0x1_0000, 2) + e.data
}

/// The edits one behind the other.
pub open spec fn edits_bytes(edits: Seq<EditV>) -> Seq<u8>
    decreases edits.len(),
{
    if edits.len() == 0 {
        Seq::empty()
    } else {
        edits_bytes(edits.drop_last()) + edit_bytes(edits.last())
    }
}

/// The wire form of an image or a delta.
pub open spec fn version_bytes(v: VersionV) -> Seq<u8> {
    match v {
        VersionV::Image(img) => seq![TAG_IMAGE] + img,
        VersionV::Delta(edits) => seq![TAG_DELTA] + be_bytes(edits.len() % 0x1_0000, 2)
            + edits_bytes(edits),
        VersionV::WalRecord { .. } => Seq::empty(),
    }
}

/// Whether the wire form says all of the version: an image of one page, or a
/// delta whose counts fit in two bytes.
pub open spec fn version_fits(v: VersionV) -> bool {
    match v {
        VersionV::Image(img) => img.len() == PAGE_SIZE,
        VersionV::Delta(edits) => edits.len() < 0x1_0000 && forall|i: int|
            0 <= i < edits.len() ==> (#[trigger] edits[i]).data.len() < 0x1_0000,
        VersionV::WalRecord { .. } => false,
    }
}

/// The next `n` edits at `at` (after those in `seen`), and where they end.
pub open spec fn parse_edits(buf: Seq<u8>, at: int, n: nat, seen: Seq<EditV>) -> Result<
    (Seq<EditV>, int),
    PageErrorV,
>
    decreases n,
{
    if n == 0 {
        Ok((seen, at))
    } else if at + 4 > buf.len() {
        Err(PageErrorV::Truncated("u16"@))
    } else {
        let len = be16(buf, at + 2) as int;
        if at + 4 + len > buf.len() {
            Err(PageErrorV::Truncated("edit data"@))
        } else {
            parse_edits(
                buf,
                at + 4 + len,
                (n - 1) as nat,
                seen.push(
                    EditV { offset: be16(buf, at), data: buf.subrange(at + 4, at + 4 + len) },
                ),
            )
        }
    }
}

/// The version at `at`, and where it ends.
pub open spec fn parse_version(buf: Seq<u8>, at: int) -> Result<(VersionV, int), PageErrorV> {
    if at + 1 > buf.len() {
        Err(PageErrorV::Truncated("version tag"@))
    } else if buf[at] == TAG_IMAGE {
        if at + 1 + PAGE_SIZE > buf.len() {
            Err(PageErrorV::Truncated("image"@))
        } else {
            Ok((VersionV::Image(buf.subrange(at + 1, at + 1 + PAGE_SIZE)), at + 1 + PAGE_SIZE))
        }
    } else if buf[at] == TAG_DELTA {
        if at + 3 > buf.len() {
            Err(PageErrorV::Truncated("u16"@))
        } else {
            match parse_edits(buf, at + 3, be16(buf, at + 1) as nat, Seq::empty()) {
                Err(e) => Err(e),
                Ok((edits, end)) => Ok((VersionV::Delta(edits), end)),
            }
        }
    } else {
        Err(PageErrorV::BadVersionTag(buf[at]))
    }
}

/// Append an image or a delta to `buf`.
pub(crate) fn write_version(buf: &mut Vec<u8>, v: &PageVersion)
    requires
        !(v@ is WalRecord),
    ensures
        final(buf)@ == old(buf)@ + version_bytes(v@),
{
    match v {
        PageVersion::Image(img) => {
            buf.push(TAG_IMAGE);
            put_slice(buf, img.as_slice());
            assert(buf@ =~= old(buf)@ + version_bytes(v@));
        },
        PageVersion::Delta(edits) => {
            buf.push(TAG_DELTA);
            put_be_u16(buf, (edits.len() % 0x1_0000) as u16);
            let ghost head = buf@;
            let ghost all = edits_view(edits@);
            assert(all.take(0) =~= Seq::empty());
            assert(buf@ =~= head + edits_bytes(all.take(0)));
            let mut i: usize = 0;
            while i < edits.len()
                invariant
                    i <= edits@.len(),
                    all == edits_view(edits@),
                    buf@ == head + edits_bytes(all.take(i as int)),
                decreases edits@.len() - i,
            {
                let e = &edits[i];
                put_be_u16(buf, e.offset);
                put_be_u16(buf, (e.data.len() % 0x1_0000) as u16);
                put_slice(buf, e.data.as_slice());
                assert(all.take(i + 1).drop_last() =~= all.take(i as int));
                assert(all.take(i + 1).last() == e@);
                assert(buf@ =~= head + edits_bytes(all.take(i + 1)));
                i += 1;
            }
            assert(all.take(i as int) =~= all);
            assert(buf@ =~= old(buf)@ + version_bytes(v@));
        },
        PageVersion::WalRecord(_) => {},
    }
}

fn read_u16(buf: &[u8], pos: usize) -> (r: Result<u16, PageError>)
    requires
        pos <= buf@.len(),
    ensures
        match r {
            Ok(v) => pos + 2 <= buf@.len() && v == be16(buf@, pos as int),
            Err(e) => pos + 2 > buf@.len() && e@ == PageErrorV::Truncated("u16"@),
        },
{
    if buf.len() - pos < 2 {
        return Err(PageError::Truncated("u16"));
    }
    Ok(be_u16(buf, pos))
}

/// The four bytes at `pos`.
pub(crate) fn read_u32(buf: &[u8], pos: usize) -> (r: Result<u32, PageError>)
    requires
        pos <= buf@.len(),
    ensures
        match r {
            Ok(v) => pos + 4 <= buf@.len() && v == be32(buf@, pos as int),
            Err(e) => pos + 4 > buf@.len() && e@ == PageErrorV::Truncated("u32"@),
        },
{
    if buf.len() - pos < 4 {
        return Err(PageError::Truncated("u32"));
    }
    Ok(be_u32(buf, pos))
}

/// The eight bytes at `pos`.
pub(crate) fn read_u64(buf: &[u8], pos: usize) -> (r: Result<u64, PageError>)
    requires
        pos <= buf@.len(),
    ensures
        match r {
            Ok(v) => pos + 8 <= buf@.len() && v == be64(buf@, pos as int),
            Err(e) => pos + 8 > buf@.len() && e@ == PageErrorV::Truncated("u64"@),
        },
{
    if buf.len() - pos < 8 {
        return Err(PageError::Truncated("u64"));
    }
    Ok(be_u64(buf, pos))
}

/// Read a version from `buf` at `pos`: the version, and where it ends.
pub(crate) fn read_version(buf: &[u8], pos: usize) -> (r: Result<(PageVersion, usize), PageError>)
    requires
        pos <= buf@.len(),
    ensures
        match r {
            Ok((v, end)) => parse_version(buf@, pos as int) == Ok::<_, PageErrorV>((v@, end as int))
                && end <= buf@.len() && !(v@ is WalRecord),
            Err(e) => parse_version(buf@, pos as int) == Err::<(VersionV, int), PageErrorV>(e@),
        },
{
    if buf.len() - pos < 1 {
        return Err(PageError::Truncated("version tag"));
    }
    let tag: u8 = buf[pos];
    if tag == TAG_IMAGE {
        if buf.len() - pos - 1 < PAGE_SIZE {
            return Err(PageError::Truncated("image"));
        }
        let end: usize = pos + 1 + PAGE_SIZE;
        Ok((PageVersion::Image(copy_range(buf, pos + 1, end)), end))
    } else if tag == TAG_DELTA {
        let count: u16 = read_u16(buf, pos + 1)?;
        let mut at: usize = pos + 3;
        let mut edits: Vec<ByteEdit> = Vec::new();
        let mut left: u16 = count;
        assert(edits_view(edits@) =~= Seq::empty());
        while left > 0
            invariant
                at <= buf@.len(),
                pos + 3 <= buf@.len(),
                buf@[pos as int] == TAG_DELTA,
                count == be16(buf@, pos + 1),
                parse_edits(buf@, at as int, left as nat, edits_view(edits@)) == parse_edits(
                    buf@,
                    pos + 3,
                    count as nat,
                    Seq::empty(),
                ),
            decreases left,
        {
            let ghost before = edits_view(edits@);
            assert(buf.len() == buf@.len());
            let offset: u16 = read_u16(buf, at)?;
            let len: u16 = read_u16(buf, at + 2)?;
            if buf.len() - at - 4 < len as usize {
                return Err(PageError::Truncated("edit data"));
            }
            let end: usize = at + 4 + len as usize;
            let e = ByteEdit { offset, data: copy_range(buf, at + 4, end) };
            let ghost ev = e@;
            edits.push(e);
            assert(edits_view(edits@) =~= before.push(ev));
            at = end;
            left -= 1;
        }
        Ok((PageVersion::Delta(edits), at))
    } else {
        Err(PageError::BadVersionTag(tag))
    }
}

proof fn lemma_edit_bytes(e: EditV)
    ensures
        edit_bytes(e).len() == 4 + e.data.len(),
{
    lemma_be_bytes_len(e.offset as nat, 2);
    lemma_be_bytes_len(e.data.len() % 0x1_0000, 2);
}

/// Edits that stand somewhere in their wire form are parsed there.
proof fn lemma_parse_edits(buf: Seq<u8>, at: int, edits: Seq<EditV>, k: nat)
    requires
        k <= edits.len(),
        forall|i: int| 0 <= i < edits.len() ==> (#[trigger] edits[i]).data.len() < 0x1_0000,
        stands_at(buf, at, edits_bytes(edits)),
    ensures
        ({
            let mid = at + edits_bytes(edits.take(k as int)).len();
            &&& mid <= at + edits_bytes(edits).len()
            &&& parse_edits(buf, at, edits.len(), Seq::empty()) == parse_edits(
                buf,
                mid,
                (edits.len() - k) as nat,
                edits.take(k as int),
            )
        }),
    decreases edits.len(), k,
{
    if k == 0 {
        assert(edits.take(0) =~= Seq::empty());
    } else {
        lemma_parse_edits(buf, at, edits, (k - 1) as nat);
        let e = edits[k - 1];
        let before = edits.take(k - 1);
        let mid = at + edits_bytes(before).len();
        assert(edits.take(k as int).drop_last() =~= before);
        assert(edits.take(k as int).last() == e);
        lemma_edit_bytes(e);
        lemma_edits_prefix(edits, k);
        let tail = edits_bytes(edits).skip(edits_bytes(edits.take(k as int)).len() as int);
        assert(edits_bytes(edits) =~= edits_bytes(edits.take(k as int)) + tail);
        lemma_stands_split(buf, at, edits_bytes(edits.take(k as int)), tail);
        lemma_stands_split(buf, at, edits_bytes(before), edit_bytes(e));
        let head = be_bytes(e.offset as nat, 2) + be_bytes(e.data.len() % 0x1_0000, 2);
        lemma_stands_split(buf, mid, head, e.data);
        lemma_stands_split(
            buf,
            mid,
            be_bytes(e.offset as nat, 2),
            be_bytes(e.data.len() % 0x1_0000, 2),
        );
        lemma_be_bytes_len(e.offset as nat, 2);
        lemma_be_bytes_len(e.data.len() % 0x1_0000, 2);
        lemma_pow256();
        lemma_stands_number(buf, mid, e.offset as nat, 2);
        lemma_stands_number(buf, mid + 2, e.data.len() % 0x1_0000, 2);
        assert(be16(buf, mid) == e.offset);
        assert(be16(buf, mid + 2) == e.data.len());
        assert(buf.subrange(mid + 4, mid + 4 + e.data.len()) =~= e.data);
        assert(edits.take(k as int) =~= before.push(e));
    }
}

proof fn lemma_edits_prefix(edits: Seq<EditV>, k: nat)
    requires
        k <= edits.len(),
    ensures
        edits_bytes(edits.take(k as int)).len() <= edits_bytes(edits).len(),
        edits_bytes(edits).take(edits_bytes(edits.take(k as int)).len() as int) == edits_bytes(
            edits.take(k as int),
        ),
    decreases edits.len(),
{
    if k == edits.len() {
        assert(edits.take(k as int) =~= edits);
        assert(edits_bytes(edits).take(edits_bytes(edits).len() as int) =~= edits_bytes(edits));
    } else {
        lemma_edits_prefix(edits.drop_last(), k);
        assert(edits.drop_last().take(k as int) =~= edits.take(k as int));
        let p = edits_bytes(edits.take(k as int));
        assert(edits_bytes(edits).take(p.len() as int) =~= edits_bytes(edits.drop_last()).take(
            p.len() as int,
        ));
    }
}

/// A version that stands somewhere in its wire form is read there.
pub proof fn version_round_trip(buf: Seq<u8>, at: int, v: VersionV)
    requires
        version_fits(v),
        stands_at(buf, at, version_bytes(v)),
    ensures
        parse_version(buf, at) == Ok::<_, PageErrorV>((v, at + version_bytes(v).len())),
{
    match v {
        VersionV::Image(img) => {
            lemma_stands_split(buf, at, seq![TAG_IMAGE], img);
            assert(buf[at] == buf.subrange(at, at + 1)[0]);
            assert(buf.subrange(at + 1, at + 1 + PAGE_SIZE) =~= img);
        },
        VersionV::Delta(edits) => {
            let n = be_bytes(edits.len() % 0x1_0000, 2);
            lemma_stands_split(buf, at, seq![TAG_DELTA] + n, edits_bytes(edits));
            lemma_stands_split(buf, at, seq![TAG_DELTA], n);
            assert(buf[at] == buf.subrange(at, at + 1)[0]);
            lemma_be_bytes_len(edits.len() % 0x1_0000, 2);
            lemma_pow256();
            lemma_stands_number(buf, at + 1, edits.len() % 0x1_0000, 2);
            assert(be16(buf, at + 1) == edits.len());
            lemma_parse_edits(buf, at + 3, edits, edits.len());
            assert(edits.take(edits.len() as int) =~= edits);
        },
        VersionV::WalRecord { .. } => {},
    }
}

/// One page modification to ingest: which page, at which position, the change.
#[derive(Debug, PartialEq, Eq)]
pub struct Modification {
    /// The relation and fork this page belongs to.
    pub rel: RelTag,
    /// Block number within the fork.
    pub block: u32,
    /// Position at which this modification takes effect.
    pub lsn: Lsn,
    /// The new version.
    pub version: PageVersion,
}

/// What a [`Modification`] holds.
pub struct ModV {
    pub key: PageKey,
    pub lsn: Lsn,
    pub version: VersionV,
}

impl View for Modification {
    type V = ModV;

    open spec fn view(&self) -> ModV {
        ModV {
            key: PageKey { rel: self.rel, block: self.block },
            lsn: self.lsn,
            version: self.version@,
        }
    }
}

impl Clone for Modification {
    fn clone(&self) -> (r: Modification)
        ensures
            r@ == self@,
    {
        Modification {
            rel: self.rel,
            block: self.block,
            lsn: self.lsn,
            version: self.version.clone(),
        }
    }
}

/// The wire form of a page's address and a position.
pub open spec fn address_bytes(key: PageKey, lsn: Lsn) -> Seq<u8> {
    be_bytes(key.rel.spc_node as nat, 4) + be_bytes(key.rel.db_node as nat, 4) + be_bytes(
        key.rel.rel_node as nat,
        4,
    ) + seq![fork_code(key.rel.fork)] + be_bytes(key.block as nat, 4) + be_bytes(lsn.0 as nat, 8)
}

/// The length of a page's address and a position.
pub const ADDRESS_LEN: usize = 25;

/// The address at `at`; it spans [`ADDRESS_LEN`] bytes.
pub open spec fn parse_address(buf: Seq<u8>, at: int) -> Result<(PageKey, Lsn), PageErrorV> {
    if at + 12 > buf.len() {
        Err(PageErrorV::Truncated("u32"@))
    } else if at + 13 > buf.len() {
        Err(PageErrorV::Truncated("fork"@))
    } else {
        match fork_of(buf[at + 12]) {
            None => Err(PageErrorV::Truncated("fork"@)),
            Some(fork) => if at + 17 > buf.len() {
                Err(PageErrorV::Truncated("u32"@))
            } else if at + 25 > buf.len() {
                Err(PageErrorV::Truncated("u64"@))
            } else {
                Ok(
                    (
                        PageKey {
                            rel: RelTag {
                                spc_node: be32(buf, at),
                                db_node: be32(buf, at + 4),
                                rel_node: be32(buf, at + 8),
                                fork,
                            },
                            block: be32(buf, at + 13),
                        },
                        Lsn(be64(buf, at + 17)),
                    ),
                )
            },
        }
    }
}

/// The modification that a wire form says, or why it says none. What follows
/// the version is ignored.
pub open spec fn parse_modification(buf: Seq<u8>) -> Result<ModV, PageErrorV> {
    match parse_address(buf, 0) {
        Err(e) => Err(e),
        Ok((key, lsn)) => match parse_version(buf, ADDRESS_LEN as int) {
            Err(e) => Err(e),
            Ok((version, _)) => Ok(ModV { key, lsn, version }),
        },
    }
}

/// Append a page's address and a position.
pub(crate) fn write_address(buf: &mut Vec<u8>, key: &PageKey, lsn: Lsn)
    ensures
        final(buf)@ == old(buf)@ + address_bytes(*key, lsn),
{
    put_be_u32(buf, key.rel.spc_node);
    put_be_u32(buf, key.rel.db_node);
    put_be_u32(buf, key.rel.rel_node);
    buf.push(key.rel.fork.to_raw());
    put_be_u32(buf, key.block);
    put_be_u64(buf, lsn.raw());
    assert(buf@ =~= old(buf)@ + address_bytes(*key, lsn));
}

/// Read a page's address and a position at `pos`.
pub(crate) fn read_address(buf: &[u8], pos: usize) -> (r: Result<(PageKey, Lsn), PageError>)
    requires
        pos <= buf@.len(),
    ensures
        match r {
            Ok(a) => parse_address(buf@, pos as int) == Ok::<(PageKey, Lsn), PageErrorV>(a) && pos
                + ADDRESS_LEN <= buf@.len(),
            Err(e) => parse_address(buf@, pos as int) == Err::<(PageKey, Lsn), PageErrorV>(e@),
        },
{
    assert(buf.len() == buf@.len());
    let spc_node: u32 = read_u32(buf, pos)?;
    let db_node: u32 = read_u32(buf, pos + 4)?;
    let rel_node: u32 = read_u32(buf, pos + 8)?;
    if buf.len() - pos < 13 {
        return Err(PageError::Truncated("fork"));
    }
    let fork = match ForkNumber::from_raw(buf[pos + 12]) {
        Some(f) => f,
        None => return Err(PageError::Truncated("fork")),
    };
    let block: u32 = read_u32(buf, pos + 13)?;
    let lsn: u64 = read_u64(buf, pos + 17)?;
    Ok((PageKey { rel: RelTag { spc_node, db_node, rel_node, fork }, block }, Lsn(lsn)))
}

/// An address that stands somewhere in its wire form is read there.
pub proof fn address_round_trip(buf: Seq<u8>, at: int, key: PageKey, lsn: Lsn)
    requires
        stands_at(buf, at, address_bytes(key, lsn)),
    ensures
        parse_address(buf, at) == Ok::<(PageKey, Lsn), PageErrorV>((key, lsn)),
        address_bytes(key, lsn).len() == ADDRESS_LEN,
{
    let a = be_bytes(key.rel.spc_node as nat, 4);
    let b = be_bytes(key.rel.db_node as nat, 4);
    let c = be_bytes(key.rel.rel_node as nat, 4);
    let f = seq![fork_code(key.rel.fork)];
    let d = be_bytes(key.block as nat, 4);
    let e = be_bytes(lsn.0 as nat, 8);
    lemma_be_bytes_len(key.rel.spc_node as nat, 4);
    lemma_be_bytes_len(key.rel.db_node as nat, 4);
    lemma_be_bytes_len(key.rel.rel_node as nat, 4);
    lemma_be_bytes_len(key.block as nat, 4);
    lemma_be_bytes_len(lsn.0 as nat, 8);
    lemma_pow256();
    lemma_stands_split(buf, at, a + b + c + f + d, e);
    lemma_stands_split(buf, at, a + b + c + f, d);
    lemma_stands_split(buf, at, a + b + c, f);
    lemma_stands_split(buf, at, a + b, c);
    lemma_stands_split(buf, at, a, b);
    lemma_stands_number(buf, at, key.rel.spc_node as nat, 4);
    lemma_stands_number(buf, at + 4, key.rel.db_node as nat, 4);
    lemma_stands_number(buf, at + 8, key.rel.rel_node as nat, 4);
    lemma_stands_number(buf, at + 13, key.block as nat, 4);
    lemma_stands_number(buf, at + 17, lsn.0 as nat, 8);
    assert(buf[at + 12] == buf.subrange(at + 12, at + 13)[0]);
}

impl Modification {
    /// Encode the modification to its ingest-wire body (no length prefix).
    pub fn encode(&self) -> (r: Vec<u8>)
        requires
            !(self@.version is WalRecord),
        ensures
            r@ == address_bytes(self@.key, self@.lsn) + version_bytes(self@.version),
    {
        let mut buf: Vec<u8> = Vec::with_capacity(32 + PAGE_SIZE);
        let key = PageKey { rel: self.rel, block: self.block };
        write_address(&mut buf, &key, self.lsn);
        write_version(&mut buf, &self.version);
        assert(buf@ =~= address_bytes(self@.key, self@.lsn) + version_bytes(self@.version));
        buf
    }

    /// Decode a modification from its ingest-wire body.
    pub fn decode(buf: &[u8]) -> (r: Result<Modification, PageError>)
        ensures
            match r {
                Ok(m) => parse_modification(buf@) == Ok::<ModV, PageErrorV>(m@),
                Err(e) => parse_modification(buf@) == Err::<ModV, PageErrorV>(e@),
            },
    {
        let (key, lsn) = read_address(buf, 0)?;
        let (version, _end) = read_version(buf, ADDRESS_LEN)?;
        Ok(Modification { rel: key.rel, block: key.block, lsn, version })
    }
}

/// A modification decoded from its own wire form is the modification.
pub proof fn modification_round_trip(m: ModV)
    requires
        version_fits(m.version),
    ensures
        parse_modification(address_bytes(m.key, m.lsn) + version_bytes(m.version)) == Ok::<
            ModV,
            PageErrorV,
        >(m),
{
    let a = address_bytes(m.key, m.lsn);
    let v = version_bytes(m.version);
    let buf = a + v;
    assert(buf.subrange(0, buf.len() as int) =~= buf);
    lemma_stands_split(buf, 0, a, v);
    address_round_trip(buf, 0, m.key, m.lsn);
    version_round_trip(buf, a.len() as int, m.version);
}

/// Edits that are cut short are missed; those before the cut are read as before.
proof fn lemma_cut_edits(buf: Seq<u8>, cut: int, at: int, n: nat, seen: Seq<EditV>)
    requires
        0 <= at <= cut <= buf.len(),
        parse_edits(buf, at, n, seen) is Ok,
    ensures
        ({
            let end = parse_edits(buf, at, n, seen)->Ok_0.1;
            let short = parse_edits(buf.take(cut), at, n, seen);
            &&& at <= end <= buf.len()
            &&& end <= cut ==> short == parse_edits(buf, at, n, seen)
            &&& cut < end ==> short is Err && short->Err_0 is Truncated
        }),
    decreases n,
{
    if n > 0 && at + 4 <= cut {
        lemma_before_cut(buf, cut, at, 2);
        lemma_before_cut(buf, cut, at + 2, 2);
        let len = be16(buf, at + 2) as int;
        let e = EditV { offset: be16(buf, at), data: buf.subrange(at + 4, at + 4 + len) };
        if at + 4 + len <= cut {
            lemma_before_cut(buf, cut, at + 4, len);
            lemma_cut_edits(buf, cut, at + 4 + len, (n - 1) as nat, seen.push(e));
        } else {
            lemma_cut_edits(buf, buf.len() as int, at + 4 + len, (n - 1) as nat, seen.push(e));
        }
    } else if n > 0 {
        let len = be16(buf, at + 2) as int;
        let e = EditV { offset: be16(buf, at), data: buf.subrange(at + 4, at + 4 + len) };
        lemma_cut_edits(buf, buf.len() as int, at + 4 + len, (n - 1) as nat, seen.push(e));
    }
}

/// A version that is cut short is missed; one before the cut is read as before.
pub(crate) proof fn lemma_cut_version(buf: Seq<u8>, cut: int, at: int)
    requires
        0 <= at,
        0 <= cut <= buf.len(),
        parse_version(buf, at) is Ok,
    ensures
        ({
            let end = parse_version(buf, at)->Ok_0.1;
            let short = parse_version(buf.take(cut), at);
            &&& at < end <= buf.len()
            &&& end <= cut ==> short == parse_version(buf, at)
            &&& cut < end ==> short is Err && short->Err_0 is Truncated
        }),
{
    if buf[at] == TAG_IMAGE {
        if at + 1 + PAGE_SIZE <= cut {
            lemma_before_cut(buf, cut, at + 1, PAGE_SIZE as int);
        }
    } else {
        let n = be16(buf, at + 1) as nat;
        lemma_cut_edits(buf, buf.len() as int, at + 3, n, Seq::empty());
        if at + 3 <= cut {
            lemma_before_cut(buf, cut, at + 1, 2);
            lemma_cut_edits(buf, cut, at + 3, n, Seq::empty());
        }
    }
}

/// An address that is cut short is missed; one before the cut is read as before.
pub(crate) proof fn lemma_cut_address(buf: Seq<u8>, cut: int, at: int)
    requires
        0 <= at,
        0 <= cut <= buf.len(),
        parse_address(buf, at) is Ok,
    ensures
        ({
            let short = parse_address(buf.take(cut), at);
            &&& at + ADDRESS_LEN <= buf.len()
            &&& at + ADDRESS_LEN <= cut ==> short == parse_address(buf, at)
            &&& cut < at + ADDRESS_LEN ==> short is Err && short->Err_0 is Truncated
        }),
{
    if at + ADDRESS_LEN <= cut {
        lemma_before_cut(buf, cut, at, 4);
        lemma_before_cut(buf, cut, at + 4, 4);
        lemma_before_cut(buf, cut, at + 8, 4);
        lemma_before_cut(buf, cut, at + 13, 4);
        lemma_before_cut(buf, cut, at + 17, 8);
    }
}

/// A modification that is cut short is reported as truncated, wherever it is cut.
pub proof fn cut_modifications_are_refused(m: ModV, n: int)
    requires
        version_fits(m.version),
        0 <= n < (address_bytes(m.key, m.lsn) + version_bytes(m.version)).len(),
    ensures
        ({
            let short = parse_modification(
                (address_bytes(m.key, m.lsn) + version_bytes(m.version)).take(n),
            );
            short is Err && short->Err_0 is Truncated
        }),
{
    let a = address_bytes(m.key, m.lsn);
    let v = version_bytes(m.version);
    let buf = a + v;
    assert(buf.subrange(0, buf.len() as int) =~= buf);
    lemma_stands_split(buf, 0, a, v);
    address_round_trip(buf, 0, m.key, m.lsn);
    version_round_trip(buf, a.len() as int, m.version);
    lemma_cut_address(buf, n, 0);
    lemma_cut_version(buf, n, a.len() as int);
}

/// Edits that were read, written again, are the bytes that they were read from.
proof fn lemma_edits_again(buf: Seq<u8>, at: int, n: nat, seen: Seq<EditV>)
    requires
        0 <= at <= buf.len(),
        parse_edits(buf, at, n, seen) is Ok,
    ensures
        ({
            let (edits, end) = parse_edits(buf, at, n, seen)->Ok_0;
            &&& at <= end <= buf.len()
            &&& edits.len() == seen.len() + n
            &&& edits_bytes(edits) == edits_bytes(seen) + buf.subrange(at, end)
        }),
    decreases n,
{
    if n > 0 {
        let len = be16(buf, at + 2) as int;
        let e = EditV { offset: be16(buf, at), data: buf.subrange(at + 4, at + 4 + len) };
        let next = seen.push(e);
        lemma_edits_again(buf, at + 4 + len, (n - 1) as nat, next);
        let (edits, end) = parse_edits(buf, at, n, seen)->Ok_0;
        lemma_pow256();
        lemma_number_again(buf, at, 2);
        lemma_number_again(buf, at + 2, 2);
        assert(next.drop_last() =~= seen);
        assert(edit_bytes(e) =~= buf.subrange(at, at + 4 + len));
        assert(edits_bytes(next) == edits_bytes(seen) + edit_bytes(e));
        assert(edits_bytes(edits) =~= edits_bytes(seen) + buf.subrange(at, end));
    } else {
        assert(buf.subrange(at, at) =~= Seq::empty());
        assert(edits_bytes(seen) + buf.subrange(at, at) =~= edits_bytes(seen));
    }
}

/// A version that was read, written again, is the bytes that it was read from.
pub proof fn versions_are_written_as_they_were_read(buf: Seq<u8>, at: int)
    requires
        0 <= at,
        parse_version(buf, at) is Ok,
    ensures
        ({
            let (v, end) = parse_version(buf, at)->Ok_0;
            at < end <= buf.len() && version_bytes(v) == buf.subrange(at, end)
        }),
{
    let (v, end) = parse_version(buf, at)->Ok_0;
    if buf[at] == TAG_IMAGE {
        assert(version_bytes(v) =~= buf.subrange(at, end));
    } else {
        lemma_edits_again(buf, at + 3, be16(buf, at + 1) as nat, Seq::empty());
        lemma_pow256();
        lemma_number_again(buf, at + 1, 2);
        assert(version_bytes(v) =~= buf.subrange(at, end));
    }
}

/// An address that was read, written again, is the bytes that it was read from.
pub proof fn addresses_are_written_as_they_were_read(buf: Seq<u8>, at: int)
    requires
        0 <= at,
        parse_address(buf, at) is Ok,
    ensures
        at + ADDRESS_LEN <= buf.len(),
        ({
            let (key, lsn) = parse_address(buf, at)->Ok_0;
            address_bytes(key, lsn) == buf.subrange(at, at + ADDRESS_LEN)
        }),
{
    let (key, lsn) = parse_address(buf, at)->Ok_0;
    lemma_pow256();
    lemma_number_again(buf, at, 4);
    lemma_number_again(buf, at + 4, 4);
    lemma_number_again(buf, at + 8, 4);
    lemma_number_again(buf, at + 13, 4);
    lemma_number_again(buf, at + 17, 8);
    assert(fork_code(key.rel.fork) == buf[at + 12]);
    assert(address_bytes(key, lsn) =~= buf.subrange(at, at + ADDRESS_LEN));
}

/// A body that says a modification starts with the modification's wire form.
pub proof fn modifications_are_written_as_they_were_read(buf: Seq<u8>)
    requires
        parse_modification(buf) is Ok,
    ensures
        ({
            let m = parse_modification(buf)->Ok_0;
            let w = address_bytes(m.key, m.lsn) + version_bytes(m.version);
            w.len() <= buf.len() && w == buf.take(w.len() as int)
        }),
{
    addresses_are_written_as_they_were_read(buf, 0);
    versions_are_written_as_they_were_read(buf, ADDRESS_LEN as int);
    let m = parse_modification(buf)->Ok_0;
    let end = parse_version(buf, ADDRESS_LEN as int)->Ok_0.1;
    let w = address_bytes(m.key, m.lsn) + version_bytes(m.version);
    assert(w =~= buf.take(end));
}

/// The edit sets byte `k`.
pub open spec fn sets(e: EditV, k: int) -> bool {
    e.offset <= k < e.offset + e.data.len()
}

/// A delta does what its edits say, in their order. Where all of them stay on the page,
/// each byte is what the last edit that sets it gives, and as it was where none does. The
/// first edit that runs past the page is reported, and those behind it are not applied.
pub proof fn edits_set_their_bytes(page: Seq<u8>, edits: Seq<EditV>)
    requires
        page.len() == 8192,
    ensures
        ({
            let (now, bad) = edited(page, edits);
            &&& now.len() == 8192
            &&& (forall|i: int|
                0 <= i < edits.len() ==> (#[trigger] edits[i]).offset + edits[i].data.len() <= 8192)
                ==> bad is None
            &&& bad is None ==> {
                &&& forall|k: int|
                    0 <= k < 8192 && (forall|i: int|
                        0 <= i < edits.len() ==> !sets(#[trigger] edits[i], k)) ==> #[trigger] now[k]
                        == page[k]
                &&& forall|i: int, k: int|
                    0 <= i < edits.len() && sets(#[trigger] edits[i], k) && (forall|j: int|
                        i < j < edits.len() ==> !sets(#[trigger] edits[j], k)) ==> #[trigger] now[k]
                        == edits[i].data[k - edits[i].offset]
            }
            &&& bad matches Some(e) ==> exists|b: int|
                0 <= b < edits.len() && (#[trigger] edits[b]).offset + edits[b].data.len() > 8192
                    && edited(page, edits.take(b)) == (now, None::<PageErrorV>) && e
                    == (PageErrorV::EditOutOfBounds {
                    offset: edits[b].offset as usize,
                    len: edits[b].data.len() as usize,
                })
        }),
    decreases edits.len(),
{
    let (now, bad) = edited(page, edits);
    if edits.len() > 0 {
        let e = edits[0];
        let rest = edits.skip(1);
        assert(forall|i: int| 0 <= i < rest.len() ==> #[trigger] rest[i] == edits[i + 1]);
        if e.offset + e.data.len() > 8192 {
            assert(edits.take(0).len() == 0);
            assert(edited(page, edits.take(0)) == (page, None::<PageErrorV>));
        } else {
            let mid = patched(page, e.offset as int, e.data);
            edits_set_their_bytes(mid, rest);
            assert forall|i: int| 1 <= i < edits.len() implies #[trigger] edits[i] == rest[i - 1] by {}
            if bad is None {
                assert forall|k: int|
                    0 <= k < 8192 && (forall|i: int|
                        0 <= i < edits.len() ==> !sets(#[trigger] edits[i], k)) implies #[trigger] now[k]
                    == page[k] by {
                    assert(!sets(edits[0], k));
                    assert(mid[k] == page[k]);
                    assert forall|i: int| 0 <= i < rest.len() implies !sets(#[trigger] rest[i], k) by {
                        assert(!sets(edits[i + 1], k));
                    }
                }
                assert forall|i: int, k: int|
                    0 <= i < edits.len() && sets(#[trigger] edits[i], k) && (forall|j: int|
                        i < j < edits.len() ==> !sets(#[trigger] edits[j], k)) implies #[trigger] now[k]
                    == edits[i].data[k - edits[i].offset] by {
                    if i == 0 {
                        assert(mid[k] == e.data[k - e.offset]);
                        assert forall|j: int| 0 <= j < rest.len() implies !sets(
                            #[trigger] rest[j],
                            k,
                        ) by {
                            assert(!sets(edits[j + 1], k));
                        }
                        assert(now[k] == mid[k]);
                    } else {
                        assert(rest[i - 1] == edits[i]);
                        assert forall|j: int| i - 1 < j < rest.len() implies !sets(
                            #[trigger] rest[j],
                            k,
                        ) by {
                            assert(!sets(edits[j + 1], k));
                        }
                    }
                }
            } else {
                let b = choose|b: int|
                    0 <= b < rest.len() && (#[trigger] rest[b]).offset + rest[b].data.len() > 8192
                        && edited(mid, rest.take(b)) == (now, None::<PageErrorV>) && bad == Some(
                        PageErrorV::EditOutOfBounds {
                            offset: rest[b].offset as usize,
                            len: rest[b].data.len() as usize,
                        },
                    );
                let t = edits.take(b + 1);
                assert(t[0] == e);
                assert(t.skip(1) =~= rest.take(b));
                assert(edits[b + 1] == rest[b]);
                assert(edited(page, t) == (now, None::<PageErrorV>));
            }
        }
    }
}

/// An image replaces the whole page; one that is not a page long is refused and changes
/// nothing.
pub proof fn images_replace_the_page(page: Seq<u8>, img: Seq<u8>)
    ensures
        img.len() == 8192 ==> applied(page, VersionV::Image(img)) == (img, None::<PageErrorV>),
        img.len() != 8192 ==> applied(page, VersionV::Image(img)) == (
            page,
            Some(PageErrorV::BadImageSize(img.len() as usize)),
        ),
{
}

proof fn lemma_longer_edits(buf: Seq<u8>, more: Seq<u8>, at: int, n: nat, seen: Seq<EditV>)
    requires
        0 <= at <= buf.len(),
        parse_edits(buf, at, n, seen) is Ok,
    ensures
        parse_edits(buf + more, at, n, seen) == parse_edits(buf, at, n, seen),
    decreases n,
{
    if n > 0 {
        lemma_behind(buf, more, at, 2);
        lemma_behind(buf, more, at + 2, 2);
        let len = be16(buf, at + 2) as int;
        lemma_behind(buf, more, at + 4, len);
        lemma_longer_edits(
            buf,
            more,
            at + 4 + len,
            (n - 1) as nat,
            seen.push(EditV { offset: be16(buf, at), data: buf.subrange(at + 4, at + 4 + len) }),
        );
    }
}

/// What follows a version does not change it, nor does what follows an address.
pub proof fn versions_end_where_they_say(buf: Seq<u8>, more: Seq<u8>, at: int)
    requires
        0 <= at,
    ensures
        parse_version(buf, at) is Ok ==> parse_version(buf + more, at) == parse_version(buf, at),
        parse_address(buf, at) is Ok ==> parse_address(buf + more, at) == parse_address(buf, at),
{
    if parse_version(buf, at) is Ok {
        assert((buf + more)[at] == buf[at]);
        if buf[at] == TAG_IMAGE {
            lemma_behind(buf, more, at + 1, PAGE_SIZE as int);
        } else {
            lemma_behind(buf, more, at + 1, 2);
            lemma_longer_edits(buf, more, at + 3, be16(buf, at + 1) as nat, Seq::empty());
        }
    }
    if parse_address(buf, at) is Ok {
        lemma_behind(buf, more, at, 4);
        lemma_behind(buf, more, at + 4, 4);
        lemma_behind(buf, more, at + 8, 4);
        lemma_behind(buf, more, at + 13, 4);
        lemma_behind(buf, more, at + 17, 8);
    }
}

/// What follows a modification does not change it.
pub proof fn modifications_end_where_they_say(buf: Seq<u8>, more: Seq<u8>)
    ensures
        parse_modification(buf) is Ok ==> parse_modification(buf + more) == parse_modification(buf),
{
    versions_end_where_they_say(buf, more, 0);
    versions_end_where_they_say(buf, more, ADDRESS_LEN as int);
}

} // verus!
