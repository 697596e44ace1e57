//! A reference wal-redo process with toy semantics.
//!
//! It speaks the protocol of
//! [`walredo_proto`](crate::pageserver::walredo_proto), but each record is a
//! sequence of `[offset:u16][len:u16][data]` byte edits onto the base page.

use vstd::prelude::*;

use crate::bytes::{
    be16, be32, be_bytes, be_u16, be_u32, copy_bytes, lemma_be_bytes_len, lemma_pow256,
    lemma_stands_number, lemma_stands_split, stands_at,
};
use crate::common::lsn::Lsn;
use crate::common::page::PAGE_SIZE;
use crate::pageserver::page::{
    edit_bytes, edited, edits_bytes, patched, EditV, PageErrorV,
};
use crate::pageserver::waldecode::zeros;
use crate::pageserver::walredo_proto::{
    base_bytes, lemma_redo_head, redo_head_bytes, redo_record_bytes, redo_records_bytes,
    redo_records_view, redo_request_bytes, RedoRequest, RedoRequestV, RedoResponse, RedoResponseV,
    FLAG_HAS_BASE,
};
use crate::text::copy_str;

verus! {

/// The page after the edits of a record from `at` on. An edit that runs past the
/// record ends it; one that runs past the page is skipped.
pub open spec fn toy_edited(page: Seq<u8>, rec: Seq<u8>, at: int) -> Seq<u8>
    decreases rec.len() - at,
{
    if at < 0 || at + 4 > rec.len() {
        page
    } else {
        let off = be16(rec, at) as int;
        let len = be16(rec, at + 2) as int;
        if at + 4 + len > rec.len() {
            page
        } else {
            let now = if off + len <= page.len() {
                patched(page, off, rec.subrange(at + 4, at + 4 + len))
            } else {
                page
            };
            toy_edited(now, rec, at + 4 + len)
        }
    }
}

/// The page after the records, in order.
pub open spec fn toy_replayed(page: Seq<u8>, records: Seq<(Lsn, Seq<u8>)>) -> Seq<u8>
    decreases records.len(),
{
    if records.len() == 0 {
        page
    } else {
        toy_edited(toy_replayed(page, records.drop_last()), records.last().1, 0)
    }
}

/// The reply to a request.
pub open spec fn toy_reply_to(req: RedoRequestV, fail: bool) -> RedoResponseV {
    if fail {
        RedoResponseV::Error("forced failure (mock --fail)"@)
    } else {
        RedoResponseV::Page(
            toy_replayed(
                match req.base_image {
                    Some(b) => b,
                    None => zeros(PAGE_SIZE as int),
                },
                req.records,
            ),
        )
    }
}

/// Apply toy edits onto `page`.
pub fn apply_toy_edits(page: &mut Vec<u8>, rec: &[u8])
    ensures
        final(page)@ == toy_edited(old(page)@, rec@, 0),
{
    let mut i: usize = 0;
    assert(rec.len() == rec@.len());
    while rec.len() - i >= 4
        invariant
            i <= rec@.len(),
            rec@.len() <= usize::MAX,
            toy_edited(page@, rec@, i as int) == toy_edited(old(page)@, rec@, 0),
        decreases rec@.len() - i,
    {
        let off: usize = be_u16(rec, i) as usize;
        let len: usize = be_u16(rec, i + 2) as usize;
        if rec.len() - i - 4 < len {
            return ;
        }
        if off <= page.len() && len <= page.len() - off {
            let ghost before = page@;
            let mut k: usize = 0;
            while k < len
                invariant
                    k <= len,
                    i + 4 + len <= rec@.len(),
                    rec@.len() <= usize::MAX,
                    page@.len() == before.len(),
                    off + len <= page@.len(),
                    page@.len() <= usize::MAX,
                    forall|j: int|
                        0 <= j < page@.len() ==> page@[j] == (if off <= j < off + k {
                            rec@[i + 4 + (j - off)]
                        } else {
                            before[j]
                        }),
                decreases len - k,
            {
                page.set(off + k, rec[i + 4 + k]);
                k += 1;
            }
            assert(page@ =~= patched(before, off as int, rec@.subrange(i + 4, i + 4 + len)));
        }
        i = i + 4 + len;
    }
}

/// The reply to a request; with `fail`, always an error.
pub fn toy_reply(req: &RedoRequest, fail: bool) -> (r: RedoResponse)
    ensures
        r@ == toy_reply_to(req@, fail),
{
    if fail {
        return RedoResponse::Error(copy_str("forced failure (mock --fail)"));
    }
    let mut page: Vec<u8> = match &req.base_image {
        Some(b) => copy_bytes(b.as_slice()),
        None => {
            let z: Vec<u8> = vec![0u8; PAGE_SIZE];
            assert(z@ =~= zeros(PAGE_SIZE as int));
            z
        },
    };
    let ghost start = page@;
    let ghost all = req@.records;
    let mut i: usize = 0;
    assert(all.take(0) =~= Seq::empty());
    while i < req.records.len()
        invariant
            i <= req.records@.len(),
            all == redo_records_view(req.records@),
            page@ == toy_replayed(start, all.take(i as int)),
        decreases req.records@.len() - i,
    {
        proof {
            assert(all.take(i + 1).drop_last() =~= all.take(i as int));
            assert(all.take(i + 1).last().1 == req.records@[i as int].1@);
        }
        apply_toy_edits(&mut page, req.records[i].1.as_slice());
        i += 1;
    }
    assert(all.take(i as int) =~= all);
    RedoResponse::Page(page)
}

/// How many bytes are missing to the records from `at` on, `n` of them to come,
/// as far as can be told.
pub open spec fn missing_records(buf: Seq<u8>, at: int, n: nat) -> int
    decreases n,
{
    if n == 0 {
        0
    } else if at + 12 > buf.len() {
        at + 12 - buf.len()
    } else {
        let end = at + 12 + be32(buf, at + 8);
        if end > buf.len() {
            end - buf.len()
        } else {
            missing_records(buf, end, (n - 1) as nat)
        }
    }
}

/// Where the record count of a request stands.
pub open spec fn count_at(flags: u8) -> int {
    if flags & FLAG_HAS_BASE != 0 {
        28 + PAGE_SIZE
    } else {
        28
    }
}

/// How many bytes are missing to a whole request, as far as can be told from
/// those that are there; 0 where it is whole.
pub open spec fn missing_bytes(buf: Seq<u8>) -> int {
    if buf.len() < 28 {
        28 - buf.len()
    } else {
        let c = count_at(buf[5]);
        if buf.len() < c + 4 {
            c + 4 - buf.len()
        } else {
            missing_records(buf, c + 4, be32(buf, c) as nat)
        }
    }
}

/// How many bytes to read next for a whole request; 0 where it is whole.
pub fn redo_frame_missing(buf: &[u8]) -> (r: usize)
    requires
        buf@.len() + 0x1_0000_0010 <= usize::MAX,
    ensures
        r == missing_bytes(buf@),
{
    if buf.len() < 28 {
        return 28 - buf.len();
    }
    let c: usize = if buf[5] & FLAG_HAS_BASE != 0 {
        28 + PAGE_SIZE
    } else {
        28
    };
    if buf.len() < c + 4 {
        return c + 4 - buf.len();
    }
    let n: u32 = be_u32(buf, c);
    let mut at: usize = c + 4;
    let mut left: u32 = n;
    while left > 0
        invariant
            buf@.len() + 0x1_0000_0010 <= usize::MAX,
            buf@.len() >= 28,
            c == count_at(buf@[5]),
            buf@.len() >= c + 4,
            n == be32(buf@, c as int),
            at <= buf@.len(),
            missing_records(buf@, at as int, left as nat) == missing_bytes(buf@),
        decreases left,
    {
        if buf.len() - at < 12 {
            return at + 12 - buf.len();
        }
        let end: usize = at + 12 + be_u32(buf, at + 8) as usize;
        if end > buf.len() {
            return end - buf.len();
        }
        at = end;
        left -= 1;
    }
    0
}

proof fn lemma_missing_records(buf: Seq<u8>, at: int, s: Seq<(Lsn, Seq<u8>)>, n: nat)
    requires
        s.len() <= n,
        forall|i: int| 0 <= i < s.len() ==> (#[trigger] s[i]).1.len() < 0x1_0000_0000,
        stands_at(buf, at, redo_records_bytes(s)),
    ensures
        missing_records(buf, at, n) == missing_records(
            buf,
            at + redo_records_bytes(s).len(),
            (n - s.len()) as nat,
        ),
    decreases s.len(),
{
    if s.len() > 0 {
        let before = s.drop_last();
        let r = s.last();
        let mid = at + redo_records_bytes(before).len();
        lemma_stands_split(buf, at, redo_records_bytes(before), redo_record_bytes(r));
        assert forall|i: int| 0 <= i < before.len() implies (#[trigger] before[i]).1.len()
            < 0x1_0000_0000 by {
            assert(before[i] == s[i]);
        }
        lemma_missing_records(buf, at, before, n);
        assert(s[s.len() - 1].1.len() < 0x1_0000_0000);
        let a = be_bytes(r.0.0 as nat, 8);
        let b = be_bytes(r.1.len() % 0x1_0000_0000, 4);
        lemma_be_bytes_len(r.0.0 as nat, 8);
        lemma_be_bytes_len(r.1.len() % 0x1_0000_0000, 4);
        lemma_pow256();
        lemma_stands_split(buf, mid, a + b, r.1);
        lemma_stands_split(buf, mid, a, b);
        lemma_stands_number(buf, mid + 8, r.1.len() % 0x1_0000_0000, 4);
    }
}

/// The wire form of a request, read up to the point at which nothing is missing,
/// is read whole.
pub proof fn written_requests_are_whole(r: RedoRequestV)
    requires
        r.base_image matches Some(i) ==> i.len() == PAGE_SIZE,
        r.records.len() < 0x1_0000_0000,
        forall|i: int| 0 <= i < r.records.len() ==> (#[trigger] r.records[i]).1.len() < 0x1_0000_0000,
    ensures
        missing_bytes(redo_request_bytes(r)) == 0,
{
    let buf = redo_request_bytes(r);
    let h = redo_head_bytes(r);
    let i = base_bytes(r.base_image);
    let n = be_bytes(r.records.len() % 0x1_0000_0000, 4);
    let recs = redo_records_bytes(r.records);
    assert(buf.subrange(0, buf.len() as int) =~= buf);
    assert(stands_at(buf, 0, buf));
    lemma_be_bytes_len(r.records.len() % 0x1_0000_0000, 4);
    lemma_pow256();
    lemma_stands_split(buf, 0, h + i + n, recs);
    lemma_stands_split(buf, 0, h + i, n);
    lemma_stands_split(buf, 0, h, i);
    lemma_redo_head(buf, r);
    assert(1u8 & 1u8 != 0) by (bit_vector);
    assert(0u8 & 1u8 == 0) by (bit_vector);
    let at: int = 28 + i.len() as int;
    lemma_stands_number(buf, at, r.records.len() % 0x1_0000_0000, 4);
    lemma_missing_records(buf, at + 4, r.records, r.records.len());
}

/// The records of a request that ends inside them: something is missing, and no more than
/// the rest of them.
proof fn lemma_missing_cut(buf: Seq<u8>, cut: int, at: int, s: Seq<(Lsn, Seq<u8>)>, n: nat)
    requires
        0 <= at <= cut < at + redo_records_bytes(s).len(),
        s.len() <= n,
        forall|i: int| 0 <= i < s.len() ==> (#[trigger] s[i]).1.len() < 0x1_0000_0000,
        stands_at(buf, at, redo_records_bytes(s)),
    ensures
        0 < missing_records(buf.take(cut), at, n) <= at + redo_records_bytes(s).len() - cut,
    decreases s.len(),
{
    let before = s.drop_last();
    let r = s.last();
    let mid = at + redo_records_bytes(before).len();
    lemma_stands_split(buf, at, redo_records_bytes(before), redo_record_bytes(r));
    assert forall|i: int| 0 <= i < before.len() implies (#[trigger] before[i]).1.len()
        < 0x1_0000_0000 by {
        assert(before[i] == s[i]);
    }
    assert(s[s.len() - 1].1.len() < 0x1_0000_0000);
    let a = be_bytes(r.0.0 as nat, 8);
    let b = be_bytes(r.1.len() % 0x1_0000_0000, 4);
    lemma_be_bytes_len(r.0.0 as nat, 8);
    lemma_be_bytes_len(r.1.len() % 0x1_0000_0000, 4);
    if cut < mid {
        lemma_missing_cut(buf, cut, at, before, n);
    } else {
        let c = buf.take(cut);
        assert(c.subrange(at, mid) =~= buf.subrange(at, mid));
        lemma_missing_records(c, at, before, n);
        lemma_pow256();
        lemma_stands_split(buf, mid, a + b, r.1);
        lemma_stands_split(buf, mid, a, b);
        lemma_stands_number(buf, mid + 8, r.1.len() % 0x1_0000_0000, 4);
        if mid + 12 <= cut {
            assert(c.subrange(mid + 8, mid + 12) =~= buf.subrange(mid + 8, mid + 12));
        }
    }
}

/// While the wire form of a request is not there whole, more bytes are asked for, and
/// never more than the request has.
pub proof fn cut_requests_ask_for_the_rest(r: RedoRequestV, cut: int)
    requires
        r.base_image matches Some(i) ==> i.len() == PAGE_SIZE,
        r.records.len() < 0x1_0000_0000,
        forall|i: int| 0 <= i < r.records.len() ==> (#[trigger] r.records[i]).1.len() < 0x1_0000_0000,
        0 <= cut < redo_request_bytes(r).len(),
    ensures
        0 < missing_bytes(redo_request_bytes(r).take(cut)) <= redo_request_bytes(r).len() - cut,
{
    let buf = redo_request_bytes(r);
    let c = buf.take(cut);
    let h = redo_head_bytes(r);
    let i = base_bytes(r.base_image);
    let n = be_bytes(r.records.len() % 0x1_0000_0000, 4);
    let recs = redo_records_bytes(r.records);
    assert(buf.subrange(0, buf.len() as int) =~= buf);
    assert(stands_at(buf, 0, buf));
    lemma_be_bytes_len(r.records.len() % 0x1_0000_0000, 4);
    lemma_pow256();
    lemma_stands_split(buf, 0, h + i + n, recs);
    lemma_stands_split(buf, 0, h + i, n);
    lemma_stands_split(buf, 0, h, i);
    lemma_redo_head(buf, r);
    assert(1u8 & 1u8 != 0) by (bit_vector);
    assert(0u8 & 1u8 == 0) by (bit_vector);
    let at: int = 28 + i.len() as int;
    lemma_stands_number(buf, at, r.records.len() % 0x1_0000_0000, 4);
    if cut >= at + 4 {
        assert(c.subrange(at, at + 4) =~= buf.subrange(at, at + 4));
        lemma_missing_cut(buf, cut, at + 4, r.records, r.records.len());
    }
}

/// The edits that stay on the page.
pub open spec fn on_page(edits: Seq<EditV>) -> Seq<EditV> {
    edits.filter(|e: EditV| e.offset + e.data.len() <= 8192)
}

/// One edit more behind edits that stay on the page.
proof fn lemma_edited_push(page: Seq<u8>, edits: Seq<EditV>, e: EditV)
    requires
        page.len() == 8192,
        edited(page, edits).1 is None,
        e.offset + e.data.len() <= 8192,
    ensures
        edited(page, edits.push(e)) == (
            patched(edited(page, edits).0, e.offset as int, e.data),
            None::<PageErrorV>,
        ),
        edited(page, edits).0.len() == 8192,
    decreases edits.len(),
{
    let all = edits.push(e);
    if edits.len() == 0 {
        assert(all.skip(1) =~= Seq::empty());
        assert(edited(patched(page, e.offset as int, e.data), all.skip(1)) == (
            patched(page, e.offset as int, e.data),
            None::<PageErrorV>,
        ));
    } else {
        let mid = patched(page, edits[0].offset as int, edits[0].data);
        lemma_edited_push(mid, edits.skip(1), e);
        assert(all[0] == edits[0]);
        assert(all.skip(1) =~= edits.skip(1).push(e));
    }
}

/// Whole edits that stand in a record are made one after the other.
proof fn lemma_toy_edits(page: Seq<u8>, rec: Seq<u8>, edits: Seq<EditV>)
    requires
        page.len() == 8192,
        forall|i: int| 0 <= i < edits.len() ==> (#[trigger] edits[i]).data.len() < 0x1_0000,
        stands_at(rec, 0, edits_bytes(edits)),
    ensures
        edited(page, on_page(edits)).1 is None,
        edited(page, on_page(edits)).0.len() == 8192,
        toy_edited(page, rec, 0) == toy_edited(
            edited(page, on_page(edits)).0,
            rec,
            edits_bytes(edits).len() as int,
        ),
    decreases edits.len(),
{
    reveal(Seq::filter);
    if edits.len() > 0 {
        let before = edits.drop_last();
        let e = edits.last();
        let mid = edits_bytes(before).len() as int;
        lemma_stands_split(rec, 0, edits_bytes(before), edit_bytes(e));
        assert forall|i: int| 0 <= i < before.len() implies (#[trigger] before[i]).data.len()
            < 0x1_0000 by {
            assert(before[i] == edits[i]);
        }
        lemma_toy_edits(page, rec, before);
        assert(edits[edits.len() - 1].data.len() < 0x1_0000);
        let a = be_bytes(e.offset as nat, 2);
        let b = be_bytes(e.data.len() % 0x1_0000, 2);
        lemma_be_bytes_len(e.offset as nat, 2);
        lemma_be_bytes_len(e.data.len() % 0x1_0000, 2);
        lemma_pow256();
        lemma_stands_split(rec, mid, a + b, e.data);
        lemma_stands_split(rec, mid, a, b);
        lemma_stands_number(rec, mid, e.offset as nat, 2);
        lemma_stands_number(rec, mid + 2, e.data.len() % 0x1_0000, 2);
        assert(rec.subrange(mid + 4, mid + 4 + e.data.len()) =~= e.data);
        if e.offset + e.data.len() <= 8192 {
            lemma_edited_push(page, on_page(before), e);
        }
    }
}

/// A record is a list of edits and does what a delta of those edits does that stay on the
/// page. What stands behind the last whole edit does nothing.
pub proof fn toy_records_do_what_deltas_do(page: Seq<u8>, edits: Seq<EditV>, tail: Seq<u8>)
    requires
        page.len() == 8192,
        forall|i: int| 0 <= i < edits.len() ==> (#[trigger] edits[i]).data.len() < 0x1_0000,
        tail.len() < 4 || 4 + be16(tail, 2) > tail.len(),
    ensures
        toy_edited(page, edits_bytes(edits) + tail, 0) == edited(page, on_page(edits)).0,
{
    let rec = edits_bytes(edits) + tail;
    let at = edits_bytes(edits).len() as int;
    assert(rec.subrange(0, at) =~= edits_bytes(edits));
    lemma_toy_edits(page, rec, edits);
    if tail.len() >= 4 {
        assert(rec.subrange(at + 2, at + 4) =~= tail.subrange(2, 4));
    }
}

/// The edits of several records, one behind the other.
pub open spec fn edits_of(records: Seq<Seq<EditV>>) -> Seq<EditV>
    decreases records.len(),
{
    if records.len() == 0 {
        Seq::empty()
    } else {
        edits_of(records.drop_last()) + on_page(records.last())
    }
}

/// Edits behind edits that stay on the page.
proof fn lemma_edited_concat(page: Seq<u8>, a: Seq<EditV>, b: Seq<EditV>)
    requires
        edited(page, a).1 is None,
    ensures
        edited(page, a + b) == edited(edited(page, a).0, b),
    decreases a.len(),
{
    if a.len() == 0 {
        assert(a + b =~= b);
    } else {
        lemma_edited_concat(patched(page, a[0].offset as int, a[0].data), a.skip(1), b);
        assert((a + b)[0] == a[0]);
        assert((a + b).skip(1) =~= a.skip(1) + b);
    }
}

proof fn lemma_toy_replayed(page: Seq<u8>, records: Seq<(Lsn, Seq<u8>)>, edits: Seq<Seq<EditV>>)
    requires
        page.len() == 8192,
        edits.len() == records.len(),
        forall|i: int| #![trigger edits[i]]
            0 <= i < edits.len() ==> records[i].1 == edits_bytes(edits[i]) && forall|j: int|
                0 <= j < edits[i].len() ==> (#[trigger] edits[i][j]).data.len() < 0x1_0000,
    ensures
        edited(page, edits_of(edits)).1 is None,
        edited(page, edits_of(edits)).0.len() == 8192,
        toy_replayed(page, records) == edited(page, edits_of(edits)).0,
    decreases records.len(),
{
    if records.len() > 0 {
        let e = edits.drop_last();
        let r = records.drop_last();
        assert forall|i: int| #![trigger e[i]] 0 <= i < e.len() implies r[i].1 == edits_bytes(e[i])
            && forall|j: int| 0 <= j < e[i].len() ==> (#[trigger] e[i][j]).data.len() < 0x1_0000 by {
            assert(e[i] == edits[i]);
        }
        lemma_toy_replayed(page, r, e);
        let last = edits[edits.len() - 1];
        let rec = records.last().1;
        let before = toy_replayed(page, r);
        assert(rec + Seq::<u8>::empty() =~= rec);
        toy_records_do_what_deltas_do(before, last, Seq::empty());
        assert(rec.subrange(0, rec.len() as int) =~= rec);
        lemma_toy_edits(before, rec, last);
        lemma_edited_concat(page, edits_of(e), on_page(last));
    }
}

/// The reply to a request is the page that the edits of its records, in order, make of
/// the base image, or of a page of zeros where the request has none; when told to fail,
/// the reply is always an error.
pub proof fn toy_replies_are_the_edited_page(req: RedoRequestV, edits: Seq<Seq<EditV>>)
    requires
        req.base_image matches Some(b) ==> b.len() == 8192,
        edits.len() == req.records.len(),
        forall|i: int| #![trigger edits[i]]
            0 <= i < edits.len() ==> req.records[i].1 == edits_bytes(edits[i]) && forall|j: int|
                0 <= j < edits[i].len() ==> (#[trigger] edits[i][j]).data.len() < 0x1_0000,
    ensures
        toy_reply_to(req, false) == RedoResponseV::Page(
            edited(
                match req.base_image {
                    Some(b) => b,
                    None => Seq::new(8192, |i: int| 0u8),
                },
                edits_of(edits),
            ).0,
        ),
        toy_reply_to(req, true) is Error,
{
    let page = match req.base_image {
        Some(b) => b,
        None => Seq::new(8192, |i: int| 0u8),
    };
    lemma_toy_replayed(page, req.records, edits);
    assert(zeros(PAGE_SIZE as int) =~= Seq::new(8192, |i: int| 0u8));
}

} // verus!
