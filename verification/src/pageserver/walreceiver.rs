//! The WAL receiver: what to ask a safekeeper for, and what to make of its
//! answers.
//!
//! The receiver repeatedly asks for committed WAL from a cursor position on.
//! Each chunk is fed into a long-lived [`WalStreamDecoder`], so that records that
//! straddle chunks are stitched; each complete record is ingested.
//!
//! The cursor tracks how far WAL has been *fed*, not how far it has been
//! *decoded*: a partially received record stays in the decoder and completes
//! when the next chunk arrives. That is what makes arbitrary chunking safe.

use vstd::prelude::*;

use crate::common::ids::{TenantId, TimelineId};
use crate::common::lsn::Lsn;
use crate::common::wal_service::{ReadRequest, ReadResponse, ReadResponseV};
use crate::pageserver::repository::{record_ingested, stream_at, stream_ingested, RepoV};
use crate::pageserver::timeline::Timeline;
use crate::pageserver::waldecode::{
    lemma_polled, lemma_polled_extend, polled, Polled, StreamV, WalDecodeError, WalDecodeErrorV,
    WalStreamDecoder, XLOG_BLCKSZ,
};
use crate::pageserver::walredo::WalRedoManager;

verus! {

/// Maximum WAL bytes to request per round trip, unless told otherwise: 1 MiB.
pub const DEFAULT_MAX_CHUNK: u32 = 1048576;

/// Where a stream of WAL into a timeline stands.
pub struct WalCursor {
    tenant: TenantId,
    timeline: TimelineId,
    max_chunk: u32,
    cursor: Lsn,
    decoder: Option<WalStreamDecoder>,
}

/// What a [`WalCursor`] holds.
pub struct CursorV {
    pub tenant: TenantId,
    pub timeline: TimelineId,
    pub max_chunk: u32,
    /// The next position to request.
    pub cursor: Lsn,
    /// The WAL that was fed and not yet decoded, once there was any.
    pub stream: Option<StreamV>,
}

impl View for WalCursor {
    type V = CursorV;

    closed spec fn view(&self) -> CursorV {
        CursorV {
            tenant: self.tenant,
            timeline: self.timeline,
            max_chunk: self.max_chunk,
            cursor: self.cursor,
            stream: match self.decoder {
                Some(d) => Some(d@),
                None => None,
            },
        }
    }
}

/// The stream that a chunk is fed into: the one there is, where the chunk goes
/// on from the cursor; a fresh one at the chunk where there is none, or where
/// the safekeeper has moved past what it retains.
pub open spec fn feeding(v: CursorV, chunk: ReadResponseV) -> StreamV {
    match v.stream {
        Some(s) => if chunk.start_lsn == v.cursor {
            s.feed(chunk.payload)
        } else {
            stream_at(chunk.start_lsn, chunk.payload)
        },
        None => stream_at(chunk.start_lsn, chunk.payload),
    }
}

/// The cursor and the repository after a chunk, and how many records were
/// ingested or what was wrong. An empty chunk changes nothing: the receiver has
/// caught up.
pub open spec fn received(v: CursorV, repo: RepoV, chunk: ReadResponseV) -> (
    CursorV,
    RepoV,
    Result<nat, WalDecodeErrorV>,
) {
    if chunk.payload.len() == 0 {
        (v, repo, Ok(0))
    } else {
        let (w, rest, r) = stream_ingested(repo, feeding(v, chunk));
        (
            CursorV {
                cursor: Lsn((chunk.start_lsn.0 + chunk.payload.len()) as u64),
                stream: Some(rest),
                ..v
            },
            w,
            r,
        )
    }
}

impl WalCursor {
    /// What is held back in the decoder ends at the cursor.
    pub closed spec fn wf(self) -> bool {
        self.decoder matches Some(d) ==> d.wf() && d@.lsn + d@.buf.len() == self.cursor.0
    }

    /// Receive WAL of a timeline from `start_lsn` on.
    pub fn new(tenant: TenantId, timeline: TimelineId, start_lsn: Lsn, max_chunk: u32) -> (r:
        WalCursor)
        ensures
            r.wf(),
            r@ == (CursorV { tenant, timeline, max_chunk, cursor: start_lsn, stream: None }),
    {
        WalCursor { tenant, timeline, max_chunk, cursor: start_lsn, decoder: None }
    }

    /// The next position that will be requested.
    pub fn cursor(&self) -> (r: Lsn)
        ensures
            r == self@.cursor,
    {
        self.cursor
    }

    /// The next request to send.
    pub fn next_request(&self) -> (r: ReadRequest)
        ensures
            r == (ReadRequest {
                tenant: self@.tenant,
                timeline: self@.timeline,
                start_lsn: self@.cursor,
                max_bytes: self@.max_chunk,
            }),
    {
        ReadRequest {
            tenant: self.tenant,
            timeline: self.timeline,
            start_lsn: self.cursor,
            max_bytes: self.max_chunk,
        }
    }

    /// Take a chunk: feed it to the decoder and ingest every complete record
    /// into the timeline; their number.
    pub fn accept<R: WalRedoManager>(&mut self, timeline: &mut Timeline<R>, chunk: &ReadResponse) -> (r:
        Result<usize, WalDecodeError>)
        requires
            old(self).wf(),
            old(timeline).wf(),
            chunk@.start_lsn.0 + chunk@.payload.len() + XLOG_BLCKSZ <= u64::MAX,
        ensures
            final(self).wf(),
            final(timeline).wf(),
            final(timeline).same_place(*old(timeline)),
            ({
                let (c, repo, out) = received(old(self)@, old(timeline)@.repo, chunk@);
                &&& final(self)@ == c
                &&& final(timeline)@.repo == repo
                &&& match out {
                    Ok(n) => r matches Ok(x) && x == n,
                    Err(e) => r matches Err(x) && x@ == e,
                }
            }),
    {
        if chunk.payload.len() == 0 {
            return Ok(0);
        }
        let ghost was = self@;
        let mut held: Option<WalStreamDecoder> = None;
        std::mem::swap(&mut self.decoder, &mut held);
        let mut decoder = match held {
            Some(d) => if chunk.start_lsn == self.cursor {
                d
            } else {
                WalStreamDecoder::new(chunk.start_lsn)
            },
            None => WalStreamDecoder::new(chunk.start_lsn),
        };
        decoder.feed_bytes(chunk.payload.as_slice());
        proof {
            assert(Seq::<u8>::empty() + chunk@.payload =~= chunk@.payload);
            assert(decoder@ == feeding(was, chunk@));
        }
        self.cursor = Lsn(chunk.start_lsn.raw() + chunk.payload.len() as u64);
        let ghost fed = decoder@;
        let r = timeline.ingest_stream(&mut decoder);
        proof {
            lemma_stream_end(old(timeline)@.repo, fed);
        }
        self.decoder = Some(decoder);
        r
    }
}

/// What is left of a stream ends where the stream ended.
proof fn lemma_stream_end(v: RepoV, s: StreamV)
    ensures
        ({
            let rest = stream_ingested(v, s).1;
            rest.lsn + rest.buf.len() == s.lsn + s.buf.len()
        }),
    decreases s.buf.len(),
{
    lemma_polled(s);
    if let (Polled::Record(start, raw), rest) = polled(s) {
        if let Ok(w) = record_ingested(v, Lsn(start as u64), raw) {
            lemma_stream_end(w, rest);
        }
    }
}

/// Chunks add up: the records of a first chunk, ingested, followed by those that
/// come once the second chunk has arrived, leave the repository and the stream
/// as both chunks at once do. Where the first chunk ends in an error, both chunks at
/// once end in it too, and leave the second chunk where it is.
pub proof fn chunks_add_up(v: RepoV, s: StreamV, more: Seq<u8>)
    ensures
        ({
            let (w, rest, r) = stream_ingested(v, s);
            let (x, end, r2) = stream_ingested(w, rest.feed(more));
            stream_ingested(v, s.feed(more)) == match r {
                Ok(m) => (
                    x,
                    end,
                    match r2 {
                        Ok(n) => Ok::<nat, WalDecodeErrorV>(m + n),
                        Err(e) => Err(e),
                    },
                ),
                Err(e) => (w, rest.feed(more), Err(e)),
            }
        }),
    decreases s.buf.len(),
{
    lemma_polled(s);
    lemma_polled_extend(s, more);
    match polled(s) {
        (Polled::Need, rest) => {
            assert(stream_ingested(v, s.feed(more)) == stream_ingested(v, rest.feed(more)));
        },
        (Polled::BadMagic(m), rest) => {},
        (Polled::Record(start, raw), rest) => {
            if let Ok(w) = record_ingested(v, Lsn(start as u64), raw) {
                chunks_add_up(w, rest, more);
            }
        },
    }
}

/// A chunk moves the cursor behind its last byte and nothing else of whom and what is
/// asked for; an empty one moves nothing. What is held back ends at the cursor. A chunk
/// that goes on from the cursor is put behind what is held back, so that the next request
/// goes on where the last one ended; any other starts afresh at its own position.
pub proof fn chunks_move_the_cursor(v: CursorV, repo: RepoV, chunk: ReadResponseV)
    requires
        chunk.start_lsn.0 + chunk.payload.len() <= u64::MAX,
    ensures
        ({
            let (now, after, r) = received(v, repo, chunk);
            &&& now.tenant == v.tenant && now.timeline == v.timeline && now.max_chunk == v.max_chunk
            &&& chunk.payload.len() == 0 ==> now == v && after == repo && r == Ok::<
                nat,
                WalDecodeErrorV,
            >(0)
            &&& chunk.payload.len() > 0 ==> now.cursor.0 == chunk.start_lsn.0 + chunk.payload.len()
            &&& (chunk.payload.len() > 0 && (v.stream matches Some(s) ==> chunk.start_lsn == v.cursor
                ==> s.lsn + s.buf.len() == v.cursor.0)) ==> (now.stream matches Some(s) && s.lsn
                + s.buf.len() == now.cursor.0)
            &&& v.stream matches Some(s) ==> chunk.start_lsn == v.cursor ==> feeding(v, chunk).buf
                == s.buf + chunk.payload && feeding(v, chunk).lsn == s.lsn
            &&& v.stream is None || chunk.start_lsn != v.cursor ==> feeding(v, chunk).buf
                == chunk.payload && feeding(v, chunk).lsn == chunk.start_lsn.0
        }),
{
    if chunk.payload.len() > 0 {
        lemma_stream_end(repo, feeding(v, chunk));
    }
}

} // verus!
