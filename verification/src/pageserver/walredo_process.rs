//! Driving a wal-redo process: what to send it and what to make of its answers.
//!
//! Raw WAL records can only be applied by PostgreSQL's redo routines, in a child
//! process that speaks the protocol of
//! [`walredo_proto`](crate::pageserver::walredo_proto). A [`RedoSession`] walks
//! a page's history from its last base: it applies images and byte edits itself,
//! and batches consecutive raw WAL records into one request, with the page so
//! far as the base. Whoever runs the process sends each request and hands the
//! page that comes back to [`RedoSession::resume`].

use vstd::prelude::*;

use crate::bytes::{be32, be_u32, copy_bytes};
use crate::common::lsn::Lsn;
use crate::common::page::{PageKey, RelTag, PAGE_SIZE};
use crate::pageserver::lsnmap::refs_view;
use crate::pageserver::page::{applied, is_base_version, PageVersion, VersionV};
use crate::pageserver::waldecode::zeros;
use crate::pageserver::walredo::{
    last_base, lemma_last_base, lemma_last_base_at, natively, replayed, RedoError, RedoErrorV,
};
use crate::pageserver::walredo_proto::{
    redo_records_view, RedoRequest, RedoRequestV, RESP_HEADER_LEN, RESP_MAGIC, STATUS_ERR,
    STATUS_OK, VERSION,
};
use crate::text::{
    copy_str, decimal, hex_fixed, push_decimal, push_hex_fixed, read_text, text_lossy,
};

verus! {

/// A page on its way through its history.
pub struct RedoSession<'a> {
    rel: RelTag,
    blkno: u32,
    versions: &'a [(Lsn, &'a PageVersion)],
    next: usize,
    page: Vec<u8>,
    have_base: bool,
    pending: Vec<(Lsn, Vec<u8>)>,
}

/// What a [`RedoSession`] holds.
pub struct SessionV {
    pub rel: RelTag,
    pub blkno: u32,
    /// The versions still to come.
    pub rest: Seq<(Lsn, VersionV)>,
    /// The page so far.
    pub page: Seq<u8>,
    /// Whether the page so far is more than the zeros it started as.
    pub have_base: bool,
    /// The records not yet sent.
    pub pending: Seq<(Lsn, Seq<u8>)>,
}

/// What a session wants next.
pub enum RedoStep {
    /// Send this request, and hand back the page.
    Send(RedoRequest),
    /// The page is rebuilt.
    Done(Vec<u8>),
    /// A version cannot be applied.
    Failed(RedoError),
}

/// What a [`RedoStep`] says.
pub enum RedoStepV {
    Send(RedoRequestV),
    Done(Seq<u8>),
    Failed(RedoErrorV),
}

impl View for RedoStep {
    type V = RedoStepV;

    open spec fn view(&self) -> RedoStepV {
        match *self {
            RedoStep::Send(r) => RedoStepV::Send(r@),
            RedoStep::Done(p) => RedoStepV::Done(p@),
            RedoStep::Failed(e) => RedoStepV::Failed(e@),
        }
    }
}

impl<'a> View for RedoSession<'a> {
    type V = SessionV;

    closed spec fn view(&self) -> SessionV {
        SessionV {
            rel: self.rel,
            blkno: self.blkno,
            rest: refs_view(self.versions@).skip(self.next as int),
            page: self.page@,
            have_base: self.have_base,
            pending: redo_records_view(self.pending@),
        }
    }
}

/// The request for the records not yet sent.
pub open spec fn request_of(v: SessionV) -> RedoRequestV {
    RedoRequestV {
        rel: v.rel,
        blkno: v.blkno,
        base_image: if v.have_base {
            Some(v.page)
        } else {
            None
        },
        records: v.pending,
    }
}

/// What a session wants next, and the session then. Records are held back; an
/// image or a delta, or the end, has them sent first.
pub open spec fn advanced(v: SessionV) -> (RedoStepV, SessionV)
    decreases v.rest.len(),
{
    if v.rest.len() == 0 {
        if v.pending.len() == 0 {
            (RedoStepV::Done(v.page), v)
        } else {
            (RedoStepV::Send(request_of(v)), v)
        }
    } else {
        match v.rest[0].1 {
            VersionV::WalRecord { will_init, rec } => advanced(
                SessionV {
                    rest: v.rest.skip(1),
                    pending: v.pending.push((v.rest[0].0, rec)),
                    ..v
                },
            ),
            x => if v.pending.len() > 0 {
                (RedoStepV::Send(request_of(v)), v)
            } else {
                match applied(v.page, x) {
                    (_, Some(e)) => (RedoStepV::Failed(RedoErrorV::Apply(e)), v),
                    (page, None) => advanced(
                        SessionV { rest: v.rest.skip(1), page, have_base: true, ..v },
                    ),
                }
            },
        }
    }
}

/// The session once the process has answered with `page`.
pub open spec fn resumed(v: SessionV, page: Seq<u8>) -> SessionV {
    SessionV { page, have_base: true, pending: Seq::empty(), ..v }
}

/// The session at the last base of a history.
pub open spec fn started(key: PageKey, s: Seq<(Lsn, VersionV)>) -> SessionV {
    SessionV {
        rel: key.rel,
        blkno: key.block,
        rest: s.skip(last_base(s)),
        page: zeros(PAGE_SIZE as int),
        have_base: false,
        pending: Seq::empty(),
    }
}

fn copy_records(r: &Vec<(Lsn, Vec<u8>)>) -> (out: Vec<(Lsn, Vec<u8>)>)
    ensures
        redo_records_view(out@) == redo_records_view(r@),
{
    let mut out: Vec<(Lsn, Vec<u8>)> = Vec::new();
    let mut i: usize = 0;
    while i < r.len()
        invariant
            i <= r@.len(),
            out@.len() == i,
            forall|j: int| 0 <= j < i ==> (#[trigger] out@[j]).0 == r@[j].0 && out@[j].1@ == r@[j].1@,
        decreases r@.len() - i,
    {
        out.push((r[i].0, copy_bytes(r[i].1.as_slice())));
        i += 1;
    }
    assert(redo_records_view(out@) =~= redo_records_view(r@));
    out
}

impl<'a> RedoSession<'a> {
    /// The page so far is one page long.
    pub closed spec fn wf(self) -> bool {
        self.next <= self.versions@.len() && self.page@.len() == PAGE_SIZE
    }

    /// Start at the last base of the history; `None` where there is none: the
    /// page does not exist.
    pub fn start(key: PageKey, versions: &'a [(Lsn, &'a PageVersion)]) -> (r: Option<
        RedoSession<'a>,
    >)
        ensures
            match r {
                Some(x) => last_base(refs_view(versions@)) >= 0 && x.wf() && x@ == started(
                    key,
                    refs_view(versions@),
                ),
                None => last_base(refs_view(versions@)) < 0,
            },
    {
        let ghost s = refs_view(versions@);
        let mut i: usize = versions.len();
        while i > 0 && !versions[i - 1].1.is_base()
            invariant
                i <= versions@.len(),
                s == refs_view(versions@),
                forall|j: int| i <= j < s.len() ==> !is_base_version((#[trigger] s[j]).1),
            decreases i,
        {
            assert(s[i - 1].1 == versions@[i - 1].1@);
            i -= 1;
        }
        if i == 0 {
            proof {
                lemma_last_base_at(s, -1);
            }
            return None;
        }
        assert(s[i - 1].1 == versions@[i - 1].1@);
        proof {
            lemma_last_base_at(s, i - 1);
        }
        let page: Vec<u8> = vec![0u8; PAGE_SIZE];
        assert(page@ =~= zeros(PAGE_SIZE as int));
        let r = RedoSession {
            rel: key.rel,
            blkno: key.block,
            versions,
            next: i - 1,
            page,
            have_base: false,
            pending: Vec::new(),
        };
        assert(redo_records_view(r.pending@) =~= Seq::empty());
        Some(r)
    }

    /// Go on through the history until there is something to send or the page is
    /// rebuilt. After a failure the session is of no further use.
    pub fn step(&mut self) -> (r: RedoStep)
        requires
            old(self).wf(),
        ensures
            r@ == advanced(old(self)@).0,
            !(r is Failed) ==> final(self).wf() && final(self)@ == advanced(old(self)@).1,
    {
        while self.next < self.versions.len()
            invariant
                self.wf(),
                advanced(self@) == advanced(old(self)@),
            decreases self.versions@.len() - self.next,
        {
            let (lsn, v) = self.versions[self.next];
            let ghost before = self@;
            let ghost all = refs_view(self.versions@);
            assert(before.rest[0] == (lsn, v@));
            assert(before.rest.skip(1) =~= all.skip(self.next + 1));
            match v {
                PageVersion::WalRecord(w) => {
                    let rec = copy_bytes(w.rec.as_slice());
                    self.pending.push((lsn, rec));
                    self.next = self.next + 1;
                    assert(self@.pending =~= before.pending.push((lsn, w.rec@)));
                },
                _ => {
                    if self.pending.len() > 0 {
                        return RedoStep::Send(self.request());
                    }
                    match v.apply_to(self.page.as_mut_slice()) {
                        Ok(()) => {},
                        Err(e) => {
                            return RedoStep::Failed(RedoError::Apply(e));
                        },
                    }
                    self.have_base = true;
                    self.next = self.next + 1;
                },
            }
        }
        if self.pending.len() > 0 {
            return RedoStep::Send(self.request());
        }
        RedoStep::Done(copy_bytes(self.page.as_slice()))
    }

    fn request(&self) -> (r: RedoRequest)
        ensures
            r@ == request_of(self@),
    {
        let base_image = if self.have_base {
            Some(copy_bytes(self.page.as_slice()))
        } else {
            None
        };
        RedoRequest {
            rel: self.rel,
            blkno: self.blkno,
            base_image,
            records: copy_records(&self.pending),
        }
    }

    /// Take the page that the process made of the last request.
    pub fn resume(&mut self, page: Vec<u8>)
        requires
            old(self).wf(),
            page@.len() == PAGE_SIZE,
        ensures
            final(self).wf(),
            final(self)@ == resumed(old(self)@, page@),
    {
        self.page = page;
        self.have_base = true;
        self.pending = Vec::new();
        assert(redo_records_view(self.pending@) =~= Seq::empty());
    }
}

/// What follows the header of a reply.
#[derive(Debug, Clone, Copy, PartialEq, Eq, Structural)]
pub enum RedoReply {
    /// A page.
    Page,
    /// An error message: four bytes of length, and the bytes.
    Error,
}

/// What a reply's header says, or what is wrong with it.
pub open spec fn reply_kind(header: Seq<u8>) -> Result<RedoReply, Seq<char>> {
    if be32(header, 0) != RESP_MAGIC {
        Err("bad response magic 0x"@ + hex_fixed(be32(header, 0) as nat, 8))
    } else if header[4] != VERSION {
        Err("bad response version "@ + decimal(header[4] as nat))
    } else if header[5] == STATUS_OK {
        Ok(RedoReply::Page)
    } else if header[5] == STATUS_ERR {
        Ok(RedoReply::Error)
    } else {
        Err("unknown response status "@ + decimal(header[5] as nat))
    }
}

/// Read the header of a reply.
pub fn check_reply_header(header: &[u8]) -> (r: Result<RedoReply, RedoError>)
    requires
        header@.len() == RESP_HEADER_LEN,
    ensures
        match reply_kind(header@) {
            Ok(k) => r == Ok::<RedoReply, RedoError>(k),
            Err(m) => r matches Err(e) && e@ == RedoErrorV::Process(m),
        },
{
    let magic: u32 = be_u32(header, 0);
    if magic != RESP_MAGIC {
        let mut m = copy_str("bad response magic 0x");
        push_hex_fixed(&mut m, magic as u64, 8);
        return Err(RedoError::Process(m));
    }
    if header[4] != VERSION {
        let mut m = copy_str("bad response version ");
        push_decimal(&mut m, header[4] as u64);
        return Err(RedoError::Process(m));
    }
    if header[5] == STATUS_OK {
        Ok(RedoReply::Page)
    } else if header[5] == STATUS_ERR {
        Ok(RedoReply::Error)
    } else {
        let mut m = copy_str("unknown response status ");
        push_decimal(&mut m, header[5] as u64);
        Err(RedoError::Process(m))
    }
}

/// The error that an error message amounts to.
pub fn reported_failure(msg: &[u8]) -> (e: RedoError)
    ensures
        e@ == RedoErrorV::RedoFailed(read_text(msg@)),
{
    RedoError::RedoFailed(text_lossy(msg))
}

/// What to do after a failed exchange with the process.
#[derive(Debug, Clone, Copy, PartialEq, Eq, Structural)]
pub enum Recovery {
    /// Report the failure; the process is in order.
    Report,
    /// End the process, start another and try again.
    Restart,
    /// End the process and report the failure.
    GiveUp,
}

/// A failure that the process reported is final. Any other has the process
/// replaced, and the first is tried again.
pub open spec fn recovery(attempt: u32, e: RedoErrorV) -> Recovery {
    match e {
        RedoErrorV::RedoFailed(_) => Recovery::Report,
        _ => if attempt == 0 {
            Recovery::Restart
        } else {
            Recovery::GiveUp
        },
    }
}

/// What to do after exchange number `attempt`, counted from 0, failed.
pub fn after_failure(attempt: u32, e: &RedoError) -> (r: Recovery)
    ensures
        r == recovery(attempt, e@),
{
    match e {
        RedoError::RedoFailed(_) => Recovery::Report,
        _ => if attempt == 0 {
            Recovery::Restart
        } else {
            Recovery::GiveUp
        },
    }
}

/// No version from the last base on is a raw WAL record.
pub open spec fn needs_no_process(s: Seq<(Lsn, VersionV)>) -> bool {
    forall|i: int| last_base(s) <= i < s.len() && 0 <= i ==> !((#[trigger] s[i]).1 is WalRecord)
}

/// A history without WAL records is rebuilt without the process, to exactly what
/// the native backend makes of it.
pub proof fn native_histories_need_no_process(key: PageKey, s: Seq<(Lsn, VersionV)>)
    requires
        last_base(s) >= 0,
        needs_no_process(s),
    ensures
        match natively(s) {
            Ok(Some(page)) => advanced(started(key, s)).0 == RedoStepV::Done(page),
            Ok(None) => false,
            Err(e) => advanced(started(key, s)).0 == RedoStepV::Failed(e),
        },
{
    let v = started(key, s);
    lemma_last_base(s);
    assert forall|i: int| 0 <= i < v.rest.len() implies !((#[trigger] v.rest[i]).1 is WalRecord) by {
        assert(v.rest[i] == s[i + last_base(s)]);
    }
    lemma_native_session(v);
}

proof fn lemma_native_session(v: SessionV)
    requires
        v.pending.len() == 0,
        forall|i: int| 0 <= i < v.rest.len() ==> !((#[trigger] v.rest[i]).1 is WalRecord),
    ensures
        match replayed(v.page, v.rest) {
            Ok(page) => advanced(v).0 == RedoStepV::Done(page),
            Err(e) => advanced(v).0 == RedoStepV::Failed(e),
        },
    decreases v.rest.len(),
{
    if v.rest.len() > 0 {
        assert(!(v.rest[0].1 is WalRecord));
        if let (page, None) = applied(v.page, v.rest[0].1) {
            let w = SessionV { rest: v.rest.skip(1), page, have_base: true, ..v };
            assert forall|i: int| 0 <= i < w.rest.len() implies !((#[trigger] w.rest[i]).1 is WalRecord) by {
                assert(w.rest[i] == v.rest[i + 1]);
            }
            lemma_native_session(w);
        }
    }
}

/// The records of a run of raw WAL records.
pub open spec fn run_records(s: Seq<(Lsn, VersionV)>) -> Seq<(Lsn, Seq<u8>)> {
    Seq::new(s.len(), |i: int| (s[i].0, s[i].1->rec))
}

/// A run of raw WAL records goes to the process in one request, in order, behind
/// those that were waiting.
pub proof fn record_runs_are_sent_at_once(v: SessionV, n: int)
    requires
        0 <= n <= v.rest.len(),
        v.pending.len() + n > 0,
        forall|i: int| 0 <= i < n ==> (#[trigger] v.rest[i]).1 is WalRecord,
        n < v.rest.len() ==> !(v.rest[n].1 is WalRecord),
    ensures
        advanced(v).0 == RedoStepV::Send(
            RedoRequestV {
                records: v.pending + run_records(v.rest.take(n)),
                ..request_of(v)
            },
        ),
        advanced(v).1.rest == v.rest.skip(n),
    decreases n,
{
    if n == 0 {
        assert(v.pending + run_records(v.rest.take(0)) =~= v.pending);
        assert(v.rest.skip(0) =~= v.rest);
    } else {
        let first = v.rest[0];
        assert(first.1 is WalRecord);
        let w = SessionV {
            rest: v.rest.skip(1),
            pending: v.pending.push((first.0, first.1->rec)),
            ..v
        };
        assert forall|i: int| 0 <= i < n - 1 implies (#[trigger] w.rest[i]).1 is WalRecord by {
            assert(w.rest[i] == v.rest[i + 1]);
        }
        record_runs_are_sent_at_once(w, n - 1);
        assert(w.pending + run_records(w.rest.take(n - 1)) =~= v.pending + run_records(
            v.rest.take(n),
        ));
        assert(w.rest.skip(n - 1) =~= v.rest.skip(n));
    }
}

/// A request is sent only with records in it, and only once the versions before them
/// are in the page.
proof fn lemma_sends(v: SessionV)
    ensures
        ({
            let (step, w) = advanced(v);
            step is Send ==> {
                &&& w.pending.len() > 0
                &&& w.rest.len() <= v.rest.len()
                &&& w.rest.len() == v.rest.len() ==> w == v
                &&& step == RedoStepV::Send(request_of(w))
            }
        }),
    decreases v.rest.len(),
{
    if v.rest.len() > 0 {
        match v.rest[0].1 {
            VersionV::WalRecord { will_init, rec } => {
                lemma_sends(
                    SessionV {
                        rest: v.rest.skip(1),
                        pending: v.pending.push((v.rest[0].0, rec)),
                        ..v
                    },
                );
            },
            x => {
                if v.pending.len() == 0 {
                    if let (page, None) = applied(v.page, x) {
                        lemma_sends(
                            SessionV { rest: v.rest.skip(1), page, have_base: true, ..v },
                        );
                    }
                }
            },
        }
    }
}

/// A session run to its end against a process: every request it sends, in order, each
/// answered by the process and the answer handed back, and how it ends.
pub open spec fn run(v: SessionV, process: spec_fn(RedoRequestV) -> Seq<u8>) -> (
    Seq<RedoRequestV>,
    RedoStepV,
)
    decreases v.rest.len(), v.pending.len(),
    via run_decreases
{
    match advanced(v) {
        (RedoStepV::Send(r), w) => {
            let (more, end) = run(resumed(w, process(r)), process);
            (seq![r] + more, end)
        },
        (end, _) => (Seq::empty(), end),
    }
}

#[via_fn]
proof fn run_decreases(v: SessionV, process: spec_fn(RedoRequestV) -> Seq<u8>) {
    lemma_sends(v);
}

/// What a process makes of a page and records, where `f` says what each record makes of
/// a page.
pub open spec fn redone(
    f: spec_fn(PageKey, Seq<u8>, (Lsn, Seq<u8>)) -> Seq<u8>,
    key: PageKey,
    page: Seq<u8>,
    records: Seq<(Lsn, Seq<u8>)>,
) -> Seq<u8>
    decreases records.len(),
{
    if records.len() == 0 {
        page
    } else {
        f(key, redone(f, key, page, records.drop_last()), records.last())
    }
}

/// What the versions make of a page, one by one: an image or a delta by itself, a record
/// by `f`.
pub open spec fn rebuilt(
    f: spec_fn(PageKey, Seq<u8>, (Lsn, Seq<u8>)) -> Seq<u8>,
    key: PageKey,
    page: Seq<u8>,
    s: Seq<(Lsn, VersionV)>,
) -> RedoStepV
    decreases s.len(),
{
    if s.len() == 0 {
        RedoStepV::Done(page)
    } else {
        match s[0].1 {
            VersionV::WalRecord { will_init, rec } => rebuilt(
                f,
                key,
                f(key, page, (s[0].0, rec)),
                s.skip(1),
            ),
            x => match applied(page, x) {
                (_, Some(e)) => RedoStepV::Failed(RedoErrorV::Apply(e)),
                (next, None) => rebuilt(f, key, next, s.skip(1)),
            },
        }
    }
}

/// A process that answers every request with what its records make, one by one, of the
/// base image, or of zeros where there is none, for the page that the request names.
pub open spec fn applies_records(
    process: spec_fn(RedoRequestV) -> Seq<u8>,
    f: spec_fn(PageKey, Seq<u8>, (Lsn, Seq<u8>)) -> Seq<u8>,
) -> bool {
    forall|r: RedoRequestV|
        #[trigger] process(r) == redone(
            f,
            PageKey { rel: r.rel, block: r.blkno },
            match r.base_image {
                Some(page) => page,
                None => zeros(PAGE_SIZE as int),
            },
            r.records,
        )
}

proof fn lemma_run(
    v: SessionV,
    process: spec_fn(RedoRequestV) -> Seq<u8>,
    f: spec_fn(PageKey, Seq<u8>, (Lsn, Seq<u8>)) -> Seq<u8>,
    key: PageKey,
)
    requires
        applies_records(process, f),
        v.rel == key.rel,
        v.blkno == key.block,
        !v.have_base ==> v.page == zeros(PAGE_SIZE as int),
    ensures
        run(v, process).1 == rebuilt(f, key, redone(f, key, v.page, v.pending), v.rest),
    decreases v.rest.len(), v.pending.len(),
{
    let sends = v.pending.len() > 0 && (v.rest.len() == 0 || !(v.rest[0].1 is WalRecord));
    if sends {
        let r = request_of(v);
        let w = resumed(v, process(r));
        assert(PageKey { rel: r.rel, block: r.blkno } == key);
        assert(w.page == redone(f, key, v.page, v.pending));
        assert(advanced(v) == (RedoStepV::Send(r), v));
        assert(run(v, process).1 == run(w, process).1);
        lemma_run(w, process, f, key);
        assert(redone(f, key, w.page, w.pending) == w.page);
    } else if v.rest.len() > 0 {
        match v.rest[0].1 {
            VersionV::WalRecord { will_init, rec } => {
                let w = SessionV {
                    rest: v.rest.skip(1),
                    pending: v.pending.push((v.rest[0].0, rec)),
                    ..v
                };
                assert(advanced(v) == advanced(w));
                assert(run(v, process) == run(w, process));
                lemma_run(w, process, f, key);
                assert(w.pending.drop_last() =~= v.pending);
            },
            x => {
                if let (page, None) = applied(v.page, x) {
                    let w = SessionV { rest: v.rest.skip(1), page, have_base: true, ..v };
                    assert(advanced(v) == advanced(w));
                    assert(run(v, process) == run(w, process));
                    lemma_run(w, process, f, key);
                    assert(redone(f, key, w.page, w.pending) == w.page);
                }
            },
        }
    }
}

/// Version number `b` is the last that a page can be rebuilt from: an image, or a record
/// that re-initializes the page, with no such version behind it.
pub open spec fn is_last_start(s: Seq<(Lsn, VersionV)>, b: int) -> bool {
    let starts = |v: VersionV|
        match v {
            VersionV::Image(_) => true,
            VersionV::Delta(_) => false,
            VersionV::WalRecord { will_init, rec } => will_init,
        };
    &&& 0 <= b < s.len()
    &&& starts(s[b].1)
    &&& forall|i: int| b < i < s.len() ==> !starts((#[trigger] s[i]).1)
}

proof fn lemma_is_last_start(s: Seq<(Lsn, VersionV)>, b: int)
    requires
        is_last_start(s, b),
    ensures
        last_base(s) == b,
{
    lemma_last_base_at(s, b);
}

/// Whatever a record makes of a page, a session that was started for a page and run to
/// its end comes to what the page's versions, from the last image or re-initializing
/// record on, make of an empty page one by one, the records as records of that page.
pub proof fn sessions_rebuild_the_page(
    key: PageKey,
    s: Seq<(Lsn, VersionV)>,
    b: int,
    process: spec_fn(RedoRequestV) -> Seq<u8>,
    f: spec_fn(PageKey, Seq<u8>, (Lsn, Seq<u8>)) -> Seq<u8>,
)
    requires
        is_last_start(s, b),
        applies_records(process, f),
    ensures
        run(started(key, s), process).1 == rebuilt(f, key, zeros(PAGE_SIZE as int), s.skip(b)),
{
    lemma_is_last_start(s, b);
    lemma_run(started(key, s), process, f, key);
}

/// The records among the versions, in order.
pub open spec fn raw_records(s: Seq<(Lsn, VersionV)>) -> Seq<(Lsn, Seq<u8>)>
    decreases s.len(),
{
    if s.len() == 0 {
        Seq::empty()
    } else {
        match s[0].1 {
            VersionV::WalRecord { will_init, rec } => seq![(s[0].0, rec)] + raw_records(s.skip(1)),
            _ => raw_records(s.skip(1)),
        }
    }
}

/// The records of the requests, one behind the other.
pub open spec fn records_sent(rs: Seq<RedoRequestV>) -> Seq<(Lsn, Seq<u8>)>
    decreases rs.len(),
{
    if rs.len() == 0 {
        Seq::empty()
    } else {
        rs[0].records + records_sent(rs.skip(1))
    }
}

proof fn lemma_requests(v: SessionV, process: spec_fn(RedoRequestV) -> Seq<u8>)
    ensures
        ({
            let (rs, end) = run(v, process);
            &&& forall|i: int|
                0 <= i < rs.len() ==> (#[trigger] rs[i]).rel == v.rel && rs[i].blkno == v.blkno
                    && rs[i].records.len() > 0
            &&& forall|i: int| 1 <= i < rs.len() ==> (#[trigger] rs[i]).base_image is Some
            &&& v.have_base && rs.len() > 0 ==> rs[0].base_image is Some
            &&& (v.pending.len() == 0 && v.rest.len() > 0 && !(v.rest[0].1 is WalRecord) && rs.len()
                > 0) ==> rs[0].base_image is Some
            &&& !v.have_base && rs.len() > 0 && (v.pending.len() > 0 || v.rest[0].1 is WalRecord)
                ==> rs[0].base_image is None
            &&& end is Done ==> records_sent(rs) == v.pending + raw_records(v.rest)
        }),
    decreases v.rest.len(), v.pending.len(),
{
    let (rs, end) = run(v, process);
    let sends = v.pending.len() > 0 && (v.rest.len() == 0 || !(v.rest[0].1 is WalRecord));
    if sends {
        let r = request_of(v);
        let w = resumed(v, process(r));
        assert(advanced(v) == (RedoStepV::Send(r), v));
        let (more, e) = run(w, process);
        assert(rs == seq![r] + more && end == e);
        lemma_requests(w, process);
        assert forall|i: int| 0 <= i < rs.len() implies (#[trigger] rs[i]).rel == v.rel
            && rs[i].blkno == v.blkno && rs[i].records.len() > 0 by {
            if i > 0 {
                assert(rs[i] == more[i - 1]);
            }
        }
        assert forall|i: int| 1 <= i < rs.len() implies (#[trigger] rs[i]).base_image is Some by {
            assert(rs[i] == more[i - 1]);
        }
        assert(rs.skip(1) =~= more);
        assert(w.pending + raw_records(v.rest) =~= raw_records(v.rest));
    } else if v.rest.len() > 0 {
        match v.rest[0].1 {
            VersionV::WalRecord { will_init, rec } => {
                let x = (v.rest[0].0, rec);
                let w = SessionV { rest: v.rest.skip(1), pending: v.pending.push(x), ..v };
                assert(advanced(v) == advanced(w));
                assert(run(v, process) == run(w, process));
                lemma_requests(w, process);
                assert(v.pending.push(x) + raw_records(w.rest) =~= v.pending + (seq![x]
                    + raw_records(w.rest)));
            },
            x => {
                if let (page, None) = applied(v.page, x) {
                    let w = SessionV { rest: v.rest.skip(1), page, have_base: true, ..v };
                    assert(advanced(v) == advanced(w));
                    assert(run(v, process) == run(w, process));
                    lemma_requests(w, process);
                }
            },
        }
    } else {
        assert(v.pending + raw_records(v.rest) =~= Seq::empty());
    }
}

/// Every request of a session that was started for a page names that page, carries
/// records, and carries the page so far, but for the first where the history starts with
/// a record: nothing but zeros came before. Where the session comes to a page, the
/// requests carry all records from there on, each once and in order.
pub proof fn requests_name_the_page(
    key: PageKey,
    s: Seq<(Lsn, VersionV)>,
    b: int,
    process: spec_fn(RedoRequestV) -> Seq<u8>,
)
    requires
        is_last_start(s, b),
    ensures
        ({
            let (rs, end) = run(started(key, s), process);
            &&& forall|i: int|
                0 <= i < rs.len() ==> (#[trigger] rs[i]).rel == key.rel && rs[i].blkno == key.block
                    && rs[i].records.len() > 0 && (rs[i].base_image is None <==> i == 0
                    && s[b].1 is WalRecord)
            &&& end is Done ==> records_sent(rs) == raw_records(s.skip(b))
        }),
{
    lemma_is_last_start(s, b);
    let v = started(key, s);
    lemma_requests(v, process);
    assert(v.rest[0] == s[b]);
    assert(v.pending + raw_records(v.rest) =~= raw_records(v.rest));
}

/// There is a session for a page exactly where there is a version to rebuild it from.
pub proof fn sessions_need_a_start(s: Seq<(Lsn, VersionV)>)
    ensures
        last_base(s) >= 0 <==> exists|b: int| #[trigger] is_last_start(s, b),
{
    lemma_last_base(s);
    if last_base(s) >= 0 {
        assert(is_last_start(s, last_base(s)));
    }
    if exists|b: int| #[trigger] is_last_start(s, b) {
        lemma_is_last_start(s, choose|b: int| #[trigger] is_last_start(s, b));
    }
}

/// What the process itself reports is not tried again. Any other failure is tried again
/// once, with a new process, and then given up.
pub proof fn failures_are_tried_again_once(attempt: u32, e: RedoErrorV)
    ensures
        e is RedoFailed ==> recovery(attempt, e) == Recovery::Report,
        !(e is RedoFailed) ==> recovery(0, e) == Recovery::Restart,
        !(e is RedoFailed) && attempt > 0 ==> recovery(attempt, e) == Recovery::GiveUp,
{
}

} // verus!
