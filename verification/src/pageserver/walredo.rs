//! WAL redo: turning a page's version history into a concrete 8 KiB image.
//!
//! Reconstruction replays the versions of a page over the latest base. Images
//! and byte edits are applied natively by [`RustApplyRedoManager`]; a raw WAL
//! record can only be applied by PostgreSQL's own redo routines, behind the same
//! [`WalRedoManager`] trait.

use vstd::prelude::*;

use crate::common::lsn::{lsn_text, Lsn};
use crate::common::page::{PageKey, PAGE_SIZE};
use crate::pageserver::lsnmap::refs_view;
use crate::pageserver::page::{
    applied, edited, is_base_version, page_error_text, patched, EditV, PageError, PageErrorV,
    PageVersion, VersionV,
};
use crate::pageserver::waldecode::zeros;
use crate::text::copy_str;

verus! {

/// Errors from rebuilding a page out of its version history.
#[derive(Debug, PartialEq, Eq)]
pub enum RedoError {
    /// A native apply step (image install or byte edit) failed.
    Apply(PageError),
    /// The history holds a raw WAL record, which needs a PostgreSQL backend.
    NeedsPostgres {
        /// Position of the record that could not be applied natively.
        lsn: Lsn,
    },
    /// The wal-redo process could not be spawned or driven.
    Process(String),
    /// The wal-redo process reported that applying the records failed.
    RedoFailed(String),
}

/// What a [`RedoError`] says.
pub enum RedoErrorV {
    Apply(PageErrorV),
    NeedsPostgres { lsn: Lsn },
    Process(Seq<char>),
    RedoFailed(Seq<char>),
}

impl View for RedoError {
    type V = RedoErrorV;

    open spec fn view(&self) -> RedoErrorV {
        match *self {
            RedoError::Apply(e) => RedoErrorV::Apply(e@),
            RedoError::NeedsPostgres { lsn } => RedoErrorV::NeedsPostgres { lsn },
            RedoError::Process(m) => RedoErrorV::Process(m@),
            RedoError::RedoFailed(m) => RedoErrorV::RedoFailed(m@),
        }
    }
}

/// The sentence for an error.
pub open spec fn redo_error_text(e: RedoErrorV) -> Seq<char> {
    match e {
        RedoErrorV::Apply(p) => "applying page version: "@ + page_error_text(p),
        RedoErrorV::NeedsPostgres { lsn } => "WAL record at "@ + lsn_text(lsn)
            + " requires a Postgres wal-redo backend"@,
        RedoErrorV::Process(m) => "wal-redo process error: "@ + m,
        RedoErrorV::RedoFailed(m) => "wal-redo failed: "@ + m,
    }
}

impl RedoError {
    /// The error as a sentence.
    pub fn to_string(&self) -> (r: String)
        ensures
            r@ == redo_error_text(self@),
    {
        match self {
            RedoError::Apply(e) => {
                let mut m = copy_str("applying page version: ");
                m.push_str(e.to_string().as_str());
                m
            },
            RedoError::NeedsPostgres { lsn } => {
                let mut m = copy_str("WAL record at ");
                m.push_str(lsn.to_string().as_str());
                m.push_str(" requires a Postgres wal-redo backend");
                m
            },
            RedoError::Process(p) => {
                let mut m = copy_str("wal-redo process error: ");
                m.push_str(p.as_str());
                m
            },
            RedoError::RedoFailed(p) => {
                let mut m = copy_str("wal-redo failed: ");
                m.push_str(p.as_str());
                m
            },
        }
    }
}

/// What a reconstruction came to: a page, no page, or an error.
pub type RedoOutcome = Result<Option<Seq<u8>>, RedoErrorV>;

/// What a reconstruction's result says.
pub open spec fn redo_outcome(r: Result<Option<Vec<u8>>, RedoError>) -> RedoOutcome {
    match r {
        Ok(Some(p)) => Ok(Some(p@)),
        Ok(None) => Ok(None),
        Err(e) => Err(e@),
    }
}

/// Rebuilds a page image from an ordered slice of its versions.
pub trait WalRedoManager: Send + Sync {
    /// Which outcomes this backend may come to for a history. A backend that
    /// depends on more than its arguments admits more than one; one that says
    /// nothing of itself may come to any.
    open spec fn may_return(
        &self,
        key: PageKey,
        request_lsn: Lsn,
        versions: Seq<(Lsn, VersionV)>,
        out: RedoOutcome,
    ) -> bool {
        true
    }

    /// Rebuild page `key` as of `request_lsn` from `versions`: every version of
    /// the page up to that position, by position.
    ///
    /// `Ok(None)` says that there is no base to start from: the page does not
    /// exist at that position.
    fn reconstruct(
        &self,
        key: PageKey,
        request_lsn: Lsn,
        versions: &[(Lsn, &PageVersion)],
    ) -> (r: Result<Option<Vec<u8>>, RedoError>)
        ensures
            self.may_return(key, request_lsn, refs_view(versions@), redo_outcome(r)),
    ;
}

/// The number of the last base, or -1.
pub open spec fn last_base(s: Seq<(Lsn, VersionV)>) -> int
    decreases s.len(),
{
    if s.len() == 0 {
        -1
    } else if is_base_version(s.last().1) {
        s.len() - 1
    } else {
        last_base(s.drop_last())
    }
}

/// The part of a history that a page is rebuilt from: its last base and what
/// follows, or nothing where there is no base.
pub open spec fn from_last_base(s: Seq<(Lsn, VersionV)>) -> Seq<(Lsn, VersionV)> {
    if last_base(s) < 0 {
        Seq::empty()
    } else {
        s.skip(last_base(s))
    }
}

/// The page after the versions, in order; a WAL record stops the replay.
pub open spec fn replayed(page: Seq<u8>, s: Seq<(Lsn, VersionV)>) -> Result<Seq<u8>, RedoErrorV>
    decreases s.len(),
{
    if s.len() == 0 {
        Ok(page)
    } else if s[0].1 is WalRecord {
        Err(RedoErrorV::NeedsPostgres { lsn: s[0].0 })
    } else {
        match applied(page, s[0].1) {
            (_, Some(e)) => Err(RedoErrorV::Apply(e)),
            (p, None) => replayed(p, s.skip(1)),
        }
    }
}

/// The page that a history comes to natively: its last base, over an empty
/// page, and what follows it.
pub open spec fn natively(s: Seq<(Lsn, VersionV)>) -> RedoOutcome {
    let b = last_base(s);
    if b < 0 {
        Ok(None)
    } else {
        match replayed(zeros(PAGE_SIZE as int), s.skip(b)) {
            Ok(p) => Ok(Some(p)),
            Err(e) => Err(e),
        }
    }
}

/// A redo manager that applies images and byte edits natively.
#[derive(Debug, Clone, Copy)]
pub struct RustApplyRedoManager;

impl Default for RustApplyRedoManager {
    fn default() -> (r: RustApplyRedoManager)
        ensures
            r == RustApplyRedoManager,
    {
        RustApplyRedoManager
    }
}

pub proof fn lemma_last_base(s: Seq<(Lsn, VersionV)>)
    ensures
        -1 <= last_base(s) < s.len(),
        last_base(s) >= 0 ==> is_base_version(s[last_base(s)].1),
        forall|i: int| last_base(s) < i < s.len() ==> !is_base_version((#[trigger] s[i]).1),
    decreases s.len(),
{
    if s.len() > 0 && !is_base_version(s.last().1) {
        lemma_last_base(s.drop_last());
        assert forall|i: int| last_base(s) < i < s.len() implies !is_base_version(
            (#[trigger] s[i]).1,
        ) by {
            if i < s.len() - 1 {
                assert(s.drop_last()[i] == s[i]);
            }
        }
    }
}

/// The number that is a base with no base behind it is the last base.
pub proof fn lemma_last_base_at(s: Seq<(Lsn, VersionV)>, b: int)
    requires
        -1 <= b < s.len(),
        b >= 0 ==> is_base_version(s[b].1),
        forall|i: int| b < i < s.len() ==> !is_base_version((#[trigger] s[i]).1),
    ensures
        last_base(s) == b,
{
    lemma_last_base(s);
    let c = last_base(s);
    if c > b {
        assert(!is_base_version(s[c].1));
    } else if c < b {
        assert(!is_base_version(s[b].1));
    }
}

impl WalRedoManager for RustApplyRedoManager {
    /// Exactly what the history comes to.
    open spec fn may_return(
        &self,
        key: PageKey,
        request_lsn: Lsn,
        versions: Seq<(Lsn, VersionV)>,
        out: RedoOutcome,
    ) -> bool {
        out == natively(versions)
    }

    fn reconstruct(
        &self,
        key: PageKey,
        request_lsn: Lsn,
        versions: &[(Lsn, &PageVersion)],
    ) -> (r: Result<Option<Vec<u8>>, RedoError>) {
        let ghost s = refs_view(versions@);
        let mut i: usize = versions.len();
        while i > 0 && !versions[i - 1].1.is_base()
            invariant
                i <= versions@.len(),
                s == refs_view(versions@),
                forall|j: int| i <= j < s.len() ==> !is_base_version((#[trigger] s[j]).1),
            decreases i,
        {
            assert(s[i - 1].1 == versions@[i - 1].1@);
            i -= 1;
        }
        if i == 0 {
            proof {
                lemma_last_base_at(s, -1);
            }
            return Ok(None);
        }
        let base: usize = i - 1;
        assert(s[base as int].1 == versions@[base as int].1@);
        proof {
            lemma_last_base_at(s, base as int);
        }
        let mut page: Vec<u8> = vec![0u8; PAGE_SIZE];
        assert(page@ =~= zeros(PAGE_SIZE as int));
        let mut k: usize = base;
        while k < versions.len()
            invariant
                base <= k <= versions@.len(),
                s == refs_view(versions@),
                page@.len() == PAGE_SIZE,
                last_base(s) == base,
                replayed(zeros(PAGE_SIZE as int), s.skip(base as int)) == replayed(
                    page@,
                    s.skip(k as int),
                ),
            decreases versions@.len() - k,
        {
            let (lsn, v) = versions[k];
            assert(s[k as int] == (lsn, v@));
            assert(s.skip(k as int)[0] == s[k as int]);
            assert(s.skip(k as int).skip(1) =~= s.skip(k + 1));
            match v {
                PageVersion::WalRecord(_) => {
                    return Err(RedoError::NeedsPostgres { lsn });
                },
                _ => {
                    match v.apply_to(page.as_mut_slice()) {
                        Ok(()) => {},
                        Err(e) => {
                            return Err(RedoError::Apply(e));
                        },
                    }
                },
            }
            k += 1;
        }
        Ok(Some(page))
    }
}

/// History before a base is irrelevant: what comes before the last base, or
/// before any base, changes nothing.
pub proof fn history_before_a_base_is_irrelevant(s: Seq<(Lsn, VersionV)>, b: int)
    requires
        0 <= b < s.len(),
        is_base_version(s[b].1),
    ensures
        natively(s.skip(b)) == natively(s),
        from_last_base(s.skip(b)) == from_last_base(s),
{
    let t = s.skip(b);
    lemma_last_base(s);
    let c = last_base(s);
    if c < b {
        assert(!is_base_version(s[b].1));
    }
    assert forall|i: int| c - b < i < t.len() implies !is_base_version((#[trigger] t[i]).1) by {
        assert(t[i] == s[i + b]);
    }
    assert(t[c - b] == s[c]);
    lemma_last_base_at(t, c - b);
    assert(t.skip(c - b) =~= s.skip(c));
}

/// Replaying one list behind another.
proof fn lemma_replayed_concat(page: Seq<u8>, a: Seq<(Lsn, VersionV)>, b: Seq<(Lsn, VersionV)>)
    ensures
        replayed(page, a + b) == (match replayed(page, a) {
            Ok(p) => replayed(p, b),
            Err(e) => Err(e),
        }),
    decreases a.len(),
{
    if a.len() == 0 {
        assert(a + b =~= b);
    } else {
        assert((a + b)[0] == a[0]);
        assert((a + b).skip(1) =~= a.skip(1) + b);
        if !(a[0].1 is WalRecord) {
            if let (p, None) = applied(page, a[0].1) {
                lemma_replayed_concat(p, a.skip(1), b);
            }
        }
    }
}

/// A history comes to what its later part comes to, where that has a base; and
/// else to the later part replayed over what the earlier one comes to.
pub proof fn base_decides_or_goes_on(a: Seq<(Lsn, VersionV)>, b: Seq<(Lsn, VersionV)>)
    ensures
        natively(a + b) == (if last_base(b) >= 0 {
            natively(b)
        } else {
            match natively(a) {
                Ok(Some(p)) => match replayed(p, b) {
                    Ok(q) => Ok::<Option<Seq<u8>>, RedoErrorV>(Some(q)),
                    Err(e) => Err(e),
                },
                out => out,
            }
        }),
{
    let s = a + b;
    let n = a.len() as int;
    lemma_last_base(a);
    lemma_last_base(b);
    assert forall|i: int| 0 <= i < n implies #[trigger] s[i] == a[i] by {}
    assert forall|i: int| n <= i < s.len() implies #[trigger] s[i] == b[i - n] by {}
    if last_base(b) >= 0 {
        let c = n + last_base(b);
        assert(s[c] == b[last_base(b)]);
        history_before_a_base_is_irrelevant(s, c);
        history_before_a_base_is_irrelevant(b, last_base(b));
        assert(s.skip(c) =~= b.skip(last_base(b)));
    } else {
        lemma_last_base_at(s, last_base(a));
        if last_base(a) >= 0 {
            assert(s.skip(last_base(a)) =~= a.skip(last_base(a)) + b);
            lemma_replayed_concat(zeros(PAGE_SIZE as int), a.skip(last_base(a)), b);
        }
    }
}

proof fn lemma_replay_stops(page: Seq<u8>, s: Seq<(Lsn, VersionV)>, i: int)
    requires
        0 <= i < s.len(),
        s[i].1 is WalRecord,
    ensures
        replayed(page, s) is Err,
    decreases s.len(),
{
    if i > 0 && !(s[0].1 is WalRecord) {
        if let (p, None) = applied(page, s[0].1) {
            assert(s.skip(1)[i - 1] == s[i]);
            lemma_replay_stops(p, s.skip(1), i - 1);
        }
    }
}

/// Raw WAL records are not skipped: of a history with such a record at its last
/// base or behind it, the native backend gives no page.
pub proof fn raw_records_are_not_skipped(s: Seq<(Lsn, VersionV)>, i: int)
    requires
        last_base(s) <= i < s.len(),
        0 <= i,
        s[i].1 is WalRecord,
    ensures
        !(natively(s) matches Ok(Some(_))),
{
    let b = last_base(s);
    if b >= 0 {
        assert(s.skip(b)[i - b] == s[i]);
        lemma_replay_stops(zeros(PAGE_SIZE as int), s.skip(b), i - b);
    }
}

/// A full image is what it shows: a history that ends in an image of one page
/// comes to that image.
pub proof fn latest_image_is_the_page(s: Seq<(Lsn, VersionV)>, img: Seq<u8>)
    requires
        s.len() > 0,
        s.last().1 == VersionV::Image(img),
        img.len() == PAGE_SIZE,
    ensures
        natively(s) == Ok::<Option<Seq<u8>>, RedoErrorV>(Some(img)),
{
    let b = s.len() - 1;
    lemma_last_base_at(s, b);
    let t = s.skip(b);
    assert(t[0] == s[b]);
    assert(t.skip(1).len() == 0);
    assert(applied(zeros(PAGE_SIZE as int), t[0].1) == (img, None::<PageErrorV>));
    assert(replayed(zeros(PAGE_SIZE as int), t) == replayed(img, t.skip(1)));
    assert(replayed(img, t.skip(1)) == Ok::<Seq<u8>, RedoErrorV>(img));
}


/// Edits keep a page's length.
proof fn lemma_edited_len(page: Seq<u8>, edits: Seq<EditV>)
    requires
        page.len() == PAGE_SIZE,
    ensures
        edited(page, edits).0.len() == PAGE_SIZE,
    decreases edits.len(),
{
    if edits.len() > 0 {
        let e = edits[0];
        if e.offset + e.data.len() <= PAGE_SIZE {
            lemma_edited_len(patched(page, e.offset as int, e.data), edits.skip(1));
        }
    }
}

proof fn lemma_replayed_len(page: Seq<u8>, s: Seq<(Lsn, VersionV)>)
    requires
        page.len() == PAGE_SIZE,
    ensures
        replayed(page, s) matches Ok(p) ==> p.len() == PAGE_SIZE,
    decreases s.len(),
{
    if s.len() > 0 && !(s[0].1 is WalRecord) {
        if let VersionV::Delta(edits) = s[0].1 {
            lemma_edited_len(page, edits);
        }
        lemma_replayed_len(applied(page, s[0].1).0, s.skip(1));
    }
}

/// A page rebuilt natively is one page long.
pub proof fn lemma_native_len(s: Seq<(Lsn, VersionV)>)
    ensures
        natively(s) matches Ok(Some(p)) ==> p.len() == PAGE_SIZE,
{
    lemma_replayed_len(zeros(PAGE_SIZE as int), s.skip(last_base(s)));
}

} // verus!
