//! Rebuilding pages: natively, and through a wal-redo process.

use std::sync::Arc;

use aetheldb::common::lsn::Lsn;
use aetheldb::common::page::{ForkNumber, PageKey, RelTag, PAGE_SIZE};
use aetheldb::pageserver::page::{ByteEdit, Modification, PageError, PageVersion, WalRecord};
use aetheldb::pageserver::repository::{PageLookup, Repository};
use aetheldb::pageserver::walredo::{RedoError, RustApplyRedoManager, WalRedoManager};
use aetheldb::pageserver::walredo_mock::{apply_toy_edits, redo_frame_missing, toy_reply};
use aetheldb::pageserver::walredo_process::{
    after_failure, check_reply_header, reported_failure, Recovery, RedoReply, RedoSession,
    RedoStep,
};
use aetheldb::pageserver::walredo_proto::{
    ProtoError, RedoRequest, RedoResponse, RESP_HEADER_LEN,
};

fn rel() -> RelTag {
    RelTag { spc_node: 1, db_node: 2, rel_node: 3, fork: ForkNumber::Main }
}

fn key() -> PageKey {
    PageKey { rel: rel(), block: 0 }
}

#[test]
fn applies_image_then_deltas() {
    let img = PageVersion::Image(vec![0u8; PAGE_SIZE]);
    let d1 = PageVersion::Delta(vec![ByteEdit { offset: 0, data: vec![0xAA] }]);
    let d2 = PageVersion::Delta(vec![ByteEdit { offset: 1, data: vec![0xBB] }]);
    let versions = [(Lsn(10), &img), (Lsn(20), &d1), (Lsn(30), &d2)];

    let page = RustApplyRedoManager
        .reconstruct(key(), Lsn(30), &versions)
        .unwrap()
        .expect("page exists");
    assert_eq!(page[0], 0xAA);
    assert_eq!(page[1], 0xBB);
}

#[test]
fn no_base_is_none() {
    let d = PageVersion::Delta(vec![ByteEdit { offset: 0, data: vec![1] }]);
    let versions = [(Lsn(10), &d)];
    assert_eq!(RustApplyRedoManager.reconstruct(key(), Lsn(10), &versions).unwrap(), None);
}

#[test]
fn ignores_history_before_the_latest_image() {
    let old = PageVersion::Image(vec![1u8; PAGE_SIZE]);
    let newer = PageVersion::Image(vec![2u8; PAGE_SIZE]);
    let versions = [(Lsn(10), &old), (Lsn(20), &newer)];
    let page = RustApplyRedoManager.reconstruct(key(), Lsn(20), &versions).unwrap().unwrap();
    assert!(page.iter().all(|&b| b == 2));
}

#[test]
fn raw_wal_record_defers_to_postgres() {
    let img = PageVersion::Image(vec![0u8; PAGE_SIZE]);
    let wal = PageVersion::WalRecord(WalRecord { will_init: false, rec: vec![0u8; 32] });
    let versions = [(Lsn(10), &img), (Lsn(20), &wal)];
    assert_eq!(
        RustApplyRedoManager.reconstruct(key(), Lsn(20), &versions),
        Err(RedoError::NeedsPostgres { lsn: Lsn(20) }),
    );
}

#[test]
fn will_init_wal_record_base_defers_to_postgres() {
    let wal = PageVersion::WalRecord(WalRecord { will_init: true, rec: vec![0u8; 32] });
    let versions = [(Lsn(10), &wal)];
    assert_eq!(
        RustApplyRedoManager.reconstruct(key(), Lsn(10), &versions),
        Err(RedoError::NeedsPostgres { lsn: Lsn(10) }),
    );
}

#[test]
fn a_bad_edit_fails_the_redo() {
    let img = PageVersion::Image(vec![0u8; PAGE_SIZE]);
    let bad = PageVersion::Delta(vec![ByteEdit { offset: 8191, data: vec![1, 2] }]);
    let versions = [(Lsn(10), &img), (Lsn(20), &bad)];
    let e = RustApplyRedoManager.reconstruct(key(), Lsn(20), &versions).unwrap_err();
    assert_eq!(e, RedoError::Apply(PageError::EditOutOfBounds { offset: 8191, len: 2 }));
    assert!(RedoError::NeedsPostgres { lsn: Lsn(0x10) }.to_string().contains("0/10"));
    assert!(RedoError::Process("gone".to_string()).to_string().contains("gone"));
    assert!(RedoError::RedoFailed("bad".to_string()).to_string().contains("bad"));
}

// The wal-redo process, with toy records.

/// The process: it may fail each request, and end after some.
struct Child {
    fail: bool,
    left: Option<u32>,
}

impl Child {
    /// One request's bytes in, one reply's bytes out; nothing once it has ended.
    fn serve(&mut self, request: &[u8]) -> Option<Vec<u8>> {
        if self.left == Some(0) {
            return None;
        }
        assert_eq!(redo_frame_missing(request), 0);
        let reply = toy_reply(&RedoRequest::decode(request).unwrap(), self.fail).encode();
        self.left = self.left.map(|n| n - 1);
        Some(reply)
    }
}

fn exchange(child: &mut Child, req: &RedoRequest) -> Result<Vec<u8>, RedoError> {
    let reply = match child.serve(&req.encode()) {
        Some(r) => r,
        None => return Err(RedoError::Process("the process ended".to_string())),
    };
    match check_reply_header(&reply[..RESP_HEADER_LEN])? {
        RedoReply::Page => Ok(reply[RESP_HEADER_LEN..].to_vec()),
        RedoReply::Error => Err(reported_failure(&reply[RESP_HEADER_LEN + 4..])),
    }
}

/// A manager over such a process, which is started anew where it ended.
struct Manager {
    fail: bool,
    exit_after: Option<u32>,
    child: std::sync::Mutex<Option<Child>>,
}

fn manager(fail: bool, exit_after: Option<u32>) -> Manager {
    Manager { fail, exit_after, child: std::sync::Mutex::new(None) }
}

impl WalRedoManager for Manager {
    fn reconstruct(
        &self,
        key: PageKey,
        _request_lsn: Lsn,
        versions: &[(Lsn, &PageVersion)],
    ) -> Result<Option<Vec<u8>>, RedoError> {
        let mut session = match RedoSession::start(key, versions) {
            Some(s) => s,
            None => return Ok(None),
        };
        loop {
            let req = match session.step() {
                RedoStep::Done(p) => return Ok(Some(p)),
                RedoStep::Failed(e) => return Err(e),
                RedoStep::Send(req) => req,
            };
            let mut slot = self.child.lock().unwrap();
            let mut attempt = 0;
            let page = loop {
                let child = slot
                    .get_or_insert_with(|| Child { fail: self.fail, left: self.exit_after });
                match exchange(child, &req) {
                    Ok(p) => break p,
                    Err(e) => match after_failure(attempt, &e) {
                        Recovery::Report => return Err(e),
                        Recovery::Restart => *slot = None,
                        Recovery::GiveUp => {
                            *slot = None;
                            return Err(e);
                        }
                    },
                }
                attempt += 1;
            };
            session.resume(page);
        }
    }
}

/// Toy `[offset:u16][len:u16][data]` edits.
fn toy(edits: &[(u16, &[u8])]) -> Vec<u8> {
    let mut v = Vec::new();
    for (off, data) in edits {
        v.extend_from_slice(&off.to_be_bytes());
        v.extend_from_slice(&(data.len() as u16).to_be_bytes());
        v.extend_from_slice(data);
    }
    v
}

fn wal(will_init: bool, edits: &[(u16, &[u8])]) -> PageVersion {
    PageVersion::WalRecord(WalRecord { will_init, rec: toy(edits) })
}

#[test]
fn applies_a_record_onto_an_image_base() {
    let mgr = manager(false, None);
    let img = PageVersion::Image(vec![0u8; PAGE_SIZE]);
    let rec = wal(false, &[(0, &[1, 2, 3])]);
    let versions = [(Lsn(10), &img), (Lsn(20), &rec)];

    let page = mgr.reconstruct(key(), Lsn(20), &versions).unwrap().expect("page");
    assert_eq!(&page[0..3], &[1, 2, 3]);
    assert!(page[3..].iter().all(|&b| b == 0));
}

#[test]
fn will_init_record_starts_from_zeros() {
    let mgr = manager(false, None);
    let rec = wal(true, &[(5, &[9, 9])]);
    let versions = [(Lsn(10), &rec)];

    let page = mgr.reconstruct(key(), Lsn(10), &versions).unwrap().expect("page");
    assert_eq!(&page[5..7], &[9, 9]);
    assert_eq!(page[0..5], [0; 5]);
}

#[test]
fn applies_multiple_records_in_lsn_order() {
    let mgr = manager(false, None);
    let img = PageVersion::Image(vec![0u8; PAGE_SIZE]);
    let a = wal(false, &[(0, &[1, 1])]);
    let b = wal(false, &[(0, &[2])]); // overwrites the first byte
    let versions = [(Lsn(10), &img), (Lsn(20), &a), (Lsn(30), &b)];

    let page = mgr.reconstruct(key(), Lsn(30), &versions).unwrap().expect("page");
    assert_eq!(page[0], 2); // last write wins
    assert_eq!(page[1], 1);
}

#[test]
fn reconstructs_through_the_repository() {
    let mut repo = Repository::with_redo(1_000, Arc::new(manager(false, None)));
    repo.ingest(vec![
        Modification {
            rel: rel(),
            block: 0,
            lsn: Lsn(10),
            version: PageVersion::Image(vec![0u8; PAGE_SIZE]),
        },
        Modification {
            rel: rel(),
            block: 0,
            lsn: Lsn(20),
            version: wal(false, &[(100, &[7, 7, 7])]),
        },
    ]);

    match repo.get_page(key(), Lsn(100)).unwrap() {
        PageLookup::Page(p) => {
            assert_eq!(&p[100..103], &[7, 7, 7]);
            assert!(p[0..100].iter().all(|&b| b == 0));
        }
        other => panic!("expected page, got {other:?}"),
    }
}

#[test]
fn surfaces_a_process_error() {
    let mgr = manager(true, None);
    let img = PageVersion::Image(vec![0u8; PAGE_SIZE]);
    let rec = wal(false, &[(0, &[1])]);
    let versions = [(Lsn(10), &img), (Lsn(20), &rec)];

    let err = mgr.reconstruct(key(), Lsn(20), &versions).unwrap_err();
    assert!(matches!(err, RedoError::RedoFailed(_)), "expected RedoFailed, got {err:?}");
}

#[test]
fn restarts_the_process_transparently_after_it_exits() {
    // The child exits after serving each request; the manager must respawn it,
    // so repeated reconstructions all succeed despite the process dying.
    let mgr = manager(false, Some(1));
    let img = PageVersion::Image(vec![0u8; PAGE_SIZE]);
    let rec = wal(false, &[(0, &[5])]);
    let versions = [(Lsn(10), &img), (Lsn(20), &rec)];

    for round in 0..3 {
        let page = mgr
            .reconstruct(key(), Lsn(20), &versions)
            .unwrap_or_else(|e| panic!("round {round} failed: {e:?}"))
            .expect("page");
        assert_eq!(page[0], 5, "round {round}");
    }
}

#[test]
fn a_process_that_never_starts_is_given_up() {
    let mgr = manager(false, Some(0));
    let img = PageVersion::Image(vec![0u8; PAGE_SIZE]);
    let rec = wal(false, &[(0, &[5])]);
    let versions = [(Lsn(10), &img), (Lsn(20), &rec)];
    let err = mgr.reconstruct(key(), Lsn(20), &versions).unwrap_err();
    assert!(matches!(err, RedoError::Process(_)), "{err:?}");
}

#[test]
fn records_between_edits_go_in_one_request() {
    let img = PageVersion::Image(vec![0u8; PAGE_SIZE]);
    let a = wal(false, &[(0, &[1])]);
    let b = wal(false, &[(1, &[2])]);
    let d = PageVersion::Delta(vec![ByteEdit { offset: 0, data: vec![9] }]);
    let c = wal(false, &[(2, &[3])]);
    let versions =
        [(Lsn(10), &img), (Lsn(20), &a), (Lsn(30), &b), (Lsn(40), &d), (Lsn(50), &c)];
    let mut session = RedoSession::start(key(), &versions).unwrap();
    let mut sent = Vec::new();
    let page = loop {
        match session.step() {
            RedoStep::Send(req) => {
                sent.push(req.records.len());
                match toy_reply(&req, false) {
                    RedoResponse::Page(p) => session.resume(p),
                    other => panic!("{other:?}"),
                }
            }
            RedoStep::Done(p) => break p,
            RedoStep::Failed(e) => panic!("{e:?}"),
        }
    };
    assert_eq!(sent, vec![2, 1]);
    assert_eq!(&page[0..3], &[9, 2, 3]);
}

#[test]
fn images_and_edits_need_no_process() {
    let img = PageVersion::Image(vec![4u8; PAGE_SIZE]);
    let d = PageVersion::Delta(vec![ByteEdit { offset: 0, data: vec![9] }]);
    let versions = [(Lsn(10), &img), (Lsn(20), &d)];
    let mut session = RedoSession::start(key(), &versions).unwrap();
    match session.step() {
        RedoStep::Done(p) => {
            let native = RustApplyRedoManager.reconstruct(key(), Lsn(20), &versions).unwrap();
            assert_eq!(Some(p), native);
        }
        _ => panic!("expected the page"),
    }
    assert!(RedoSession::start(key(), &versions[1..]).is_none());
}

#[test]
fn odd_replies_end_the_process() {
    let good = RedoResponse::Page(vec![0; PAGE_SIZE]).encode();
    assert_eq!(check_reply_header(&good[..RESP_HEADER_LEN]), Ok(RedoReply::Page));
    let bad = RedoResponse::Error("x".to_string()).encode();
    assert_eq!(check_reply_header(&bad[..RESP_HEADER_LEN]), Ok(RedoReply::Error));
    for at in [0, 4, 5] {
        let mut odd = good.clone();
        odd[at] ^= 0x40;
        let e = check_reply_header(&odd[..RESP_HEADER_LEN]).unwrap_err();
        assert!(matches!(e, RedoError::Process(_)));
        assert_eq!(after_failure(0, &e), Recovery::Restart);
    }
    let e = reported_failure(b"why");
    assert_eq!(e, RedoError::RedoFailed("why".to_string()));
    assert_eq!(after_failure(0, &e), Recovery::Report);
}

#[test]
fn toy_edits_stop_at_the_first_that_does_not_fit() {
    let mut page = vec![0u8; PAGE_SIZE];
    let mut edits = toy(&[(3, &[7, 8])]);
    edits.extend_from_slice(&[0, 0, 0, 9, 1]); // announces nine bytes, holds one
    apply_toy_edits(&mut page, &edits);
    assert_eq!(&page[0..6], &[0, 0, 0, 7, 8, 0]);
}

#[test]
fn a_frame_says_how_much_is_missing() {
    let req = RedoRequest {
        rel: rel(),
        blkno: 1,
        base_image: None,
        records: vec![(Lsn(5), vec![1, 2, 3])],
    }
    .encode();
    assert_eq!(redo_frame_missing(&req), 0);
    for n in 0..req.len() {
        let missing = redo_frame_missing(&req[..n]);
        assert!(missing > 0 && n + missing <= req.len(), "at {n}");
    }
}

// The messages to and from the process.

fn proto_rel() -> RelTag {
    RelTag { spc_node: 1663, db_node: 5, rel_node: 16384, fork: ForkNumber::Main }
}

#[test]
fn request_round_trips_with_base_and_records() {
    let req = RedoRequest {
        rel: proto_rel(),
        blkno: 42,
        base_image: Some(vec![7u8; PAGE_SIZE]),
        records: vec![(Lsn(10), vec![1, 2, 3]), (Lsn(20), vec![9; 100])],
    };
    assert_eq!(RedoRequest::decode(&req.encode()).unwrap(), req);
}

#[test]
fn request_round_trips_without_base() {
    let req = RedoRequest {
        rel: proto_rel(),
        blkno: 0,
        base_image: None,
        records: vec![(Lsn(5), vec![0xAB, 0xCD])],
    };
    let decoded = RedoRequest::decode(&req.encode()).unwrap();
    assert_eq!(decoded, req);
    assert!(decoded.base_image.is_none());
}

#[test]
fn response_page_round_trips() {
    let resp = RedoResponse::Page(vec![0xEE; PAGE_SIZE]);
    assert_eq!(RedoResponse::decode(&resp.encode()).unwrap(), resp);
}

#[test]
fn response_error_round_trips() {
    let resp = RedoResponse::Error("rmgr 12 redo failed".to_string());
    assert_eq!(RedoResponse::decode(&resp.encode()).unwrap(), resp);
}

#[test]
fn rejects_bad_magic() {
    let mut bytes = RedoResponse::Page(vec![0; PAGE_SIZE]).encode();
    bytes[0] ^= 0xFF;
    assert!(matches!(RedoResponse::decode(&bytes), Err(ProtoError::BadMagic { .. })));
}

#[test]
fn every_fault_of_a_message_has_its_error() {
    let req = RedoRequest {
        rel: proto_rel(),
        blkno: 0,
        base_image: None,
        records: vec![(Lsn(5), vec![0xAB, 0xCD])],
    }
    .encode();
    assert!(matches!(RedoRequest::decode(&req[..req.len() - 1]), Err(ProtoError::Truncated(_))));
    let mut bad = req.clone();
    bad[4] = 9;
    assert_eq!(RedoRequest::decode(&bad), Err(ProtoError::BadVersion(9)));
    let resp = RedoResponse::Error("abc".to_string()).encode();
    assert!(matches!(RedoResponse::decode(&resp[..resp.len() - 1]), Err(ProtoError::Truncated(_))));
    let mut bad = resp.clone();
    bad[5] = 9;
    assert_eq!(RedoResponse::decode(&bad), Err(ProtoError::BadStatus(9)));
    assert!(ProtoError::BadStatus(9).to_string().contains("9"));
}

#[test]
fn cut_redo_messages_are_truncated() {
    for base_image in [None, Some(vec![7u8; PAGE_SIZE])] {
        let b = RedoRequest {
            rel: proto_rel(),
            blkno: 42,
            base_image,
            records: vec![(Lsn(10), vec![1, 2, 3]), (Lsn(20), vec![])],
        }
        .encode();
        for n in 0..b.len() {
            assert!(matches!(RedoRequest::decode(&b[..n]), Err(ProtoError::Truncated(_))), "at {n}");
        }
    }
    for r in [RedoResponse::Page(vec![1; PAGE_SIZE]), RedoResponse::Error("no".to_string())] {
        let b = r.encode();
        for n in 0..b.len() {
            assert!(
                matches!(RedoResponse::decode(&b[..n]), Err(ProtoError::Truncated(_))),
                "at {n}"
            );
        }
    }
}

#[test]
fn redo_messages_are_written_as_they_were_read() {
    let b = RedoRequest {
        rel: proto_rel(),
        blkno: 42,
        base_image: Some(vec![7u8; PAGE_SIZE]),
        records: vec![(Lsn(10), vec![1, 2, 3])],
    }
    .encode();
    let mut read = b.clone();
    for i in [6, 7, 21, 22, 23] {
        read[i] = 0xEE; // reserved
    }
    read.extend_from_slice(b"behind");
    assert_eq!(RedoRequest::decode(&read).unwrap().encode(), b);

    let b = RedoResponse::Error("no".to_string()).encode();
    let mut read = b.clone();
    read[6] = 1;
    read[7] = 2;
    read.push(3);
    assert_eq!(RedoResponse::decode(&read).unwrap().encode(), b);
}
