//! WAL service messages.

use aetheldb::common::ids::{TenantId, TimelineId};
use aetheldb::common::lsn::Lsn;
use aetheldb::common::wal_service::{
    message_type, AppendRequest, AppendResponse, ReadRequest, ReadResponse, VoteRequest,
    VoteResponse, READ_REQUEST_LEN, READ_RESPONSE_HEADER_LEN, REQUEST_HEADER_LEN, STATUS_OK,
    STATUS_REJECTED, STATUS_STALE_TERM, TYPE_APPEND, TYPE_READ, TYPE_REPLICATE, TYPE_VOTE,
    VOTE_REQUEST_LEN,
};

#[test]
fn vote_round_trips() {
    let req = VoteRequest {
        tenant: TenantId::zero(),
        timeline: TimelineId::zero(),
        term: 7,
        candidate: 3,
    };
    let bytes = req.encode();
    assert_eq!(bytes.len(), VOTE_REQUEST_LEN);
    assert_eq!(message_type(&bytes).unwrap(), TYPE_VOTE);
    assert_eq!(VoteRequest::decode(&bytes).unwrap(), req);

    let resp = VoteResponse { granted: true, term: 7, flush_lsn: Lsn(0x4000) };
    assert_eq!(VoteResponse::decode(&resp.encode()).unwrap(), resp);
}

#[test]
fn append_request_round_trips() {
    let req = AppendRequest {
        tenant: TenantId::from_bytes([3; 16]),
        timeline: TimelineId::from_bytes([4; 16]),
        term: 7,
        start_lsn: Lsn(0x1000),
        payload: b"some-wal-bytes".to_vec(),
    };
    let bytes = req.encode();
    assert_eq!(bytes.len(), REQUEST_HEADER_LEN + req.payload.len());
    assert_eq!(AppendRequest::payload_len(&bytes).unwrap(), req.payload.len());
    assert_eq!(AppendRequest::decode(&bytes).unwrap(), req);
    assert_eq!(req.end_lsn(), Lsn(0x1000 + 14));
}

#[test]
fn append_response_round_trips() {
    let resp = AppendResponse {
        status: STATUS_OK,
        term: 7,
        flush_lsn: Lsn(0x2000),
        commit_lsn: Lsn(0x1f00),
    };
    assert_eq!(AppendResponse::decode(&resp.encode()).unwrap(), resp);
}

#[test]
fn wal_service_decode_rejects_bad_magic_and_truncation() {
    let mut bytes = AppendRequest {
        tenant: TenantId::zero(),
        timeline: TimelineId::zero(),
        term: 1,
        start_lsn: Lsn(0),
        payload: b"x".to_vec(),
    }
    .encode();
    bytes[0] ^= 0xFF;
    assert!(AppendRequest::decode(&bytes).is_err());
    assert!(AppendResponse::decode(&[0u8; 4]).is_err());
}

#[test]
fn read_request_round_trips() {
    let req = ReadRequest {
        tenant: TenantId::from_bytes([5; 16]),
        timeline: TimelineId::from_bytes([6; 16]),
        start_lsn: Lsn(0x4000),
        max_bytes: 1 << 20,
    };
    let bytes = req.encode();
    assert_eq!(bytes.len(), READ_REQUEST_LEN);
    assert_eq!(message_type(&bytes).unwrap(), TYPE_READ);
    assert_eq!(ReadRequest::decode(&bytes).unwrap(), req);
}

#[test]
fn read_response_round_trips() {
    let resp = ReadResponse {
        status: STATUS_OK,
        commit_lsn: Lsn(0x9000),
        start_lsn: Lsn(0x4000),
        payload: b"committed-wal-chunk".to_vec(),
    };
    let bytes = resp.encode();
    assert_eq!(bytes.len(), READ_RESPONSE_HEADER_LEN + resp.payload.len());
    assert_eq!(ReadResponse::payload_len(&bytes).unwrap(), resp.payload.len());
    assert_eq!(ReadResponse::decode(&bytes).unwrap(), resp);
}

#[test]
fn message_type_distinguishes_append_and_read() {
    let append = AppendRequest {
        tenant: TenantId::zero(),
        timeline: TimelineId::zero(),
        term: 1,
        start_lsn: Lsn(0),
        payload: b"x".to_vec(),
    }
    .encode();
    let read = ReadRequest {
        tenant: TenantId::zero(),
        timeline: TimelineId::zero(),
        start_lsn: Lsn(0),
        max_bytes: 16,
    }
    .encode();
    assert_eq!(message_type(&append).unwrap(), TYPE_APPEND);
    assert_eq!(message_type(&read).unwrap(), TYPE_READ);
}

#[test]
fn replication_carries_the_same_request() {
    let req = AppendRequest {
        tenant: TenantId::from_bytes([3; 16]),
        timeline: TimelineId::from_bytes([4; 16]),
        term: 9,
        start_lsn: Lsn(0x10),
        payload: vec![1, 2],
    };
    let b = req.encode_replicate();
    assert_eq!(message_type(&b).unwrap(), TYPE_REPLICATE);
    assert_eq!(AppendRequest::decode(&b).unwrap(), req);
    assert_eq!(&b[0..8], &[0x53, 0x57, 0x4C, 0x31, 1, 3, 0, 0]);
    assert_eq!(&b[56..60], &[0, 0, 0, 2]);
}

#[test]
fn odd_wal_messages_are_refused() {
    let b = VoteResponse { granted: false, term: 1, flush_lsn: Lsn(2) }.encode();
    assert_eq!(VoteResponse::decode(&b).unwrap().granted, false);
    assert!(VoteResponse::decode(&b[..23]).is_err());
    let mut bad = b.clone();
    bad[4] = 2;
    assert!(VoteResponse::decode(&bad).is_err());

    let b = ReadResponse {
        status: STATUS_STALE_TERM,
        commit_lsn: Lsn(1),
        start_lsn: Lsn(0),
        payload: vec![1, 2, 3],
    }
    .encode();
    assert!(ReadResponse::decode(&b[..b.len() - 1]).is_err());
    assert!(ReadResponse::payload_len(&b[..27]).is_err());
    assert_eq!(STATUS_REJECTED, 2);

    assert!(message_type(&[0; 7]).is_err());
    let read = ReadRequest {
        tenant: TenantId::zero(),
        timeline: TimelineId::zero(),
        start_lsn: Lsn(0),
        max_bytes: 16,
    }
    .encode();
    // A read is no append, and no vote.
    assert!(AppendRequest::decode(&read).is_err());
    assert!(VoteRequest::decode(&read).is_err());
}

fn append() -> AppendRequest {
    AppendRequest {
        tenant: TenantId::from_bytes([3; 16]),
        timeline: TimelineId::from_bytes([4; 16]),
        term: 7,
        start_lsn: Lsn(0x1000),
        payload: vec![5; 20],
    }
}

fn chunk() -> ReadResponse {
    ReadResponse {
        status: STATUS_OK,
        commit_lsn: Lsn(0x9000),
        start_lsn: Lsn(0x4000),
        payload: vec![6; 30],
    }
}

fn read_from() -> ReadRequest {
    ReadRequest {
        tenant: TenantId::from_bytes([5; 16]),
        timeline: TimelineId::from_bytes([6; 16]),
        start_lsn: Lsn(0x4000),
        max_bytes: 16,
    }
}

fn ballot() -> VoteRequest {
    VoteRequest {
        tenant: TenantId::from_bytes([5; 16]),
        timeline: TimelineId::from_bytes([6; 16]),
        term: 2,
        candidate: 3,
    }
}

fn flushed() -> AppendResponse {
    AppendResponse { status: STATUS_OK, term: 7, flush_lsn: Lsn(2), commit_lsn: Lsn(1) }
}

fn vote() -> VoteResponse {
    VoteResponse { granted: true, term: 7, flush_lsn: Lsn(2) }
}

#[test]
fn cut_wal_messages_are_refused() {
    let b = append().encode();
    for n in 0..b.len() {
        assert!(AppendRequest::decode(&b[..n]).is_err(), "at {n}");
    }
    let b = append().encode_replicate();
    for n in 0..b.len() {
        assert!(AppendRequest::decode(&b[..n]).is_err(), "at {n}");
    }
    let b = chunk().encode();
    for n in 0..b.len() {
        assert!(ReadResponse::decode(&b[..n]).is_err(), "at {n}");
    }
    let b = read_from().encode();
    for n in 0..b.len() {
        assert!(ReadRequest::decode(&b[..n]).is_err(), "at {n}");
    }
    let b = ballot().encode();
    for n in 0..b.len() {
        assert!(VoteRequest::decode(&b[..n]).is_err(), "at {n}");
    }
    let b = flushed().encode();
    for n in 0..b.len() {
        assert!(AppendResponse::decode(&b[..n]).is_err(), "at {n}");
    }
    let b = vote().encode();
    for n in 0..b.len() {
        assert!(VoteResponse::decode(&b[..n]).is_err(), "at {n}");
    }
}

/// The message with its reserved bytes set and something behind it.
fn scribbled(b: &[u8]) -> Vec<u8> {
    let mut r = b.to_vec();
    r[6] = 0xAA;
    r[7] = 0xBB;
    r.extend_from_slice(b"behind");
    r
}

#[test]
fn wal_messages_are_written_as_they_were_read() {
    let b = append().encode();
    assert_eq!(AppendRequest::decode(&scribbled(&b)).unwrap().encode(), b);
    let b = append().encode_replicate();
    assert_eq!(AppendRequest::decode(&scribbled(&b)).unwrap().encode_replicate(), b);
    let b = chunk().encode();
    assert_eq!(ReadResponse::decode(&scribbled(&b)).unwrap().encode(), b);
    let b = read_from().encode();
    assert_eq!(ReadRequest::decode(&scribbled(&b)).unwrap().encode(), b);
    let b = ballot().encode();
    assert_eq!(VoteRequest::decode(&scribbled(&b)).unwrap().encode(), b);
    let b = flushed().encode();
    assert_eq!(AppendResponse::decode(&scribbled(&b)).unwrap().encode(), b);
    let b = vote().encode();
    assert_eq!(VoteResponse::decode(&scribbled(&b)).unwrap().encode(), b);
}
