//! Page service messages.

use aetheldb::common::ids::{TenantId, TimelineId};
use aetheldb::common::lsn::Lsn;
use aetheldb::common::page::{ForkNumber, RelTag, PAGE_SIZE};
use aetheldb::common::page_service::{Request, Response, GET_PAGE_PAYLOAD, GET_REL_SIZE_PAYLOAD};

fn rel() -> RelTag {
    RelTag { spc_node: 1663, db_node: 5, rel_node: 16384, fork: ForkNumber::Main }
}

#[test]
fn get_page_request_round_trips() {
    let req = Request::GetPage {
        tenant: TenantId::from_bytes([1; 16]),
        timeline: TimelineId::from_bytes([2; 16]),
        rel: rel(),
        block: 42,
        lsn: Lsn(0x16_B374_D848),
    };
    let bytes = req.encode();
    // header(8) + tenant(16) + timeline(16) + spc/db/rel(12) + block(4) + lsn(8)
    assert_eq!(bytes.len(), 8 + GET_PAGE_PAYLOAD);
    assert_eq!(Request::decode(&bytes).unwrap(), req);
}

#[test]
fn get_rel_size_request_round_trips() {
    let req = Request::GetRelSize {
        tenant: TenantId::from_bytes([7; 16]),
        timeline: TimelineId::from_bytes([8; 16]),
        rel: rel(),
        lsn: Lsn::invalid(),
    };
    let bytes = req.encode();
    assert_eq!(Request::decode(&bytes).unwrap(), req);
}

#[test]
fn page_response_round_trips() {
    let page = vec![0xABu8; PAGE_SIZE];
    let bytes = Response::Page(page.clone()).encode();
    match Response::decode(&bytes).unwrap() {
        Response::Page(p) => assert_eq!(p, page),
        other => panic!("expected Page, got {other:?}"),
    }
}

#[test]
fn relsize_notfound_and_error_round_trip() {
    assert_eq!(
        Response::decode(&Response::RelSize(99).encode()).unwrap(),
        Response::RelSize(99)
    );
    assert_eq!(Response::decode(&Response::NotFound.encode()).unwrap(), Response::NotFound);
    match Response::decode(&Response::Error("boom".into()).encode()).unwrap() {
        Response::Error(m) => assert_eq!(m, "boom"),
        other => panic!("expected Error, got {other:?}"),
    }
}

#[test]
fn page_service_decode_rejects_bad_magic_and_truncation() {
    let mut bytes = Request::GetRelSize {
        tenant: TenantId::zero(),
        timeline: TimelineId::zero(),
        rel: rel(),
        lsn: Lsn::invalid(),
    }
    .encode();
    bytes[0] ^= 0xFF; // corrupt magic
    assert!(Request::decode(&bytes).is_err());
    assert!(Request::decode(&[0u8; 3]).is_err()); // too short
}

#[test]
fn a_request_is_laid_out_field_by_field() {
    let req = Request::GetPage {
        tenant: TenantId::from_bytes([1; 16]),
        timeline: TimelineId::from_bytes([2; 16]),
        rel: RelTag { spc_node: 0x01020304, db_node: 5, rel_node: 6, fork: ForkNumber::VisibilityMap },
        block: 7,
        lsn: Lsn(0x0807_0605_0403_0201),
    };
    let b = req.encode();
    assert_eq!(&b[0..8], &[0x53, 0x50, 0x47, 0x31, 1, 1, 2, 0]);
    assert_eq!(&b[8..24], &[1; 16]);
    assert_eq!(&b[24..40], &[2; 16]);
    assert_eq!(&b[40..44], &[1, 2, 3, 4]);
    assert_eq!(&b[44..52], &[0, 0, 0, 5, 0, 0, 0, 6]);
    assert_eq!(&b[52..56], &[0, 0, 0, 7]);
    assert_eq!(&b[56..64], &[8, 7, 6, 5, 4, 3, 2, 1]);
}

#[test]
fn headers_say_how_long_a_request_is() {
    let page = Request::GetPage {
        tenant: TenantId::zero(),
        timeline: TimelineId::zero(),
        rel: rel(),
        block: 0,
        lsn: Lsn(1),
    }
    .encode();
    let size = Request::GetRelSize {
        tenant: TenantId::zero(),
        timeline: TimelineId::zero(),
        rel: rel(),
        lsn: Lsn(1),
    }
    .encode();
    assert_eq!(Request::total_len(&page[..8]).unwrap(), 8 + GET_PAGE_PAYLOAD);
    assert_eq!(Request::total_len(&size[..8]).unwrap(), 8 + GET_REL_SIZE_PAYLOAD);
    assert!(Request::total_len(&page[..7]).is_err());

    let mut bad = page.clone();
    bad[4] = 9; // version
    assert!(Request::total_len(&bad).is_err());
    let mut bad = page.clone();
    bad[5] = 9; // type
    assert!(Request::total_len(&bad).is_err());
    assert!(Request::decode(&bad).is_err());
    let mut bad = page.clone();
    bad[6] = 9; // fork
    assert!(Request::decode(&bad).is_err());
    assert!(Request::decode(&page[..page.len() - 1]).is_err());
}

#[test]
fn odd_responses_are_refused() {
    let ok = Response::RelSize(7).encode();
    assert!(Response::decode(&ok[..11]).is_err());
    let mut bad = ok.clone();
    bad[0] ^= 1;
    assert!(Response::decode(&bad).is_err());
    let mut bad = ok.clone();
    bad[4] = 7; // version
    assert!(Response::decode(&bad).is_err());
    let mut bad = ok.clone();
    bad[5] = 7; // status
    assert!(Response::decode(&bad).is_err());
    assert!(Response::decode(&ok[..ok.len() - 1]).is_err());
    // Neither a block count nor a page.
    let mut bad = ok.clone();
    bad.push(0);
    bad[11] = 5;
    assert!(Response::decode(&bad).is_err());
}

#[test]
fn an_error_text_that_is_no_utf8_is_mended() {
    let mut b = Response::Error("ab".into()).encode();
    let n = b.len();
    b[n - 1] = 0xFF;
    match Response::decode(&b).unwrap() {
        Response::Error(m) => assert_eq!(m, "a\u{fffd}"),
        other => panic!("expected Error, got {other:?}"),
    }
}

#[test]
fn cut_page_messages_are_refused() {
    let page = Request::GetPage {
        tenant: TenantId::from_bytes([1; 16]),
        timeline: TimelineId::from_bytes([2; 16]),
        rel: rel(),
        block: 42,
        lsn: Lsn(7),
    }
    .encode();
    let size = Request::GetRelSize {
        tenant: TenantId::from_bytes([1; 16]),
        timeline: TimelineId::from_bytes([2; 16]),
        rel: rel(),
        lsn: Lsn(7),
    }
    .encode();
    for b in [page, size] {
        for n in 0..b.len() {
            assert!(Request::decode(&b[..n]).is_err(), "at {n}");
        }
    }
    for r in [
        Response::Page(vec![3; PAGE_SIZE]),
        Response::RelSize(9),
        Response::NotFound,
        Response::Error("boom".into()),
    ] {
        let b = r.encode();
        for n in 0..b.len() {
            assert!(Response::decode(&b[..n]).is_err(), "at {n}");
        }
    }
}

#[test]
fn page_messages_are_written_as_they_were_read() {
    let req = Request::GetPage {
        tenant: TenantId::from_bytes([1; 16]),
        timeline: TimelineId::from_bytes([2; 16]),
        rel: rel(),
        block: 42,
        lsn: Lsn(7),
    };
    let b = req.encode();
    let mut read = b.clone();
    read[7] = 0xEE; // the flags, which are not read
    read.extend_from_slice(b"behind");
    assert_eq!(Request::decode(&read).unwrap().encode(), b);

    let b = Response::RelSize(9).encode();
    let mut read = b.clone();
    read[6] = 1;
    read[7] = 2;
    read.push(5);
    assert_eq!(Response::decode(&read).unwrap().encode(), b);
}
