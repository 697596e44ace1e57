//! Page versions, modifications and layers.

use aetheldb::common::lsn::Lsn;
use aetheldb::common::page::{ForkNumber, PageKey, RelTag, PAGE_SIZE};
use aetheldb::pageserver::layer::Layer;
use aetheldb::pageserver::lsnmap::LsnMap;
use aetheldb::pageserver::page::{ByteEdit, Modification, PageError, PageVersion, WalRecord};

fn rel() -> RelTag {
    RelTag { spc_node: 1663, db_node: 5, rel_node: 16384, fork: ForkNumber::Main }
}

fn key(block: u32) -> PageKey {
    PageKey {
        rel: RelTag { spc_node: 1, db_node: 2, rel_node: 3, fork: ForkNumber::Main },
        block,
    }
}

#[test]
fn delta_applies_byte_edits() {
    let mut page = vec![0u8; PAGE_SIZE];
    let d = PageVersion::Delta(vec![
        ByteEdit { offset: 0, data: vec![1, 2, 3] },
        ByteEdit { offset: 100, data: vec![9, 9] },
    ]);
    d.apply_to(&mut page).unwrap();
    assert_eq!(&page[0..3], &[1, 2, 3]);
    assert_eq!(&page[100..102], &[9, 9]);
}

#[test]
fn out_of_bounds_edit_is_rejected() {
    let mut page = vec![0u8; PAGE_SIZE];
    let d =
        PageVersion::Delta(vec![ByteEdit { offset: (PAGE_SIZE - 1) as u16, data: vec![1, 2] }]);
    assert!(matches!(d.apply_to(&mut page), Err(PageError::EditOutOfBounds { .. })));
}

#[test]
fn modification_image_round_trips() {
    let m = Modification {
        rel: rel(),
        block: 7,
        lsn: Lsn(0x1234),
        version: PageVersion::Image(vec![0xCD; PAGE_SIZE]),
    };
    assert_eq!(Modification::decode(&m.encode()).unwrap(), m);
}

#[test]
fn modification_delta_round_trips() {
    let m = Modification {
        rel: rel(),
        block: 0,
        lsn: Lsn(99),
        version: PageVersion::Delta(vec![ByteEdit { offset: 42, data: vec![7, 7, 7] }]),
    };
    assert_eq!(Modification::decode(&m.encode()).unwrap(), m);
}

#[test]
fn a_delta_is_laid_out_edit_by_edit() {
    let m = Modification {
        rel: RelTag { spc_node: 1, db_node: 2, rel_node: 3, fork: ForkNumber::Fsm },
        block: 4,
        lsn: Lsn(5),
        version: PageVersion::Delta(vec![ByteEdit { offset: 0x0102, data: vec![8, 9] }]),
    };
    let b = m.encode();
    assert_eq!(
        b,
        vec![
            0, 0, 0, 1, 0, 0, 0, 2, 0, 0, 0, 3, 1, 0, 0, 0, 4, 0, 0, 0, 0, 0, 0, 0, 5, 1, 0, 1, 1,
            2, 0, 2, 8, 9
        ]
    );
}

#[test]
fn images_replace_the_page() {
    let mut page = vec![3u8; PAGE_SIZE];
    PageVersion::Image(vec![4u8; PAGE_SIZE]).apply_to(&mut page).unwrap();
    assert!(page.iter().all(|&b| b == 4));
    assert_eq!(
        PageVersion::Image(vec![4u8; 10]).apply_to(&mut page),
        Err(PageError::BadImageSize(10))
    );
    assert!(page.iter().all(|&b| b == 4));
}

#[test]
fn edits_before_the_bad_one_stay() {
    let mut page = vec![0u8; PAGE_SIZE];
    let d = PageVersion::Delta(vec![
        ByteEdit { offset: 1, data: vec![7] },
        ByteEdit { offset: 8191, data: vec![1, 2] },
        ByteEdit { offset: 2, data: vec![9] },
    ]);
    assert_eq!(
        d.apply_to(&mut page),
        Err(PageError::EditOutOfBounds { offset: 8191, len: 2 })
    );
    assert_eq!(&page[0..3], &[0, 7, 0]);
}

#[test]
fn bases_are_images_and_reinitializing_records() {
    assert!(PageVersion::Image(vec![]).is_image());
    assert!(PageVersion::Image(vec![]).is_base());
    assert!(!PageVersion::Delta(vec![]).is_image());
    assert!(!PageVersion::Delta(vec![]).is_base());
    let init = PageVersion::WalRecord(WalRecord { will_init: true, rec: vec![] });
    assert!(init.is_base() && !init.is_image());
    assert!(!PageVersion::WalRecord(WalRecord { will_init: false, rec: vec![] }).is_base());
}

#[test]
fn odd_modifications_are_refused() {
    let good = Modification {
        rel: rel(),
        block: 7,
        lsn: Lsn(1),
        version: PageVersion::Image(vec![0xCD; PAGE_SIZE]),
    }
    .encode();
    assert!(matches!(Modification::decode(&good[..10]), Err(PageError::Truncated(_))));
    assert!(matches!(Modification::decode(&good[..good.len() - 1]), Err(PageError::Truncated(_))));
    let mut bad = good.clone();
    bad[25] = 9;
    assert_eq!(Modification::decode(&bad), Err(PageError::BadVersionTag(9)));
}

#[test]
fn page_errors_say_what_they_are() {
    assert_eq!(PageError::Redo("why".to_string()).to_string(), "why");
    assert!(PageError::BadImageSize(7).to_string().contains("7"));
    assert!(PageError::EditOutOfBounds { offset: 8191, len: 2 }.to_string().contains("8191"));
    assert!(PageError::BadVersionTag(9).to_string().contains("9"));
    assert!(PageError::Truncated("edit").to_string().contains("edit"));
}

#[test]
fn layer_serialization_round_trips() {
    let mut entries = LsnMap::new();
    entries.insert(key(0), Lsn(10), PageVersion::Image(vec![1u8; PAGE_SIZE]));
    entries.insert(
        key(0),
        Lsn(20),
        PageVersion::Delta(vec![ByteEdit { offset: 5, data: vec![9, 9] }]),
    );
    entries.insert(key(1), Lsn(15), PageVersion::Image(vec![2u8; PAGE_SIZE]));
    let layer = Layer::new(42, entries);

    let bytes = layer.serialize();
    let back = Layer::deserialize(&bytes).unwrap();
    assert_eq!(back.id(), 42);
    assert_eq!(back.len(), 3);

    // The deserialized layer answers a range scan identically.
    let versions = back.range(key(0), Lsn(100));
    assert_eq!(versions.len(), 2);
    assert_eq!(versions[0].0, Lsn(10));
    assert!(versions[0].1.is_image());
    assert_eq!(versions[1].0, Lsn(20));
    assert_eq!(back.range(key(0), Lsn(19)).len(), 1);
    assert_eq!(back.range(key(0), Lsn(9)).len(), 0);
    assert_eq!(back.range(key(2), Lsn(100)).len(), 0);
}

#[test]
fn layers_of_raw_records_stay_local() {
    let mut entries = LsnMap::new();
    entries.insert(key(0), Lsn(10), PageVersion::Image(vec![1u8; PAGE_SIZE]));
    assert!(Layer::new(1, LsnMap::new()).is_empty());
    let layer = Layer::new(1, entries);
    assert!(layer.is_offloadable());
    assert!(!layer.is_empty());

    let mut entries = LsnMap::new();
    entries.insert(
        key(0),
        Lsn(10),
        PageVersion::WalRecord(WalRecord { will_init: true, rec: vec![1] }),
    );
    assert!(!Layer::new(2, entries).is_offloadable());
}

#[test]
fn odd_layer_files_are_refused() {
    let mut entries = LsnMap::new();
    entries.insert(key(0), Lsn(10), PageVersion::Delta(vec![]));
    let good = Layer::new(7, entries).serialize();
    assert_eq!(&good[0..17], &[0x53, 0x50, 0x4C, 0x31, 1, 0, 0, 0, 0, 0, 0, 0, 7, 0, 0, 0, 1]);
    assert!(Layer::deserialize(&good[..5]).is_err());
    assert!(Layer::deserialize(&good[..good.len() - 1]).is_err());
    let mut bad = good.clone();
    bad[0] ^= 1;
    assert!(Layer::deserialize(&bad).is_err());
    let mut bad = good.clone();
    bad[4] = 2;
    assert!(Layer::deserialize(&bad).is_err());
}

#[test]
fn maps_keep_the_last_version_of_a_position() {
    let mut m = LsnMap::new();
    assert!(m.is_empty());
    m.insert(key(1), Lsn(5), PageVersion::Delta(vec![]));
    m.insert(key(0), Lsn(9), PageVersion::Delta(vec![]));
    m.insert(key(1), Lsn(5), PageVersion::Image(vec![1]));
    assert_eq!(m.len(), 2);
    assert!(m.latest(key(1), Lsn(100)).unwrap().is_image());
    assert!(m.latest(key(1), Lsn(4)).is_none());
    assert_eq!(m.entry(0).key, key(0));
    assert_eq!(m.entry(1).lsn, Lsn(5));
}

#[test]
fn edits_apply_to_any_buffer_that_has_room() {
    let edit = |offset: u16, byte: u8| ByteEdit { offset, data: vec![byte; 2] };
    let mut long = vec![0u8; PAGE_SIZE + 4];
    PageVersion::Delta(vec![edit(0, 1), edit(8190, 2)]).apply_to(&mut long).unwrap();
    assert_eq!((long[0], long[8191], long[8192]), (1, 2, 0));
    let mut short = vec![0u8; 4];
    PageVersion::Delta(vec![edit(2, 5)]).apply_to(&mut short).unwrap();
    assert_eq!(short, vec![0, 0, 5, 5]);
    assert_eq!(
        PageVersion::Image(vec![1; 3]).apply_to(&mut short),
        Err(PageError::BadImageSize(3))
    );
}

fn some_edits() -> PageVersion {
    PageVersion::Delta(vec![
        ByteEdit { offset: 5, data: vec![9, 9] },
        ByteEdit { offset: 0, data: vec![] },
        ByteEdit { offset: 100, data: vec![1, 2, 3] },
    ])
}

#[test]
fn cut_modifications_are_truncated() {
    for version in [some_edits(), PageVersion::Image(vec![1; PAGE_SIZE])] {
        let b = Modification { rel: rel(), block: 7, lsn: Lsn(0x1234), version }.encode();
        for n in 0..b.len() {
            assert!(
                matches!(Modification::decode(&b[..n]), Err(PageError::Truncated(_))),
                "at {n}"
            );
        }
    }
}

#[test]
fn modifications_are_written_as_they_were_read() {
    let b = Modification { rel: rel(), block: 7, lsn: Lsn(0x1234), version: some_edits() }.encode();
    let mut read = b.clone();
    read.extend_from_slice(b"behind");
    assert_eq!(Modification::decode(&read).unwrap().encode(), b);
}

#[test]
fn cut_layers_are_truncated() {
    let mut entries = LsnMap::new();
    entries.insert(key(0), Lsn(10), PageVersion::Image(vec![1u8; PAGE_SIZE]));
    entries.insert(key(0), Lsn(20), some_edits());
    entries.insert(key(1), Lsn(15), PageVersion::Delta(vec![]));
    let b = Layer::new(42, entries).serialize();
    for n in 0..b.len() {
        assert!(matches!(Layer::deserialize(&b[..n]), Err(PageError::Truncated(_))), "at {n}");
    }
    assert_eq!(Layer::deserialize(&b).unwrap().serialize(), b);
}

#[test]
fn layers_in_order_are_written_as_they_were_read() {
    let mut entries = LsnMap::new();
    entries.insert(key(1), Lsn(15), some_edits());
    entries.insert(key(0), Lsn(20), PageVersion::Delta(vec![]));
    let b = Layer::new(3, entries).serialize();
    let mut read = b.clone();
    read.extend_from_slice(b"behind");
    assert_eq!(Layer::deserialize(&read).unwrap().serialize(), b);
    // Entries in another order are put in order: each takes 25 bytes and its version.
    let first = 17 + 25 + 3;
    let mut turned = b[..17].to_vec();
    turned.extend_from_slice(&b[first..]);
    turned.extend_from_slice(&b[17..first]);
    assert_ne!(turned, b);
    assert_eq!(Layer::deserialize(&turned).unwrap().serialize(), b);
}
