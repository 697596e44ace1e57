//! Identifiers, positions and page addresses.

use std::collections::{BTreeSet, HashSet};

use aetheldb::common::error::Error;
use aetheldb::common::ids::{TenantId, TimelineId};
use aetheldb::common::lsn::Lsn;
use aetheldb::common::page::{ForkNumber, PageKey, RelTag, PAGE_SIZE};

#[test]
fn display_is_32_lowercase_hex() {
    let id = TenantId::from_bytes([0xAB; 16]);
    let s = id.to_string();
    assert_eq!(s.len(), 32);
    assert_eq!(s, "abababababababababababababababab");
}

#[test]
fn parse_round_trips() {
    let id = TimelineId::from_bytes([
        0x00, 0x11, 0x22, 0x33, 0x44, 0x55, 0x66, 0x77, 0x88, 0x99, 0xaa, 0xbb, 0xcc, 0xdd, 0xee,
        0xff,
    ]);
    let parsed: TimelineId = id.to_string().parse().unwrap();
    assert_eq!(parsed, id);
}

#[test]
fn parse_rejects_bad_length_and_chars() {
    assert!("abc".parse::<TenantId>().is_err());
    assert!("zz000000000000000000000000000000".parse::<TenantId>().is_err());
}

#[test]
fn ids_read_both_cases_and_tell_themselves_apart() {
    let lower: TenantId = "00ff00ff00ff00ff00ff00ff00ff00ff".parse().unwrap();
    let upper: TenantId = "00FF00FF00FF00FF00FF00FF00FF00FF".parse().unwrap();
    assert_eq!(lower, upper);
    assert!(lower.same(&upper));
    assert!(!lower.same(&TenantId::zero()));
    assert_eq!(lower.as_bytes()[1], 0xff);
    assert_eq!(TenantId::zero().to_string(), "00000000000000000000000000000000");
    // A sign is no hexadecimal digit, but `+f` reads as one byte.
    let signed: TenantId = "+f000000000000000000000000000000".parse().unwrap();
    assert_eq!(signed.as_bytes()[0], 0x0f);
    assert!("-f000000000000000000000000000000".parse::<TenantId>().is_err());
}

#[test]
fn ids_of_another_script_are_refused() {
    // Thirty-two bytes, but no hexadecimal digits.
    let text: String = std::iter::repeat('\u{e9}').take(16).collect();
    assert_eq!(text.len(), 32);
    assert!(text.parse::<TimelineId>().is_err());
}

#[test]
fn distinct_ids_have_distinct_texts() {
    let a = TimelineId::from_bytes([1; 16]);
    let mut bytes = [1u8; 16];
    bytes[15] = 2;
    let b = TimelineId::from_bytes(bytes);
    assert_ne!(a, b);
    assert_ne!(a.to_string(), b.to_string());
    assert_eq!(TimelineId::zero(), TimelineId::from_bytes([0; 16]));
    let set: HashSet<TimelineId> = [a, b, a].into_iter().collect();
    assert_eq!(set.len(), 2);
}

#[test]
fn display_matches_postgres_format() {
    // 0x16 << 32 | 0xB374D848 == 0x16B374D848
    let lsn = Lsn(0x0000_0016_B374_D848);
    assert_eq!(lsn.to_string(), "16/B374D848");
}

#[test]
fn parse_round_trips_through_display() {
    for raw in [0u64, 1, 0xB374D848, 0x0000_0016_B374_D848, u64::MAX] {
        let lsn = Lsn(raw);
        let parsed: Lsn = lsn.to_string().parse().expect("round trip");
        assert_eq!(parsed, lsn, "raw={raw:#x}");
    }
}

#[test]
fn parse_rejects_garbage() {
    assert!("not-an-lsn".parse::<Lsn>().is_err());
    assert!("16".parse::<Lsn>().is_err()); // missing separator
    assert!("ZZ/00".parse::<Lsn>().is_err()); // non-hex
}

#[test]
fn positions_are_read_half_by_half() {
    assert_eq!("0/0".parse::<Lsn>().unwrap(), Lsn(0));
    assert_eq!("a/ff".parse::<Lsn>().unwrap(), Lsn(0xA_0000_00FF));
    assert!("1/100000000".parse::<Lsn>().is_err());
    assert!("/1".parse::<Lsn>().is_err());
    assert!("1/".parse::<Lsn>().is_err());
    assert!("1/2/3".parse::<Lsn>().is_err());
}

#[test]
fn validity_and_alignment() {
    assert!(!Lsn::invalid().is_valid());
    assert!(Lsn(1).is_valid());
    assert_eq!(Lsn(8193).align_down(8192), Lsn(8192));
    assert_eq!(Lsn(8192).align_down(8192), Lsn(8192));
}

#[test]
fn positions_add_without_wrapping() {
    assert_eq!(Lsn(40).checked_add(2), Some(Lsn(42)));
    assert_eq!(Lsn(u64::MAX).checked_add(1), Some(Lsn(u64::MAX)));
    assert_eq!(Lsn(u64::MAX - 1).checked_add(1), Some(Lsn(u64::MAX)));
    assert_eq!(Lsn(u64::MAX - 5).checked_add(u64::MAX), Some(Lsn(u64::MAX)));
    assert_eq!(Lsn(7).raw(), 7);
    assert!(Lsn(1) < Lsn(2));
}

#[test]
fn errors_say_what_they_are() {
    assert_eq!(Error::parse("boom".to_string()).to_string(), "parse error: boom");
}

#[test]
fn fork_number_round_trips() {
    for raw in 0..=3u8 {
        let fork = ForkNumber::from_raw(raw).unwrap();
        assert_eq!(fork as u8, raw);
        assert_eq!(fork.to_raw(), raw);
    }
    assert!(ForkNumber::from_raw(99).is_none());
}

#[test]
fn page_keys_are_orderable_and_hashable() {
    let rel = RelTag { spc_node: 1663, db_node: 5, rel_node: 16384, fork: ForkNumber::Main };
    let a = PageKey::new(rel, 0);
    let b = PageKey::new(rel, 1);
    assert!(a < b);
    let set: BTreeSet<_> = [b, a].into_iter().collect();
    // BTreeSet must order them by block number.
    assert_eq!(set.into_iter().collect::<Vec<_>>(), vec![a, b]);
}

#[test]
fn page_keys_order_field_by_field() {
    let rel = |spc_node, db_node, rel_node, fork| RelTag { spc_node, db_node, rel_node, fork };
    let keys = [
        PageKey::new(rel(1, 9, 9, ForkNumber::Init), 9),
        PageKey::new(rel(2, 1, 9, ForkNumber::Init), 9),
        PageKey::new(rel(2, 2, 1, ForkNumber::Init), 9),
        PageKey::new(rel(2, 2, 2, ForkNumber::Main), 9),
        PageKey::new(rel(2, 2, 2, ForkNumber::Fsm), 0),
        PageKey::new(rel(2, 2, 2, ForkNumber::Fsm), 1),
    ];
    for i in 0..keys.len() {
        for j in 0..keys.len() {
            assert_eq!(keys[i].precedes(&keys[j]), i < j);
            assert_eq!(keys[i] < keys[j], i < j);
        }
    }
    assert_eq!(PAGE_SIZE, 8192);
}
