//! Numbers in bytes, and texts.

use aetheldb::aethelctl::deploy::{helm_args, DeployOpts};
use aetheldb::bytes::{
    be_u16, be_u32, be_u64, copy_bytes, copy_range, le_u16, le_u32, put_be_u16, put_be_u32,
    put_be_u64, put_slice, read_16, same_bytes,
};
use aetheldb::pageserver::catalog::{Catalog, CATALOG_KEY};
use aetheldb::pageserver::repository::CompactionStats;
use aetheldb::text::{
    chars_of, has_prefix, has_text, lines_of, pieces_of, push_decimal, push_digits,
    push_hex_fixed, push_signed, read_uint, same_text, split_once_at, string_of, to_lower, trimmed,
    without_prefix, without_suffix, without_trailing, words_of, IntError,
};

#[test]
fn numbers_round_trip_through_bytes() {
    let mut b = Vec::new();
    put_be_u16(&mut b, 0x0102);
    put_be_u32(&mut b, 0x03040506);
    put_be_u64(&mut b, 0x0708_090A_0B0C_0D0E);
    assert_eq!(b, (1..=14).collect::<Vec<u8>>());
    assert_eq!(be_u16(&b, 0), 0x0102);
    assert_eq!(be_u32(&b, 2), 0x03040506);
    assert_eq!(be_u64(&b, 6), 0x0708_090A_0B0C_0D0E);
    assert_eq!(le_u16(&b, 0), 0x0201);
    assert_eq!(le_u32(&b, 2), 0x06050403);
    for n in [0u64, 1, 255, 256, u64::MAX] {
        let mut b = vec![9];
        put_be_u64(&mut b, n);
        assert_eq!(be_u64(&b, 1), n);
    }
}

#[test]
fn bytes_are_copied() {
    let b: Vec<u8> = (0..20).collect();
    assert_eq!(copy_range(&b, 3, 6), vec![3, 4, 5]);
    assert_eq!(copy_bytes(&b), b);
    assert_eq!(read_16(&b, 2)[15], 17);
    let mut c = vec![7];
    put_slice(&mut c, &b[..2]);
    assert_eq!(c, vec![7, 0, 1]);
    assert!(same_bytes(&[1, 2], &[1, 2]));
    assert!(!same_bytes(&[1, 2], &[1, 3]));
    assert!(!same_bytes(&[1, 2], &[1]));
}

fn written(n: u64, radix: u64, upper: bool) -> String {
    let mut s = String::new();
    push_digits(&mut s, n, radix, upper);
    s
}

fn read(s: &str, radix: u64, max: u64) -> Result<u64, IntError> {
    read_uint(&chars_of(s), radix, max)
}

#[test]
fn numbers_round_trip_through_text() {
    for n in [0u64, 9, 10, 255, 65536, u64::MAX] {
        assert_eq!(written(n, 10, false), n.to_string());
        assert_eq!(written(n, 16, false), format!("{n:x}"));
        assert_eq!(written(n, 16, true), format!("{n:X}"));
        assert_eq!(read(&n.to_string(), 10, u64::MAX).ok(), Some(n));
        assert_eq!(read(&format!("{n:X}"), 16, u64::MAX).ok(), Some(n));
    }
    let mut s = String::from("n=");
    push_decimal(&mut s, 12);
    push_signed(&mut s, -3);
    push_signed(&mut s, i64::MIN);
    push_hex_fixed(&mut s, 0xab, 4);
    assert_eq!(s, "n=12-3-922337203685477580800ab");
}

#[test]
fn numbers_are_read_as_std_reads_them() {
    for t in ["", "+", "-", "-1", "+7", "007", "256", "255", "1a", "99999999999999999999", " 1"] {
        assert_eq!(read(t, 10, 255).ok(), t.parse::<u8>().ok().map(|n| n as u64), "{t:?}");
        assert_eq!(read(t, 10, u64::MAX).ok(), t.parse::<u64>().ok(), "{t:?}");
        let hex = u32::from_str_radix(t, 16).ok().map(|n| n as u64);
        assert_eq!(read(t, 16, u32::MAX as u64).ok(), hex, "{t:?}");
    }
}

#[test]
fn texts_are_cut_as_std_cuts_them() {
    for t in ["", " ", "a", " a  b\tc ", "\u{a0}x\u{2003}", "a=b=c", "=", "x\r\ny\r\n", "a\nb"] {
        let c = chars_of(t);
        assert_eq!(string_of(&c), t);
        assert_eq!(string_of(trimmed(&c)), t.trim());
        assert_eq!(words_of(&c), t.split_whitespace().collect::<Vec<_>>());
        assert_eq!(pieces_of(&c, '='), t.split('=').collect::<Vec<_>>());
        assert_eq!(lines_of(&c), t.split("\r\n").collect::<Vec<_>>());
        let once = split_once_at(&c, '=').map(|(a, b)| (string_of(a), string_of(b)));
        assert_eq!(once, t.split_once('=').map(|(a, b)| (a.to_string(), b.to_string())));
        assert_eq!(string_of(&to_lower(&c)), t.to_ascii_lowercase());
        assert_eq!(without_trailing(t, ' '), t.trim_end_matches(' '));
    }
    assert!(has_prefix(&chars_of("abc"), &chars_of("ab")));
    assert!(!has_prefix(&chars_of("a"), &chars_of("ab")));
    assert!(has_text(&chars_of("abc"), &chars_of("bc")));
    assert!(has_text(&chars_of("abc"), &[]));
    assert!(!has_text(&chars_of("abc"), &chars_of("cb")));
    assert_eq!(without_prefix("/a/b", "/a"), Some("/b".to_string()));
    assert_eq!(without_prefix("/a/b", "b"), None);
    assert_eq!(without_suffix("/a/b", "/b"), Some("/a".to_string()));
    assert_eq!(without_suffix("b", "/b"), None);
    assert!(same_text("\u{e9}", "\u{e9}") && !same_text("e", "\u{e9}"));
}

#[test]
fn defaults_are_empty() {
    assert_eq!(CompactionStats::default().removed_layer_ids.len(), 0);
    assert_eq!(Catalog::default(), Catalog { version: 0, tenants: vec![] });
    assert_eq!(CATALOG_KEY, "catalog/topology.json");
    let args = helm_args(&DeployOpts::default(), "c");
    assert_eq!(args, vec!["upgrade", "--install", "", "c", "--namespace", "", "--create-namespace"]);
}
