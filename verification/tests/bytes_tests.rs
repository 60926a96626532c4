//! Tests for the byte-level helpers.

use markex::tag::attrs::same_bytes;
use markex::tag::bytes::{find, find_byte, is_space_byte, matches_at, skip_space, trim_bounds};

#[test]
fn test_matches_at() {
	assert!(matches_at(b"hello", b"ell", 1));
	assert!(!matches_at(b"hello", b"ell", 0));
	assert!(matches_at(b"hello", b"hello", 0));
	assert!(!matches_at(b"hello", b"hello!", 0));
	assert!(!matches_at(b"hello", b"lo", 4));
	assert!(!matches_at(b"hello", b"o", 5));
	assert!(!matches_at(b"hello", b"o", usize::MAX));
	// The empty pattern stands at each index up to the length.
	assert!(matches_at(b"hello", b"", 0));
	assert!(matches_at(b"hello", b"", 5));
	assert!(!matches_at(b"hello", b"", 6));
	assert!(matches_at(b"", b"", 0));
}

#[test]
fn test_find() {
	assert_eq!(find(b"abcabc", b"bc", 0), Some(1));
	assert_eq!(find(b"abcabc", b"bc", 1), Some(1));
	assert_eq!(find(b"abcabc", b"bc", 2), Some(4));
	assert_eq!(find(b"abcabc", b"bc", 5), None);
	assert_eq!(find(b"abcabc", b"bd", 0), None);
	assert_eq!(find(b"abc", b"abcd", 0), None);
	assert_eq!(find(b"abc", b"c", 3), None);
	assert_eq!(find(b"abc", b"c", usize::MAX), None);
	assert_eq!(find(b"aaa", b"aa", 0), Some(0));
	assert_eq!(find(b"aaa", b"aa", 1), Some(1));
	assert_eq!(find(b"abc", b"", 2), Some(2));
	assert_eq!(find(b"abc", b"", 3), Some(3));
	assert_eq!(find(b"abc", b"", 4), None);
	assert_eq!(find(b"", b"a", 0), None);
}

#[test]
fn test_find_byte() {
	assert_eq!(find_byte(b"a>b>c", b'>', 0), Some(1));
	assert_eq!(find_byte(b"a>b>c", b'>', 1), Some(1));
	assert_eq!(find_byte(b"a>b>c", b'>', 2), Some(3));
	assert_eq!(find_byte(b"a>b>c", b'>', 4), None);
	assert_eq!(find_byte(b"a>b>c", b'>', 100), None);
	assert_eq!(find_byte(b"", b'>', 0), None);
}

#[test]
fn test_is_space_byte() {
	for b in [b' ', b'\t', b'\n', 0x0Bu8, 0x0Cu8, b'\r'] {
		assert!(is_space_byte(b));
	}
	for b in [0u8, 0x08, 0x0E, 0x1F, b'a', b'=', b'>', 0x7F, 0x85, 0xA0, 0xFF] {
		assert!(!is_space_byte(b));
	}
}

#[test]
fn test_skip_space() {
	assert_eq!(skip_space(b"  a b", 0), 2);
	assert_eq!(skip_space(b"  a b", 2), 2);
	assert_eq!(skip_space(b"  a b", 3), 4);
	assert_eq!(skip_space(b" \t\r\n", 0), 4);
	assert_eq!(skip_space(b"ab", 2), 2);
	assert_eq!(skip_space(b"ab", 7), 7);
}

#[test]
fn test_trim_bounds() {
	assert_eq!(trim_bounds(b"  a b \n"), (2, 5));
	assert_eq!(trim_bounds(b"a b"), (0, 3));
	assert_eq!(trim_bounds(b" \t "), (3, 3));
	assert_eq!(trim_bounds(b""), (0, 0));
	assert_eq!(trim_bounds(b"x"), (0, 1));
}

#[test]
fn test_same_bytes() {
	assert!(same_bytes("", ""));
	assert!(same_bytes("clé", "clé"));
	assert!(!same_bytes("cle", "clé"));
	assert!(!same_bytes("a", "ab"));
	assert!(!same_bytes("ab", "a"));
	assert!(!same_bytes("A", "a"));
}
