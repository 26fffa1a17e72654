use supertable::arith::{div_ceil_usize, saturating_mul_u64, saturating_mul_usize};
use supertable::order::stable_order;
use supertable::text::{char_list, file_stem, join3, same_text, string_of};
use supertable::wire::{
    copy_range, i128_at, push_bytes, push_i128_le, push_u32_le, push_u64_le, read_u32_le,
    read_u64_le, u32_at, u64_at,
};

#[test]
fn numbers_read_back_as_they_were_written() {
    let mut out = vec![9u8];
    push_u32_le(&mut out, 0x0102_0304);
    push_u64_le(&mut out, u64::MAX - 1);
    push_i128_le(&mut out, -2);
    push_i128_le(&mut out, i128::MIN);
    push_bytes(&mut out, &[1, 2]);
    assert_eq!(out.len(), 1 + 4 + 8 + 16 + 16 + 2);
    assert_eq!(&out[1..5], &0x0102_0304u32.to_le_bytes());
    assert_eq!(&out[13..29], &(-2i128).to_le_bytes());
    assert_eq!(u32_at(&out, 1), 0x0102_0304);
    assert_eq!(u64_at(&out, 5), u64::MAX - 1);
    assert_eq!(i128_at(&out, 13), -2);
    assert_eq!(i128_at(&out, 29), i128::MIN);
    assert_eq!(read_u32_le(&out[1..5]), 0x0102_0304);
    assert_eq!(read_u64_le(&out[5..13]), u64::MAX - 1);
    assert_eq!(copy_range(&out, 45, 47), vec![1, 2]);
}

#[test]
fn equal_keys_keep_their_order() {
    assert_eq!(stable_order(&vec![(1, 0), (0, 5), (1, 0), (0, 4), (-1, 9)]), vec![4, 3, 1, 0, 2]);
    assert!(stable_order(&vec![]).is_empty());
}

#[test]
fn products_and_quotients_stay_in_range() {
    assert_eq!(saturating_mul_usize(usize::MAX, 2), usize::MAX);
    assert_eq!(saturating_mul_usize(6, 7), 42);
    assert_eq!(saturating_mul_u64(1 << 40, 1 << 40), u64::MAX);
    assert_eq!(saturating_mul_u64(6, 7), 42);
    assert_eq!(div_ceil_usize(7, 3), 3);
    assert_eq!(div_ceil_usize(6, 3), 2);
    assert_eq!(div_ceil_usize(0, 3), 0);
}

#[test]
fn file_names_and_suffixes() {
    assert_eq!(file_stem("a/b/c.json", ".json"), Some("c".to_string()));
    assert_eq!(file_stem("c.json", ".json"), Some("c".to_string()));
    assert_eq!(file_stem("a.json/c", ".json"), None);
    assert_eq!(file_stem("a/.json", ".json"), Some(String::new()));
    assert_eq!(join3("a", "", "c"), "ac");
    assert!(same_text("ab", "ab"));
    assert!(!same_text("ab", "abc"));
    let chars = char_list("caf\u{e9}s");
    assert_eq!(chars.len(), 5);
    assert_eq!(string_of(&chars, 1, 4), "af\u{e9}");
}
