//! Content hashes and identifiers.
use vstd::prelude::*;

use crate::text::{hex_char, hex_char_tells_apart, hex_digits, hex_of};

verus! {

/// The 32 bytes of the BLAKE3 hash of a byte string.
pub uninterp spec fn blake3_digest(bytes: Seq<u8>) -> Seq<u8>;

/// `blake3::hash`: the 32-byte hash of the input, a function of the input
/// alone.
#[verifier::external_body]
pub(crate) fn blake3_hash(bytes: &[u8]) -> (digest: [u8; 32])
    ensures
        digest@ == blake3_digest(bytes@),
{
    *blake3::hash(bytes).as_bytes()
}

/// `blake3::Hash::to_hex` of `blake3::hash`: the hash of the input as
/// lower-case hexadecimal digits, two for each byte.
#[verifier::external_body]
pub(crate) fn blake3_hash_hex(bytes: &[u8]) -> (hex: String)
    ensures
        hex@ == hex_of(blake3_digest(bytes@)),
{
    blake3::hash(bytes).to_hex().to_string()
}

/// The hyphenated text of a UUID: 32 lower-case hexadecimal digits in groups of
/// eight, four, four, four and twelve.
pub open spec fn uuid_text(id: u128) -> Seq<char> {
    let h = hex_digits(id as nat, 32);
    h.subrange(0, 8).push('-') + h.subrange(8, 12).push('-') + h.subrange(12, 16).push('-')
        + h.subrange(16, 20).push('-') + h.subrange(20, 32)
}

/// Sixteen to the power of `n`.
spec fn pow16(n: nat) -> nat
    decreases n,
{
    if n == 0 {
        1
    } else {
        16 * pow16((n - 1) as nat)
    }
}

proof fn hex_digits_len(v: nat, n: nat)
    ensures
        hex_digits(v, n).len() == n,
    decreases n,
{
    if n > 0 {
        hex_digits_len(v / 16, (n - 1) as nat);
    }
}

proof fn hex_digits_tell_apart(v: nat, w: nat, n: nat)
    requires
        v < pow16(n),
        w < pow16(n),
        hex_digits(v, n) == hex_digits(w, n),
    ensures
        v == w,
    decreases n,
{
    if n > 0 {
        let m = (n - 1) as nat;
        let a = hex_digits(v / 16, m);
        let b = hex_digits(w / 16, m);
        let x = hex_char((v % 16) as int);
        let y = hex_char((w % 16) as int);
        assert(a.push(x).last() == b.push(y).last());
        assert(a.push(x).drop_last() =~= a);
        assert(b.push(y).drop_last() =~= b);
        hex_char_tells_apart((v % 16) as int, (w % 16) as int);
        hex_digits_tell_apart(v / 16, w / 16, m);
    }
}

/// Different ids have different texts.
pub proof fn uuid_text_is_unique(a: u128, b: u128)
    requires
        uuid_text(a) == uuid_text(b),
    ensures
        a == b,
{
    let g = hex_digits(a as nat, 32);
    let h = hex_digits(b as nat, 32);
    let s = uuid_text(a);
    let t = uuid_text(b);
    hex_digits_len(a as nat, 32);
    hex_digits_len(b as nat, 32);
    assert forall|i: int| 0 <= i < 32 implies g[i] == h[i] by {
        let at = if i < 8 {
            i
        } else if i < 12 {
            i + 1
        } else if i < 16 {
            i + 2
        } else if i < 20 {
            i + 3
        } else {
            i + 4
        };
        assert(s[at] == g[i]);
        assert(t[at] == h[i]);
    }
    assert(g =~= h);
    reveal_with_fuel(pow16, 33);
    assert(pow16(32) == 0x1_0000_0000_0000_0000_0000_0000_0000_0000);
    hex_digits_tell_apart(a as nat, b as nat, 32);
}

/// `Display` of `uuid::Uuid::from_u128`: the hyphenated lower-case text of the
/// number, most significant digit first.
#[verifier::external_body]
pub(crate) fn uuid_to_text(id: u128) -> (text: String)
    ensures
        text@ == uuid_text(id),
{
    uuid::Uuid::from_u128(id).to_string()
}

/// The number that a hexadecimal digit of either case stands for.
pub open spec fn digit_of(c: char) -> Option<int> {
    if '0' <= c <= '9' {
        Some(c as int - 48)
    } else if 'a' <= c <= 'f' {
        Some(c as int - 87)
    } else if 'A' <= c <= 'F' {
        Some(c as int - 55)
    } else {
        None
    }
}

/// The number that hexadecimal digits stand for, the most significant first;
/// `None` when a character is no digit.
pub open spec fn number_of(digits: Seq<char>) -> Option<int>
    decreases digits.len(),
{
    if digits.len() == 0 {
        Some(0)
    } else {
        match (number_of(digits.drop_last()), digit_of(digits.last())) {
            (Some(n), Some(d)) => Some(16 * n + d),
            _ => None,
        }
    }
}

/// The number of a text of 36 characters with hyphens after the eighth, the
/// twelfth, the sixteenth and the twentieth digit.
pub open spec fn hyphenated_number(s: Seq<char>) -> Option<int> {
    if s.len() == 36 && s[8] == '-' && s[13] == '-' && s[18] == '-' && s[23] == '-' {
        number_of(
            s.subrange(0, 8) + s.subrange(9, 13) + s.subrange(14, 18) + s.subrange(19, 23) + s.subrange(
                24,
                36,
            ),
        )
    } else {
        None
    }
}

/// The nine characters are `urn:uuid:`, in either case.
pub open spec fn is_urn_prefix(s: Seq<char>) -> bool {
    &&& s.len() == 9
    &&& s[0] == 'u' || s[0] == 'U'
    &&& s[1] == 'r' || s[1] == 'R'
    &&& s[2] == 'n' || s[2] == 'N'
    &&& s[3] == ':'
    &&& s[4] == 'u' || s[4] == 'U'
    &&& s[5] == 'u' || s[5] == 'U'
    &&& s[6] == 'i' || s[6] == 'I'
    &&& s[7] == 'd' || s[7] == 'D'
    &&& s[8] == ':'
}

/// The UUID that a text stands for: 32 digits, or the hyphenated text, which may
/// stand in braces or after `urn:uuid:`.
pub open spec fn uuid_of_text(text: Seq<char>) -> Option<u128> {
    let n = if text.len() == 32 {
        number_of(text)
    } else if text.len() == 38 && text[0] == '{' && text[37] == '}' {
        hyphenated_number(text.subrange(1, 37))
    } else if text.len() == 45 && is_urn_prefix(text.subrange(0, 9)) {
        hyphenated_number(text.subrange(9, 45))
    } else {
        hyphenated_number(text)
    };
    match n {
        Some(v) => Some(v as u128),
        None => None,
    }
}

proof fn digit_round_trip(d: int)
    requires
        0 <= d < 16,
    ensures
        digit_of(hex_char(d)) == Some(d),
{
    assert((d + 48) as char as int == d + 48);
    assert((d + 87) as char as int == d + 87);
}

proof fn number_round_trip(v: nat, n: nat)
    requires
        v < pow16(n),
    ensures
        number_of(hex_digits(v, n)) == Some(v as int),
    decreases n,
{
    if n > 0 {
        let m = (n - 1) as nat;
        let rest = hex_digits(v / 16, m);
        number_round_trip(v / 16, m);
        digit_round_trip((v % 16) as int);
        assert(hex_digits(v, n).drop_last() =~= rest);
        assert(hex_digits(v, n).last() == hex_char((v % 16) as int));
    }
}

/// The text of an id stands for the id.
pub proof fn uuid_text_round_trip(id: u128)
    ensures
        uuid_of_text(uuid_text(id)) == Some(id),
{
    let h = hex_digits(id as nat, 32);
    let s = uuid_text(id);
    hex_digits_len(id as nat, 32);
    assert(s.len() == 36);
    assert(s[8] == '-' && s[13] == '-' && s[18] == '-' && s[23] == '-');
    assert(s.subrange(0, 8) + s.subrange(9, 13) + s.subrange(14, 18) + s.subrange(19, 23) + s.subrange(
        24,
        36,
    ) =~= h);
    reveal_with_fuel(pow16, 33);
    assert(pow16(32) == 0x1_0000_0000_0000_0000_0000_0000_0000_0000);
    number_round_trip(id as nat, 32);
}

/// `uuid::Uuid::parse_str` then `as_u128`: takes 32 hexadecimal digits of either
/// case, plain or hyphenated, the hyphenated text also in braces or after
/// `urn:uuid:`, and refuses every other text.
#[verifier::external_body]
pub(crate) fn parse_uuid(text: &str) -> (id: Option<u128>)
    ensures
        id == uuid_of_text(text@),
{
    uuid::Uuid::parse_str(text).ok().map(|u| u.as_u128())
}

} // verus!
