//! What bytes and texts stand for: numbers as bytes, digits, names and paths.
use vstd::prelude::*;

use crate::hashing::{digit_of, hyphenated_number, number_of, uuid_of_text, uuid_text};
use crate::order::{comes_before, sorted_by, stable_order_exists, the_order};
use crate::text::{file_name, hex_char, hex_digits, hex_of, without_suffix};
use crate::wal_store::{
    arrow_path_of, condition_view, create_outcome, expected_version, payload_checked, present,
    put_reply, reports, sidecar_outcome, state_path_of, tombstone_id, tombstone_ids,
    tombstones_path_of, update_outcome, wal_id_keys, Etag, PutCondition, PutReply, StorageError,
    StorageFault, WalStoreError, WriteOutcome,
};
use crate::wire::{le16, le16_bytes, le4, le4_bytes, le8, le8_bytes, signed128};

verus! {

/// A number is read with its least byte first.
pub proof fn the_least_byte_comes_first(s: Seq<u8>, at: int)
    ensures
        le4(s, at) == s[at] + 256 * (s[at + 1] + 256 * (s[at + 2] + 256 * s[at + 3])),
        le8(s, at) == le4(s, at) + 4294967296 * le4(s, at + 4),
        le16(s, at) == le8(s, at) + 18446744073709551616 * le8(s, at + 8),
{
}

/// A number is written with its least byte first.
pub proof fn the_least_byte_is_written_first(x: int)
    requires
        0 <= x < 0x1_0000_0000_0000_0000,
    ensures
        x < 4294967296 ==> {
            let s = le4_bytes(x);
            s.len() == 4 && s[0] + 256 * (s[1] + 256 * (s[2] + 256 * s[3])) == x
        },
        ({
            let s = le8_bytes(x);
            &&& s.len() == 8
            &&& s[0] + 256 * (s[1] + 256 * (s[2] + 256 * s[3])) + 4294967296 * (s[4] + 256 * (s[5] + 256 * (s[6]
                + 256 * s[7]))) == x
        }),
{
    crate::wire::le8_round_trip(x);
    the_least_byte_comes_first(le8_bytes(x), 0);
    the_least_byte_comes_first(le8_bytes(x), 4);
    if x < 4294967296 {
        crate::wire::le4_round_trip(x);
        the_least_byte_comes_first(le4_bytes(x), 0);
    }
}

/// A signed number is written as the unsigned one that is the same modulo the
/// range.
pub proof fn signed_numbers_wrap_around(x: i128, u: int)
    requires
        0 <= u < 0x1_0000_0000_0000_0000_0000_0000_0000_0000,
    ensures
        x >= 0 ==> le16_bytes(x) == le8_bytes(x as int % 0x1_0000_0000_0000_0000) + le8_bytes(
            x as int / 0x1_0000_0000_0000_0000,
        ),
        x < 0 ==> le16(le16_bytes(x), 0) == x + 0x1_0000_0000_0000_0000_0000_0000_0000_0000,
        -0x8000_0000_0000_0000_0000_0000_0000_0000 <= signed128(u)
            <= 0x7fff_ffff_ffff_ffff_ffff_ffff_ffff_ffff,
        signed128(u) == u || signed128(u) == u - 0x1_0000_0000_0000_0000_0000_0000_0000_0000,
{
    crate::wire::le16_round_trip(x);
    crate::wire::le8_range(le16_bytes(x), 0);
    crate::wire::le8_range(le16_bytes(x), 8);
}

/// The digits are `0` to `9` and then `a` to `f`.
pub proof fn digits_are_lower_case(d: int)
    ensures
        hex_char(0) == '0',
        hex_char(9) == '9',
        hex_char(10) == 'a',
        hex_char(15) == 'f',
        0 <= d < 9 || 10 <= d < 15 ==> hex_char(d + 1) as int == hex_char(d) as int + 1,
{
    assert((0 + 48) as char == '0');
    assert((9 + 48) as char == '9');
    assert((10 + 87) as char == 'a');
    assert((15 + 87) as char == 'f');
    assert(0 <= d < 16 ==> (d + 48) as char as int == d + 48);
    assert(0 <= d < 16 ==> (d + 87) as char as int == d + 87);
    assert(0 <= d < 16 ==> (d + 1 + 48) as char as int == d + 1 + 48);
    assert(0 <= d < 16 ==> (d + 1 + 87) as char as int == d + 1 + 87);
}

/// Every byte is written as its high digit and its low one.
pub proof fn bytes_are_written_as_two_digits(bytes: Seq<u8>, i: int)
    requires
        0 <= i < bytes.len(),
    ensures
        hex_of(bytes).len() == 2 * bytes.len(),
        hex_of(bytes)[2 * i] == hex_char(bytes[i] as int / 16),
        hex_of(bytes)[2 * i + 1] == hex_char(bytes[i] as int % 16),
{
}

/// Digits stand for a number as in writing, in either case; another character
/// stands for none.
pub proof fn digits_stand_for_a_number(digits: Seq<char>, c: char, d: int)
    requires
        0 <= d < 16,
    ensures
        digit_of(hex_char(d)) == Some(d),
        10 <= d ==> digit_of((d + 55) as char) == Some(d),
        digit_of(c) matches Some(k) ==> 0 <= k < 16 && (c == hex_char(k) || (k >= 10 && c == (k + 55) as char)),
        number_of(Seq::empty()) == Some(0int),
        number_of(digits.push(c)) is Some <==> number_of(digits) is Some && digit_of(c) is Some,
        number_of(digits.push(c)) matches Some(n) ==> n == number_of(digits)->0 * 16 + digit_of(c)->0,
{
    assert(digits.push(c).drop_last() =~= digits);
    assert((d + 48) as char as int == d + 48);
    assert((d + 87) as char as int == d + 87);
    assert((d + 55) as char as int == d + 55);
    if let Some(k) = digit_of(c) {
        assert((k + 48) as char as int == k + 48);
        assert((k + 87) as char as int == k + 87);
        assert((k + 55) as char as int == k + 55);
    }
}

/// An id's text has its digits in groups of eight, four, four, four and twelve.
pub proof fn ids_are_written_in_five_groups(id: u128)
    ensures
        ({
            let h = hex_digits(id as nat, 32);
            let t = uuid_text(id);
            &&& t.len() == 36
            &&& t[8] == '-' && t[13] == '-' && t[18] == '-' && t[23] == '-'
            &&& t.subrange(0, 8) == h.subrange(0, 8)
            &&& t.subrange(9, 13) == h.subrange(8, 12)
            &&& t.subrange(14, 18) == h.subrange(12, 16)
            &&& t.subrange(19, 23) == h.subrange(16, 20)
            &&& t.subrange(24, 36) == h.subrange(20, 32)
        }),
{
    let h = hex_digits(id as nat, 32);
    let t = uuid_text(id);
    as_many_digits(id as nat, 32);
    assert(t.subrange(0, 8) =~= h.subrange(0, 8));
    assert(t.subrange(9, 13) =~= h.subrange(8, 12));
    assert(t.subrange(14, 18) =~= h.subrange(12, 16));
    assert(t.subrange(19, 23) =~= h.subrange(16, 20));
    assert(t.subrange(24, 36) =~= h.subrange(20, 32));
}

proof fn as_many_digits(v: nat, n: nat)
    ensures
        hex_digits(v, n).len() == n,
    decreases n,
{
    if n > 0 {
        as_many_digits(v / 16, (n - 1) as nat);
    }
}

/// A text is an id when it is 32 digits, or five groups of them, these also in
/// braces or behind `urn:uuid:`.
pub proof fn an_id_is_read_in_four_forms(text: Seq<char>)
    ensures
        text.len() == 32 ==> (uuid_of_text(text) is Some <==> number_of(text) is Some),
        text.len() == 32 ==> (uuid_of_text(text) matches Some(id) ==> id == number_of(text)->0 as u128),
        text.len() == 36 ==> (uuid_of_text(text) is Some <==> hyphenated_number(text) is Some),
        text.len() == 36 ==> (uuid_of_text(text) matches Some(id) ==> id == hyphenated_number(text)->0 as u128),
        text.len() == 36 && !(text[8] == '-' && text[13] == '-' && text[18] == '-' && text[23] == '-')
            ==> uuid_of_text(text) is None,
        text.len() == 38 && text[0] == '{' && text[37] == '}' ==> uuid_of_text(text) == uuid_of_text(
            text.subrange(1, 37),
        ),
        text.len() == 38 && !(text[0] == '{' && text[37] == '}') ==> uuid_of_text(text) is None,
        text.len() == 45 && crate::hashing::is_urn_prefix(text.subrange(0, 9)) ==> uuid_of_text(text)
            == uuid_of_text(text.subrange(9, 45)),
        text.len() == 45 && !crate::hashing::is_urn_prefix(text.subrange(0, 9)) ==> uuid_of_text(text) is None,
        !(text.len() == 32 || text.len() == 36 || text.len() == 38 || text.len() == 45) ==> uuid_of_text(text)
            is None,
{
}

/// A file name is what stands behind the last slash: it has none, and either is the
/// whole or has a slash before it.
pub proof fn a_file_name_is_behind_the_last_slash(s: Seq<char>)
    ensures
        ({
            let n = file_name(s).len();
            &&& n <= s.len()
            &&& file_name(s) == s.skip(s.len() - n)
            &&& forall|i: int| 0 <= i < n ==> (#[trigger] file_name(s)[i]) != '/'
            &&& n == s.len() || s[s.len() - n - 1] == '/'
        }),
    decreases s.len(),
{
    if s.len() > 0 && s.last() != '/' {
        let less = s.drop_last();
        a_file_name_is_behind_the_last_slash(less);
        let n = file_name(less).len();
        assert(file_name(s) =~= s.skip(s.len() - (n + 1)));
        if n < less.len() {
            assert(less[less.len() - n - 1] == s[s.len() - (n + 1) - 1]);
        }
    } else {
        assert(file_name(s) =~= s.skip(s.len() as int));
    }
}

/// A suffix is taken off a text that ends in it, and only off one that does.
pub proof fn a_suffix_is_taken_off(s: Seq<char>, suffix: Seq<char>, stem: Seq<char>)
    ensures
        without_suffix(s, suffix) == Some(stem) <==> s == stem + suffix,
        without_suffix(s, suffix) is None ==> s != stem + suffix,
{
    if s == stem + suffix {
        crate::text::suffix_round_trip(stem, suffix);
    }
    if without_suffix(s, suffix) == Some(stem) {
        assert(s =~= stem + suffix);
    }
}

/// The paths of a mutation's document and payload, and of a file's tombstones.
pub proof fn log_files_have_their_paths(hex: Seq<char>, id: u128)
    ensures
        state_path_of(hex) == "wal/mutations/"@ + hex + ".json"@,
        arrow_path_of(hex) == "wal/mutations/"@ + hex + ".arrow"@,
        tombstones_path_of(id) == "superfiles/"@ + uuid_text(id) + ".tombstones"@,
{
}

/// A write that was made gives its version, an unnamed one as the empty version.
/// A creation that finds the object there says so. An update that finds another
/// version, or no object, lost its race; a sidecar only with another version. Any
/// other failure is one of the storage.
pub proof fn replies_are_told_as_they_are(etag: Seq<char>)
    ensures
        create_outcome(PutReply::Written(Some(etag))) == WriteOutcome::Version(etag),
        create_outcome(PutReply::Written(None)) == WriteOutcome::Version(Seq::empty()),
        create_outcome(PutReply::Failed(StorageFault::PreconditionFailed)) is AlreadyExists,
        create_outcome(PutReply::Failed(StorageFault::NotFound)) is Storage,
        create_outcome(PutReply::Failed(StorageFault::Other)) is Storage,
        update_outcome(PutReply::Written(Some(etag))) == WriteOutcome::Version(etag),
        update_outcome(PutReply::Written(None)) == WriteOutcome::Version(Seq::empty()),
        update_outcome(PutReply::Failed(StorageFault::PreconditionFailed)) is CasFailed,
        update_outcome(PutReply::Failed(StorageFault::NotFound)) is CasFailed,
        update_outcome(PutReply::Failed(StorageFault::Other)) is Storage,
        sidecar_outcome(PutReply::Written(Some(etag))) == WriteOutcome::Version(etag),
        sidecar_outcome(PutReply::Written(None)) == WriteOutcome::Version(Seq::empty()),
        sidecar_outcome(PutReply::Failed(StorageFault::PreconditionFailed)) is CasFailed,
        sidecar_outcome(PutReply::Failed(StorageFault::NotFound)) is Storage,
        sidecar_outcome(PutReply::Failed(StorageFault::Other)) is Storage,
        etag.len() > 0 ==> expected_version(Some(etag)) == Some(etag),
        expected_version(Some(Seq::empty())) is None,
        expected_version(None) is None,
{
}

/// The ids that were read are listed in order, the least first.
pub proof fn log_ids_are_listed_in_order(found: Seq<Option<i128>>)
    requires
        found.len() <= usize::MAX,
    ensures
        present(found) == found.filter(|id: Option<i128>| id is Some).map_values(|id: Option<i128>| id->0),
        ({
            let ids = present(found);
            let out = sorted_by(ids, wal_id_keys(ids));
            &&& out.to_multiset() =~= ids.to_multiset()
            &&& forall|i: int, j: int|
                0 <= i < j < out.len() ==> (#[trigger] out[i]) <= (#[trigger] out[j])
        }),
{
    only_read_ids_are_present(found);
    let ids = present(found);
    let keys = wal_id_keys(ids);
    found.lemma_filter_len(|id: Option<i128>| id is Some);
    crate::order::sorted_by_keeps_items(ids, keys);
    stable_order_exists(keys);
    let order = the_order(keys);
    let out = sorted_by(ids, keys);
    assert forall|i: int, j: int| 0 <= i < j < out.len() implies (#[trigger] out[i]) <= (#[trigger] out[j]) by {
        assert(comes_before(keys, order[i] as int, order[j] as int));
        assert(keys[order[i] as int] == (out[i], 0u128));
        assert(keys[order[j] as int] == (out[j], 0u128));
    }
}

proof fn only_read_ids_are_present(found: Seq<Option<i128>>)
    ensures
        present(found) =~= found.filter(|id: Option<i128>| id is Some).map_values(|id: Option<i128>| id->0),
    decreases found.len(),
{
    reveal(Seq::filter);
    if found.len() > 0 {
        only_read_ids_are_present(found.drop_last());
    }
}

/// A path stands for a file's tombstones when its name is an id with the suffix;
/// other paths are passed over.
pub proof fn tombstones_are_found_by_name(paths: Seq<String>, path: String)
    ensures
        tombstone_ids(Seq::empty()).len() == 0,
        tombstone_id(path@) matches Some(id) ==> tombstone_ids(paths.push(path)) == tombstone_ids(paths).push(id),
        tombstone_id(path@) is None ==> tombstone_ids(paths.push(path)) == tombstone_ids(paths),
        without_suffix(file_name(path@), ".tombstones"@) is None ==> tombstone_id(path@) is None,
        without_suffix(file_name(path@), ".tombstones"@) matches Some(stem) ==> tombstone_id(path@) == uuid_of_text(
            stem,
        ),
{
    assert(paths.push(path).drop_last() =~= paths);
}

/// A storage's reply is taken over as it is, and so is a condition.
pub proof fn storage_replies_are_taken_over(etag: Etag, error: StorageError)
    ensures
        put_reply(Ok(Some(etag))) == PutReply::Written(Some(etag@)),
        put_reply(Ok(None)) == PutReply::Written(None),
        put_reply(Err(error)) == PutReply::Failed(error.fault),
        condition_view(PutCondition::Absent) is None,
        condition_view(PutCondition::Version(etag)) == Some(etag@),
{
}

/// A write's outcome is reported as it is: its version, or a failure that names the
/// path, with the storage's own error where it is one.
pub proof fn outcomes_are_reported_with_their_path(
    result: Result<Etag, WalStoreError>,
    outcome: WriteOutcome,
    path: Seq<char>,
    reply: Result<Option<Etag>, StorageError>,
)
    requires
        reports(result, outcome, path, reply),
    ensures
        result is Ok <==> outcome is Version,
        outcome matches WriteOutcome::Version(v) ==> result->Ok_0@ == v,
        outcome is AlreadyExists ==> (result matches Err(WalStoreError::AlreadyExists { path: p }) && p@ == path),
        outcome is CasFailed ==> (result matches Err(WalStoreError::CasFailed { path: p }) && p@ == path),
        outcome is Storage ==> (result matches Err(WalStoreError::Storage { path: p, source }) && p@ == path && source
            == reply->Err_0),
{
}

/// A payload is handed out when no hash is asked for or the hash is the one that is;
/// else both are reported.
pub proof fn a_payload_is_handed_out_with_its_hash(
    result: Result<&[u8], WalStoreError>,
    path: Seq<char>,
    want: Option<Seq<char>>,
    got: Seq<char>,
    bytes: Seq<u8>,
)
    requires
        payload_checked(result, path, want, got, bytes),
    ensures
        result is Ok <==> want is None || want == Some(got),
        result matches Ok(b) ==> b@ == bytes,
        result matches Err(e) ==> (e matches WalStoreError::SidecarContentHashMismatch { path: p, expected, got: g }
            && p@ == path && Some(expected@) == want && g@ == got),
{
}

} // verus!
