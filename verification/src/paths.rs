//! File names: how a context's name becomes a file stem, and what the files
//! beside it are called. Every name here is relative to the data directory.
use crate::names;
use crate::names::is_before;
use crate::picking;
use crate::text;
use crate::text::same;
use vstd::prelude::*;

verus! {

/// A string from its UTF-8 bytes: [`String::from_utf8`] gives one exactly
/// for valid UTF-8, and then the string that the bytes encode.
#[verifier::external_body]
fn utf8_string(bytes: Vec<u8>) -> (res: Option<String>)
    ensures
        res is Some == vstd::utf8::valid_utf8(bytes@),
        res matches Some(s) ==> s@ == vstd::utf8::decode_utf8(bytes@),
{
    String::from_utf8(bytes).ok()
}

/// A byte that stands for itself in a stem.
pub open spec fn is_plain(b: u8) -> bool {
    (97 <= b <= 122) || (65 <= b <= 90) || (48 <= b <= 57) || b == 45 || b == 95
}

/// The upper-case hexadecimal digit of a value below sixteen.
pub open spec fn upper_hex(n: int) -> u8 {
    if n < 10 {
        (48 + n) as u8
    } else {
        (55 + n) as u8
    }
}

/// How one byte of a name is written: as itself, or as a percent sign and
/// two hexadecimal digits.
pub open spec fn encoded_byte(b: u8) -> Seq<u8> {
    if is_plain(b) {
        seq![b]
    } else {
        seq![37u8, upper_hex(b as int / 16), upper_hex(b as int % 16)]
    }
}

/// How the bytes of a name are written.
pub open spec fn encoded(bytes: Seq<u8>) -> Seq<u8>
    decreases bytes.len(),
{
    if bytes.len() == 0 {
        Seq::empty()
    } else {
        encoded_byte(bytes[0]) + encoded(bytes.drop_first())
    }
}

/// The characters of ASCII bytes.
pub open spec fn ascii(bytes: Seq<u8>) -> Seq<char> {
    bytes.map_values(|b: u8| b as char)
}

/// A context's file stem.
pub open spec fn stem_of(name: Seq<char>) -> Seq<char> {
    ascii(encoded(vstd::utf8::encode_utf8(name)))
}

/// The value of a hexadecimal digit, in either case.
pub open spec fn hex_value(b: u8) -> Option<u8> {
    if 48 <= b <= 57 {
        Some((b - 48) as u8)
    } else if 65 <= b <= 70 {
        Some((b - 55) as u8)
    } else if 97 <= b <= 102 {
        Some((b - 87) as u8)
    } else {
        None
    }
}

/// The byte that the two digits behind a percent sign stand for.
pub open spec fn pair_value(high: u8, low: u8) -> Option<u8> {
    match (hex_value(high), hex_value(low)) {
        (Some(h), Some(l)) => Some((h * 16 + l) as u8),
        _ => None,
    }
}

/// The bytes that an encoding stands for, if it is one.
pub open spec fn decoded(bytes: Seq<u8>) -> Option<Seq<u8>>
    decreases bytes.len(),
{
    if bytes.len() == 0 {
        Some(Seq::empty())
    } else if bytes[0] == 37 {
        if bytes.len() < 3 {
            None
        } else {
            match (pair_value(bytes[1], bytes[2]), decoded(bytes.skip(3))) {
                (Some(b), Some(rest)) => Some(seq![b] + rest),
                _ => None,
            }
        }
    } else if is_plain(bytes[0]) {
        match decoded(bytes.drop_first()) {
            Some(rest) => Some(seq![bytes[0]] + rest),
            None => None,
        }
    } else {
        None
    }
}

/// The name that a stem stands for, if any.
pub open spec fn name_of_stem(stem: Seq<char>) -> Option<Seq<char>> {
    match decoded(vstd::utf8::encode_utf8(stem)) {
        Some(bytes) => if vstd::utf8::valid_utf8(bytes) {
            Some(vstd::utf8::decode_utf8(bytes))
        } else {
            None
        },
        None => None,
    }
}

proof fn encoded_is_safe(bytes: Seq<u8>)
    ensures
        forall|i: int| 0 <= i < encoded(bytes).len() ==> is_plain(#[trigger] encoded(bytes)[i]) || encoded(bytes)[i] == 37,
    decreases bytes.len(),
{
    if bytes.len() > 0 {
        encoded_is_safe(bytes.drop_first());
        let first = encoded_byte(bytes[0]);
        let rest = encoded(bytes.drop_first());
        assert forall|i: int| 0 <= i < encoded(bytes).len() implies is_plain(#[trigger] encoded(bytes)[i]) || encoded(bytes)[i]
            == 37 by {
            if i >= first.len() {
                assert(encoded(bytes)[i] == rest[i - first.len()]);
            } else {
                assert(encoded(bytes)[i] == first[i]);
            }
        }
    }
}

proof fn decoded_encoded(bytes: Seq<u8>)
    ensures
        decoded(encoded(bytes)) == Some(bytes),
    decreases bytes.len(),
{
    if bytes.len() == 0 {
        assert(bytes =~= Seq::empty());
    } else {
        let b = bytes[0];
        let rest = bytes.drop_first();
        decoded_encoded(rest);
        let all = encoded(bytes);
        assert(bytes =~= seq![b] + rest);
        if is_plain(b) {
            assert(all.drop_first() =~= encoded(rest));
            assert(all[0] == b);
        } else {
            assert(all.skip(3) =~= encoded(rest));
            assert(all[0] == 37);
            let h = b as int / 16;
            let l = b as int % 16;
            assert(all[1] == upper_hex(h) && all[2] == upper_hex(l));
            assert(hex_value(upper_hex(h)) == Some(h as u8));
            assert(hex_value(upper_hex(l)) == Some(l as u8));
            assert(h * 16 + l == b);
        }
    }
}

proof fn ascii_bytes(bytes: Seq<u8>)
    requires
        forall|i: int| 0 <= i < bytes.len() ==> #[trigger] bytes[i] < 128,
    ensures
        vstd::utf8::is_ascii_chars(ascii(bytes)),
        vstd::utf8::encode_utf8(ascii(bytes)) == bytes,
{
    let chars = ascii(bytes);
    assert forall|i: int| 0 <= i < chars.len() implies 0 <= (#[trigger] chars[i]) as int <= 127 by {
        assert(chars[i] == bytes[i] as char);
    }
    vstd::utf8::is_ascii_chars_encode_utf8(chars);
    assert(vstd::utf8::encode_utf8(chars) =~= bytes) by {
        assert forall|i: int| 0 <= i < bytes.len() implies #[trigger] (chars[i] as u8) == bytes[i] by {
            assert(chars[i] == bytes[i] as char);
        }
    }
}

/// The stem of a name stands for that name: the encoding loses nothing.
pub proof fn stem_round_trip(name: Seq<char>)
    ensures
        name_of_stem(stem_of(name)) == Some(name),
{
    let bytes = vstd::utf8::encode_utf8(name);
    encoded_is_safe(bytes);
    assert forall|i: int| 0 <= i < encoded(bytes).len() implies #[trigger] encoded(bytes)[i] < 128 by {}
    ascii_bytes(encoded(bytes));
    decoded_encoded(bytes);
    vstd::utf8::encode_utf8_valid_utf8(name);
    vstd::utf8::encode_utf8_decode_utf8(name);
}

proof fn decoded_is_safe(bytes: Seq<u8>)
    requires
        decoded(bytes) is Some,
    ensures
        forall|i: int| 0 <= i < bytes.len() ==> is_plain(#[trigger] bytes[i]) || bytes[i] == 37,
    decreases bytes.len(),
{
    if bytes.len() > 0 {
        let n: int = if bytes[0] == 37 {
            3
        } else {
            1
        };
        let rest = bytes.skip(n);
        if n == 1 {
            assert(rest =~= bytes.drop_first());
        }
        decoded_is_safe(rest);
        assert forall|i: int| 0 <= i < bytes.len() implies is_plain(#[trigger] bytes[i]) || bytes[i] == 37 by {
            if i >= n {
                assert(bytes[i] == rest[i - n]);
            }
        }
    }
}

/// Two names never share a stem.
pub proof fn stems_are_distinct(a: Seq<char>, b: Seq<char>)
    requires
        stem_of(a) == stem_of(b),
    ensures
        a == b,
{
    stem_round_trip(a);
    stem_round_trip(b);
}

/// A character that may stand in a stem.
pub open spec fn is_stem_char(c: char) -> bool {
    ('a' <= c <= 'z') || ('A' <= c <= 'Z') || ('0' <= c <= '9') || c == '-' || c == '_' || c == '%'
}

/// A stem holds letters, digits, hyphens, underscores and percent signs
/// only: no separator and no dot, so no name leaves the data directory and a
/// dot always ends the stem.
pub proof fn stems_are_safe(name: Seq<char>, i: int)
    requires
        0 <= i < stem_of(name).len(),
    ensures
        is_stem_char(stem_of(name)[i]),
        stem_of(name)[i] != '/' && stem_of(name)[i] != '.' && stem_of(name)[i] != '\\',
{
    let bytes = vstd::utf8::encode_utf8(name);
    encoded_is_safe(bytes);
    assert(stem_of(name)[i] == encoded(bytes)[i] as char);
    assert(is_plain(encoded(bytes)[i]) || encoded(bytes)[i] == 37);
}

/// What holds a character that no stem holds stands for no name.
pub proof fn only_stem_characters_stand_for_names(stem: Seq<char>, i: int)
    requires
        0 <= i < stem.len(),
        !is_stem_char(stem[i]),
    ensures
        name_of_stem(stem) is None,
{
    if name_of_stem(stem) is Some {
        let written = vstd::utf8::encode_utf8(stem);
        decoded_is_safe(written);
        assert forall|k: int| 0 <= k < written.len() implies #[trigger] written[k] < 128 by {
            assert(is_plain(written[k]) || written[k] == 37);
        }
        ascii_bytes(written);
        vstd::utf8::encode_utf8_decode_utf8(stem);
        vstd::utf8::encode_utf8_decode_utf8(ascii(written));
        assert(stem == ascii(written));
        assert(stem[i] == written[i] as char);
        assert(is_plain(written[i]) || written[i] == 37);
    }
}

/// Encodes a context's name as a file stem: bytes other than letters, digits,
/// hyphens and underscores become a percent sign and two hexadecimal digits.
pub fn file_stem(name: &str) -> (res: String)
    ensures
        res@ == stem_of(name@),
{
    let bytes = name.as_bytes();
    let ghost all = bytes@;
    let mut res = String::new();
    let mut i: usize = 0;
    assert(all.skip(0) =~= all);
    assert(res@ + ascii(encoded(all)) =~= ascii(encoded(all)));
    while i < bytes.len()
        invariant
            bytes@ == all,
            i <= bytes.len(),
            res@ + ascii(encoded(all.skip(i as int))) == ascii(encoded(all)),
        decreases bytes.len() - i,
    {
        let b: u8 = bytes[i];
        let ghost rest = all.skip(i as int);
        let ghost was = res@;
        proof {
            assert(rest[0] == b);
            assert(rest.drop_first() =~= all.skip(i + 1));
            assert(ascii(encoded(rest)) =~= ascii(encoded_byte(b)) + ascii(encoded(all.skip(i + 1))));
        }
        if stands_for_itself(b) {
            res.push(b as char);
        } else {
            res.push('%');
            res.push(upper_digit(b / 16));
            res.push(upper_digit(b % 16));
        }
        proof {
            assert(res@ =~= was + ascii(encoded_byte(b)));
            assert(was + ascii(encoded(rest)) =~= res@ + ascii(encoded(all.skip(i + 1))));
        }
        i = i + 1;
    }
    assert(ascii(encoded(all.skip(i as int))) =~= Seq::empty());
    assert(res@ + Seq::<char>::empty() =~= res@);
    res
}

fn upper_digit(n: u8) -> (res: char)
    requires
        n < 16,
    ensures
        res == upper_hex(n as int) as char,
{
    if n < 10 {
        (48 + n) as char
    } else {
        (55 + n) as char
    }
}

fn digit_value(b: u8) -> (res: Option<u8>)
    ensures
        res == hex_value(b),
{
    if 48 <= b && b <= 57 {
        Some(b - 48)
    } else if 65 <= b && b <= 70 {
        Some(b - 55)
    } else if 97 <= b && b <= 102 {
        Some(b - 87)
    } else {
        None
    }
}

/// Whether a byte stands for itself in a stem.
fn stands_for_itself(b: u8) -> (res: bool)
    ensures
        res == is_plain(b),
{
    (97 <= b && b <= 122) || (65 <= b && b <= 90) || (48 <= b && b <= 57) || b == 45 || b == 95
}

/// Decodes a file stem back into a context's name. A percent sign stands
/// before two hexadecimal digits, in either case, and a character that
/// [`file_stem`] never writes is in no name's stem.
pub fn name_from_stem(stem: &str) -> (res: Option<String>)
    ensures
        match res {
            Some(name) => name_of_stem(stem@) == Some(name@),
            None => name_of_stem(stem@) is None && forall|n: Seq<char>| stem@ != #[trigger] stem_of(n),
        },
{
    proof {
        if name_of_stem(stem@) is None {
            assert forall|n: Seq<char>| stem@ != #[trigger] stem_of(n) by {
                stem_round_trip(n);
            }
        }
    }
    let bytes = stem.as_bytes();
    let ghost all = bytes@;
    let mut out: Vec<u8> = Vec::new();
    let mut i: usize = 0;
    assert(all.skip(0) =~= all);
    while i < bytes.len()
        invariant
            bytes@ == all,
            all == vstd::utf8::encode_utf8(stem@),
            name_of_stem(stem@) is None ==> forall|n: Seq<char>| stem@ != #[trigger] stem_of(n),
            i <= bytes.len(),
            decoded(all) == (match decoded(all.skip(i as int)) {
                Some(rest) => Some(out@ + rest),
                None => None,
            }),
        decreases bytes.len() - i,
    {
        let ghost rest = all.skip(i as int);
        let b: u8 = bytes[i];
        if b == 37 {
            if bytes.len() - i < 3 {
                return None;
            }
            let high: u8 = bytes[i + 1];
            let low: u8 = bytes[i + 2];
            proof {
                assert(rest[1] == high && rest[2] == low);
                assert(rest.skip(3) =~= all.skip(i + 3));
            }
            let value = match (digit_value(high), digit_value(low)) {
                (Some(h), Some(l)) => Some(h * 16 + l),
                _ => None,
            };
            match value {
                None => {
                    return None;
                },
                Some(v) => {
                    proof {
                        if let Some(tail) = decoded(all.skip(i + 3)) {
                            assert(out@ + (seq![v] + tail) =~= out@.push(v) + tail);
                        }
                    }
                    out.push(v);
                },
            }
            i = i + 3;
        } else {
            if !stands_for_itself(b) {
                return None;
            }
            proof {
                assert(rest[0] == b);
                assert(rest.drop_first() =~= all.skip(i + 1));
                if let Some(tail) = decoded(all.skip(i + 1)) {
                    assert(out@ + (seq![b] + tail) =~= out@.push(b) + tail);
                }
            }
            out.push(b);
            i = i + 1;
        }
    }
    assert(all.skip(i as int) =~= Seq::empty());
    assert(out@ + Seq::<u8>::empty() =~= out@);
    utf8_string(out)
}

/// The start value of the hash.
pub const FNV_OFFSET: u64 = 0xcbf2_9ce4_8422_2325;

/// The multiplier of the hash.
pub const FNV_PRIME: u64 = 0x0000_0100_0000_01b3;

/// FNV-1a on sixty-four bits: each value is folded in, then the hash is
/// multiplied.
pub open spec fn fnv(values: Seq<u64>) -> u64
    decreases values.len(),
{
    if values.len() == 0 {
        FNV_OFFSET
    } else {
        (fnv(values.drop_last()) ^ values.last()).wrapping_mul(FNV_PRIME)
    }
}

/// One value folded into a hash.
pub fn fnv_step(hash: u64, value: u64) -> (res: u64)
    ensures
        res == (hash ^ value).wrapping_mul(FNV_PRIME),
{
    (hash ^ value).wrapping_mul(FNV_PRIME)
}

/// The sixty-four bit FNV-1a of raw bytes.
pub fn fnv64(bytes: &[u8]) -> (res: u64)
    ensures
        res == fnv(bytes@.map_values(|b: u8| b as u64)),
{
    let ghost all = bytes@.map_values(|b: u8| b as u64);
    let mut hash: u64 = FNV_OFFSET;
    let mut i: usize = 0;
    assert(all.take(0) =~= Seq::empty());
    while i < bytes.len()
        invariant
            all == bytes@.map_values(|b: u8| b as u64),
            i <= bytes.len(),
            hash == fnv(all.take(i as int)),
        decreases bytes.len() - i,
    {
        hash = fnv_step(hash, bytes[i] as u64);
        assert(all.take(i + 1).drop_last() =~= all.take(i as int));
        i = i + 1;
    }
    assert(all.take(i as int) =~= all);
    hash
}

/// The lower-case hexadecimal digit of a value below sixteen.
pub open spec fn lower_hex(n: int) -> char {
    if n < 10 {
        (48 + n) as char
    } else {
        (87 + n) as char
    }
}

/// The last `k` hexadecimal digits of a number.
pub open spec fn hex_digits(n: int, k: nat) -> Seq<char>
    decreases k,
{
    if k == 0 {
        Seq::empty()
    } else {
        hex_digits(n / 16, (k - 1) as nat).push(lower_hex(n % 16))
    }
}

fn hex16(n: u64, k: usize) -> (res: String)
    ensures
        res@ == hex_digits(n as int, k as nat),
    decreases k,
{
    if k == 0 {
        let res = String::new();
        assert(res@ =~= hex_digits(n as int, 0));
        return res;
    }
    let mut res = hex16(n / 16, k - 1);
    let d: u8 = (n % 16) as u8;
    let c = if d < 10 {
        (48 + d) as char
    } else {
        (87 + d) as char
    };
    res.push(c);
    res
}

/// A context's graph image.
pub fn image_path(stem: &str) -> (res: String)
    ensures
        res@ == stem@ + ".ctx"@,
{
    text::joined(stem, ".ctx")
}

/// A context's sidecar.
pub fn meta_path(stem: &str) -> (res: String)
    ensures
        res@ == stem@ + ".meta.json"@,
{
    text::joined(stem, ".meta.json")
}

pub fn sources_path(stem: &str) -> (res: String)
    ensures
        res@ == stem@ + ".sources.json"@,
{
    text::joined(stem, ".sources.json")
}

/// A context's passage snapshot.
pub fn passages_path(stem: &str) -> (res: String)
    ensures
        res@ == stem@ + ".passages.bin"@,
{
    text::joined(stem, ".passages.bin")
}

/// A context's passage log.
pub fn passages_wal_path(stem: &str) -> (res: String)
    ensures
        res@ == stem@ + ".passages.wal.jsonl"@,
{
    text::joined(stem, ".passages.wal.jsonl")
}

/// A context's paragraph vectors.
pub fn pvectors_path(stem: &str) -> (res: String)
    ensures
        res@ == stem@ + ".pvectors.bin"@,
{
    text::joined(stem, ".pvectors.bin")
}

/// A context's keyword index.
pub fn bm25_path(stem: &str) -> (res: String)
    ensures
        res@ == stem@ + ".bm25.bin"@,
{
    text::joined(stem, ".bm25.bin")
}

/// A context's vectors.
pub fn vectors_path(stem: &str) -> (res: String)
    ensures
        res@ == stem@ + ".vectors.bin"@,
{
    text::joined(stem, ".vectors.bin")
}

/// A context's write-ahead log.
pub fn wal_path(stem: &str) -> (res: String)
    ensures
        res@ == stem@ + ".wal.jsonl"@,
{
    text::joined(stem, ".wal.jsonl")
}

/// A context's schema document.
pub fn schema_path(stem: &str) -> (res: String)
    ensures
        res@ == stem@ + ".schema.json"@,
{
    text::joined(stem, ".schema.json")
}

/// Where a schema document is set aside when it does not parse.
pub fn schema_corrupt_path(stem: &str) -> (res: String)
    ensures
        res@ == stem@ + ".schema.corrupt"@,
{
    text::joined(stem, ".schema.corrupt")
}

/// The durable deletion marker: while it exists, a start resumes the
/// removals.
pub fn deleted_marker_path(stem: &str) -> (res: String)
    ensures
        res@ == stem@ + ".deleted"@,
{
    text::joined(stem, ".deleted")
}

/// The durable rename marker: while it exists, a start resumes the move.
pub fn renaming_marker_path(stem: &str) -> (res: String)
    ensures
        res@ == stem@ + ".renaming"@,
{
    text::joined(stem, ".renaming")
}

/// A group's record.
pub fn group_path(stem: &str) -> (res: String)
    ensures
        res@ == stem@ + ".group"@,
{
    text::joined(stem, ".group")
}

/// A group's durable rename marker.
pub fn group_renaming_marker_path(stem: &str) -> (res: String)
    ensures
        res@ == stem@ + ".grouprenaming"@,
{
    text::joined(stem, ".grouprenaming")
}

/// The name of an import marker: the stem, the hash of the source in sixteen
/// hexadecimal digits, and the extension.
pub open spec fn import_marker_name(stem: Seq<char>, source: Seq<char>) -> Seq<char> {
    stem + "."@ + hex_digits(fnv(vstd::utf8::encode_utf8(source).map_values(|b: u8| b as u64)) as int, 16) + ".importing"@
}

/// One import batch's marker, there while its source may be half applied.
pub fn import_marker_path(stem: &str, source: &str) -> (res: String)
    ensures
        res@ == import_marker_name(stem@, source@),
{
    let hash: u64 = fnv64(source.as_bytes());
    let digits = hex16(hash, 16);
    let dotted = text::joined(stem, ".");
    let hashed = text::joined(dotted.as_str(), digits.as_str());
    text::joined(hashed.as_str(), ".importing")
}

/// A file name that counts as an import marker of a stem.
pub open spec fn is_import_marker(stem: Seq<char>, name: Seq<char>) -> bool {
    (stem + "."@).is_prefix_of(name) && ".importing"@.is_suffix_of(name)
}

/// The import markers of a stem among the first `n` file names.
pub open spec fn import_markers_upto(stem: Seq<char>, listing: Seq<Seq<char>>, n: nat) -> Seq<Seq<char>>
    decreases n,
{
    if n == 0 {
        Seq::empty()
    } else {
        let rest = import_markers_upto(stem, listing, (n - 1) as nat);
        if is_import_marker(stem, listing[n - 1]) {
            rest.push(listing[n - 1])
        } else {
            rest
        }
    }
}

/// Every import marker beside a stem's files, of the file names listed.
pub fn import_marker_paths(stem: &str, listing: &Vec<String>) -> (res: Vec<String>)
    ensures
        names::views(res@) == import_markers_upto(stem@, names::views(listing@), listing@.len()),
{
    let prefix = text::joined(stem, ".");
    let ghost all = names::views(listing@);
    let mut res: Vec<String> = Vec::new();
    let mut i: usize = 0;
    assert(names::views(res@) =~= Seq::empty());
    while i < listing.len()
        invariant
            all == names::views(listing@),
            prefix@ == stem@ + "."@,
            i <= listing.len(),
            names::views(res@) == import_markers_upto(stem@, all, i as nat),
        decreases listing.len() - i,
    {
        let name = &listing[i];
        assert(all[i as int] == name@);
        if text::starts_with(name.as_str(), prefix.as_str()) && text::ends_with(name.as_str(), ".importing") {
            let ghost was = res@;
            res.push(name.clone());
            assert(names::views(res@) =~= names::views(was).push(name@));
        }
        i = i + 1;
    }
    res
}

/// The marker of an import batch is found beside its context's files.
pub proof fn import_marker_is_found(stem: Seq<char>, source: Seq<char>)
    ensures
        is_import_marker(stem, import_marker_name(stem, source)),
{
    let name = import_marker_name(stem, source);
    assert(stem + "."@ =~= name.subrange(0, (stem + "."@).len() as int));
    assert(".importing"@ =~= name.subrange(name.len() - ".importing"@.len(), name.len() as int));
}

/// What an import marker says: which source's batch was open, in which
/// context.
pub struct ImportMarker {
    pub context: String,
    pub source: String,
}

/// What a rename marker says.
pub struct RenameMarker {
    pub from: String,
    pub to: String,
}

pub struct MarkerView {
    pub from: Seq<char>,
    pub to: Seq<char>,
}

impl View for RenameMarker {
    type V = MarkerView;

    open spec fn view(&self) -> MarkerView {
        MarkerView { from: self.from@, to: self.to@ }
    }
}

pub open spec fn marker_views(markers: Seq<RenameMarker>) -> Seq<MarkerView> {
    markers.map_values(|m: RenameMarker| m@)
}

/// How many endpoints of the first `n` markers are `name`.
pub open spec fn endpoint_count(markers: Seq<MarkerView>, name: Seq<char>, n: nat) -> nat
    decreases n,
{
    if n == 0 {
        0
    } else {
        endpoint_count(markers, name, (n - 1) as nat) + (if markers[n - 1].from == name {
            1nat
        } else {
            0nat
        }) + (if markers[n - 1].to == name {
            1nat
        } else {
            0nat
        })
    }
}

/// Neither endpoint of the marker is an endpoint of another, or both of its
/// own.
pub open spec fn stands_alone(markers: Seq<MarkerView>, i: int) -> bool {
    endpoint_count(markers, markers[i].from, markers.len()) < 2 && endpoint_count(markers, markers[i].to, markers.len()) < 2
}

/// One resumed rename. Membership is rewritten once the destination has
/// landed; the marker goes once the move is complete.
pub struct ResumedRename {
    pub from: String,
    pub to: String,
    pub landed: bool,
    pub complete: bool,
}

fn count_endpoints(markers: &Vec<RenameMarker>, name: &str) -> (res: bool)
    ensures
        res == (endpoint_count(marker_views(markers@), name@, markers@.len()) < 2),
{
    let ghost all = marker_views(markers@);
    let mut n: u8 = 0;
    let mut i: usize = 0;
    while i < markers.len()
        invariant
            all == marker_views(markers@),
            i <= markers.len(),
            n <= 2,
            n < 2 ==> n == endpoint_count(all, name@, i as nat),
            n == 2 ==> endpoint_count(all, name@, i as nat) >= 2,
        decreases markers.len() - i,
    {
        assert(all[i as int] == markers@[i as int]@);
        if same(markers[i].from.as_str(), name) && n < 2 {
            n = n + 1;
        }
        if same(markers[i].to.as_str(), name) && n < 2 {
            n = n + 1;
        }
        i = i + 1;
    }
    n < 2
}

/// One of the first `n` markers is `m` and stands alone.
pub open spec fn alone_upto(markers: Seq<MarkerView>, n: nat, m: MarkerView) -> bool {
    exists|i: int| 0 <= i < n && #[trigger] markers[i] == m && stands_alone(markers, i)
}

/// Markers in the order of their sources.
pub open spec fn by_source(markers: Seq<MarkerView>) -> bool {
    forall|a: int, b: int|
        0 <= a < b < markers.len() ==> names::before((#[trigger] markers[a]).from, (#[trigger] markers[b]).from)
}

proof fn alone_step(markers: Seq<MarkerView>, n: nat, m: MarkerView)
    requires
        n < markers.len(),
    ensures
        alone_upto(markers, n + 1, m) <==> alone_upto(markers, n, m) || (markers[n as int] == m && stands_alone(
            markers,
            n as int,
        )),
{
    if alone_upto(markers, n, m) {
        let i = choose|i: int| 0 <= i < n && #[trigger] markers[i] == m && stands_alone(markers, i);
        assert(markers[i] == m);
    }
    if alone_upto(markers, n + 1, m) {
        let i = choose|i: int| 0 <= i < n + 1 && #[trigger] markers[i] == m && stands_alone(markers, i);
        assert(markers[i] == m);
    }
}

proof fn inserted_marker(was: Seq<MarkerView>, at: int, x: MarkerView, m: MarkerView)
    requires
        0 <= at <= was.len(),
    ensures
        was.insert(at, x).contains(m) <==> was.contains(m) || m == x,
{
    let now = was.insert(at, x);
    if was.contains(m) {
        let i = choose|i: int| 0 <= i < was.len() && was[i] == m;
        let j = if i < at { i } else { i + 1 };
        assert(now[j] == m);
    }
    assert(now[at] == x);
    if now.contains(m) {
        let j = choose|j: int| 0 <= j < now.len() && now[j] == m;
        if j < at {
            assert(was[j] == m);
        } else if j > at {
            assert(was[j - 1] == m);
        }
    }
}

/// The renames to resume at a start, in the order of their sources. A marker
/// that shares an endpoint with another, or names one twice, is left for a
/// human: resuming some of them and not others would make that harder.
pub fn resume_rename_markers(markers: &Vec<RenameMarker>) -> (res: Vec<RenameMarker>)
    ensures
        by_source(marker_views(res@)),
        forall|m: MarkerView| #[trigger]
            marker_views(res@).contains(m) <==> alone_upto(marker_views(markers@), markers@.len(), m),
{
    let ghost all = marker_views(markers@);
    let mut res: Vec<RenameMarker> = Vec::new();
    let mut i: usize = 0;
    assert(marker_views(res@) =~= Seq::empty());
    while i < markers.len()
        invariant
            all == marker_views(markers@),
            i <= markers.len(),
            by_source(marker_views(res@)),
            forall|m: MarkerView| #[trigger] marker_views(res@).contains(m) <==> alone_upto(all, i as nat, m),
        decreases markers.len() - i,
    {
        let m = &markers[i];
        let ghost was = marker_views(res@);
        assert(all[i as int] == m@);
        let alone = count_endpoints(markers, m.from.as_str()) && count_endpoints(markers, m.to.as_str());
        assert(alone == stands_alone(all, i as int));
        if alone {
            let mut at: usize = 0;
            while at < res.len() && is_before(res[at].from.as_str(), m.from.as_str())
                invariant
                    at <= res.len(),
                    forall|a: int| 0 <= a < at ==> names::before((#[trigger] marker_views(res@)[a]).from, m.from@),
                decreases res.len() - at,
            {
                at = at + 1;
            }
            let copied = RenameMarker { from: m.from.clone(), to: m.to.clone() };
            proof {
                if at < was.len() {
                    let here = was[at as int];
                    assert(was.contains(here));
                    assert(alone_upto(all, i as nat, here));
                    let j = choose|j: int| 0 <= j < i && #[trigger] all[j] == here && stands_alone(all, j);
                    alone_sources_differ(all, j, i as int);
                    names::before_total(here.from, m.from@);
                    placed_by_source(was, at as int, m@);
                } else {
                    placed_by_source(was, at as int, m@);
                }
            }
            res.insert(at, copied);
            assert(marker_views(res@) =~= was.insert(at as int, m@));
            proof {
                assert forall|x: MarkerView| #[trigger] marker_views(res@).contains(x) <==> alone_upto(all, (i + 1) as nat, x) by {
                    inserted_marker(was, at as int, m@, x);
                    alone_step(all, i as nat, x);
                    assert(was.contains(x) == alone_upto(all, i as nat, x));
                }
            }
        } else {
            proof {
                assert forall|x: MarkerView| #[trigger] marker_views(res@).contains(x) <==> alone_upto(all, (i + 1) as nat, x) by {
                    alone_step(all, i as nat, x);
                }
            }
        }
        i = i + 1;
    }
    res
}

proof fn placed_by_source(was: Seq<MarkerView>, at: int, m: MarkerView)
    requires
        by_source(was),
        0 <= at <= was.len(),
        forall|a: int| 0 <= a < at ==> names::before((#[trigger] was[a]).from, m.from),
        at < was.len() ==> names::before(m.from, was[at].from),
    ensures
        by_source(was.insert(at, m)),
{
    let now = was.insert(at, m);
    assert forall|a: int, b: int| 0 <= a < b < now.len() implies names::before(
        (#[trigger] now[a]).from,
        (#[trigger] now[b]).from,
    ) by {
        let x = if a < at { a } else { a - 1 };
        let y = if b < at { b } else { b - 1 };
        if a != at && b != at {
            assert(names::before(was[x].from, was[y].from));
        } else if a == at {
            if y > at {
                names::before_transitive(m.from, was[at].from, was[y].from);
            }
        }
    }
}

proof fn endpoint_at_least(markers: Seq<MarkerView>, name: Seq<char>, n: nat, i: int)
    requires
        0 <= i < n,
        markers[i].from == name || markers[i].to == name,
    ensures
        endpoint_count(markers, name, n) >= 1,
    decreases n,
{
    if i < n - 1 {
        endpoint_at_least(markers, name, (n - 1) as nat, i);
    }
}

proof fn endpoint_twice(markers: Seq<MarkerView>, name: Seq<char>, n: nat, i: int, j: int)
    requires
        0 <= i < j < n,
        markers[i].from == name || markers[i].to == name,
        markers[j].from == name || markers[j].to == name,
    ensures
        endpoint_count(markers, name, n) >= 2,
    decreases n,
{
    if j < n - 1 {
        endpoint_twice(markers, name, (n - 1) as nat, i, j);
    } else {
        endpoint_at_least(markers, name, (n - 1) as nat, i);
    }
}

proof fn alone_sources_differ(markers: Seq<MarkerView>, i: int, j: int)
    requires
        0 <= i < j < markers.len(),
        stands_alone(markers, i),
        stands_alone(markers, j),
    ensures
        markers[i].from != markers[j].from,
{
    if markers[i].from == markers[j].from {
        endpoint_twice(markers, markers[i].from, markers.len(), i, j);
    }
}

/// Two markers that share an endpoint, in a chain, a cycle or a collision,
/// are both refused.
pub proof fn shared_endpoints_are_refused(markers: Seq<MarkerView>, i: int, j: int)
    requires
        0 <= i < j < markers.len(),
        markers[i].from == markers[j].from || markers[i].from == markers[j].to || markers[i].to == markers[j].from
            || markers[i].to == markers[j].to,
    ensures
        !stands_alone(markers, i),
        !stands_alone(markers, j),
{
    let n = markers.len();
    if markers[i].from == markers[j].from || markers[i].from == markers[j].to {
        endpoint_twice(markers, markers[i].from, n, i, j);
    } else {
        endpoint_twice(markers, markers[i].to, n, i, j);
    }
}

/// A rename whose move was tried: complete if everything moved, landed if
/// the destination is in place.
pub fn resumed_rename(marker: RenameMarker, moved: bool, landed: bool) -> (res: ResumedRename)
    ensures
        res == (ResumedRename { from: marker.from, to: marker.to, landed, complete: moved }),
{
    ResumedRename { from: marker.from, to: marker.to, landed, complete: moved }
}

/// A rename's marker has done its job: every file moved, and where the new
/// name is in place the groups' files name it.
pub open spec fn marker_done(complete: bool, landed: bool, membership_persisted: bool) -> bool {
    complete && (landed ==> membership_persisted)
}

/// Whether the marker of a rename is to be removed. One that stays is resumed
/// at the next start. A rename that runs through is complete and has landed;
/// one that is resumed says so itself.
pub fn retire_rename_marker(complete: bool, landed: bool, membership_persisted: bool) -> (remove: bool)
    ensures
        remove == marker_done(complete, landed, membership_persisted),
{
    complete && (!landed || membership_persisted)
}

/// The files of the first `n` markers that name `name` as the destination.
pub open spec fn targeting_upto(found: Seq<(Seq<char>, MarkerView)>, name: Seq<char>, n: nat) -> Seq<Seq<char>>
    decreases n,
{
    if n == 0 {
        Seq::empty()
    } else {
        let rest = targeting_upto(found, name, (n - 1) as nat);
        if found[n - 1].1.to == name {
            rest.push(found[n - 1].0)
        } else {
            rest
        }
    }
}

pub open spec fn found_views(found: Seq<(String, RenameMarker)>) -> Seq<(Seq<char>, MarkerView)> {
    found.map_values(|f: (String, RenameMarker)| (f.0@, f.1@))
}

/// The files of the rename markers that name `name` as their destination. A
/// marker lies at its source's stem, so only a look at all of them finds it.
pub fn rename_markers_targeting(found: &Vec<(String, RenameMarker)>, name: &str) -> (res: Vec<String>)
    ensures
        names::views(res@) == targeting_upto(found_views(found@), name@, found@.len()),
{
    let ghost all = found_views(found@);
    let mut res: Vec<String> = Vec::new();
    let mut i: usize = 0;
    assert(names::views(res@) =~= Seq::empty());
    while i < found.len()
        invariant
            all == found_views(found@),
            i <= found.len(),
            names::views(res@) == targeting_upto(all, name@, i as nat),
        decreases found.len() - i,
    {
        assert(all[i as int] == (found@[i as int].0@, found@[i as int].1@));
        if same(found[i].1.to.as_str(), name) {
            let ghost was = res@;
            res.push(found[i].0.clone());
            assert(names::views(res@) =~= names::views(was).push(found@[i as int].0@));
        }
        i = i + 1;
    }
    res
}

/// A letter, a digit, a hyphen and an underscore stand for themselves in a
/// stem; any other byte is written as a percent sign and two upper-case
/// hexadecimal digits, from which it is read back.
pub proof fn bytes_are_written_plainly_or_in_hex(b: u8)
    ensures
        ('a' as int <= b <= 'z' as int) || ('A' as int <= b <= 'Z' as int) || ('0' as int <= b <= '9' as int) || b == '-' as int
            || b == '_' as int ==> encoded_byte(b) == seq![b],
        !(('a' as int <= b <= 'z' as int) || ('A' as int <= b <= 'Z' as int) || ('0' as int <= b <= '9' as int) || b
            == '-' as int || b == '_' as int) ==> {
            let e = encoded_byte(b);
            &&& e.len() == 3
            &&& e[0] == '%' as int
            &&& forall|i: int|
                1 <= i < 3 ==> ('0' as int <= #[trigger] e[i] <= '9' as int) || ('A' as int <= e[i] <= 'F' as int)
            &&& pair_value(e[1], e[2]) == Some(b)
        },
{
    let h = b as int / 16;
    let l = b as int % 16;
    assert(0 <= h < 16 && 0 <= l < 16 && h * 16 + l == b);
}

/// A hexadecimal digit has its value in either case, and nothing else has
/// one; two of them stand for sixteen times the first and the second.
pub proof fn hex_digits_have_their_values(b: u8, low: u8)
    ensures
        '0' as int <= b <= '9' as int ==> hex_value(b) == Some((b - '0' as int) as u8),
        'a' as int <= b <= 'f' as int ==> hex_value(b) == Some((b - 'a' as int + 10) as u8),
        'A' as int <= b <= 'F' as int ==> hex_value(b) == Some((b - 'A' as int + 10) as u8),
        hex_value(b) is Some <==> ('0' as int <= b <= '9' as int) || ('a' as int <= b <= 'f' as int) || ('A' as int <= b
            <= 'F' as int),
        pair_value(b, low) is Some <==> hex_value(b) is Some && hex_value(low) is Some,
        pair_value(b, low) is Some ==> (pair_value(b, low)->0) as int == 16 * (hex_value(b)->0) + (hex_value(low)->0),
{
}

/// The hash of no values is the offset basis; each value is folded in and the
/// hash multiplied by the prime.
pub proof fn hashes_fold_every_value_in(values: Seq<u64>, v: u64)
    ensures
        fnv(Seq::<u64>::empty()) == 0xcbf2_9ce4_8422_2325,
        fnv(values.push(v)) == (fnv(values) ^ v).wrapping_mul(0x0000_0100_0000_01b3),
{
    assert(values.push(v).drop_last() =~= values);
}

/// A number's hexadecimal digits are as many as asked for, all lower-case,
/// and read from the left: another digit at the end adds sixteen times what
/// stood there before.
pub proof fn hex_digits_read_from_the_left(n: int, d: int, k: nat, i: int)
    requires
        n >= 0,
        0 <= d < 16,
    ensures
        hex_digits(n, k).len() == k,
        0 <= i < k ==> ('0' <= hex_digits(n, k)[i] <= '9') || ('a' <= hex_digits(n, k)[i] <= 'f'),
        hex_digits(16 * n + d, k + 1) == hex_digits(n, k).push(lower_hex(d)),
        d < 10 ==> lower_hex(d) as int == '0' as int + d,
        d >= 10 ==> lower_hex(d) as int == 'a' as int + d - 10,
    decreases k,
{
    assert((16 * n + d) / 16 == n && (16 * n + d) % 16 == d);
    if k > 0 {
        hex_digits_read_from_the_left(n / 16, n % 16, (k - 1) as nat, i);
    }
}

/// An import marker's name is the stem, a dot, sixteen hexadecimal digits and
/// the extension.
pub proof fn import_markers_bear_their_stem(stem: Seq<char>, source: Seq<char>)
    ensures
        import_marker_name(stem, source).len() == stem.len() + 27,
        import_marker_name(stem, source).take(stem.len() as int) == stem,
        import_marker_name(stem, source)[stem.len() as int] == '.',
        import_marker_name(stem, source).skip(stem.len() as int + 17) == ".importing"@,
{
    reveal_strlit(".");
    reveal_strlit(".importing");
    let n = fnv(vstd::utf8::encode_utf8(source).map_values(|b: u8| b as u64)) as int;
    hex_digits_read_from_the_left(n, 0, 16, 0);
    assert(import_marker_name(stem, source).take(stem.len() as int) =~= stem);
    assert(import_marker_name(stem, source).skip(stem.len() as int + 17) =~= ".importing"@);
}

/// The import markers of a stem are exactly the file names that begin with
/// the stem and a dot and end with the extension, in order. What is returned
/// is where each stands.
pub proof fn every_import_marker_is_found(stem: Seq<char>, listing: Seq<Seq<char>>, n: nat) -> (at: Seq<int>)
    requires
        n <= listing.len(),
    ensures
        picking::picks(
            listing,
            n,
            |i: int|
                {
                    &&& listing[i].len() >= stem.len() + 1 && listing[i].take(stem.len() as int + 1) == stem + "."@
                    &&& listing[i].len() >= 10 && listing[i].skip(listing[i].len() - 10) == ".importing"@
                },
            import_markers_upto(stem, listing, n),
            at,
        ),
    decreases n,
{
    reveal_strlit(".");
    reveal_strlit(".importing");
    let p = |i: int|
        {
            &&& listing[i].len() >= stem.len() + 1 && listing[i].take(stem.len() as int + 1) == stem + "."@
            &&& listing[i].len() >= 10 && listing[i].skip(listing[i].len() - 10) == ".importing"@
        };
    if n == 0 {
        Seq::empty()
    } else {
        let m = (n - 1) as nat;
        let before = every_import_marker_is_found(stem, listing, m);
        let name = listing[m as int];
        assert((stem + "."@).len() == stem.len() + 1);
        assert(".importing"@.len() == 10);
        if name.len() >= stem.len() + 1 {
            assert(name.take(stem.len() as int + 1) =~= name.subrange(0, (stem + "."@).len() as int));
        }
        if name.len() >= 10 {
            assert(name.skip(name.len() - 10) =~= name.subrange(name.len() - 10, name.len() as int));
        }
        assert(p(m as int) == is_import_marker(stem, name));
        picking::picks_on(listing, m, p, import_markers_upto(stem, listing, m), before, import_markers_upto(stem, listing, n));
        picking::and_next(before, m, p(m as int))
    }
}

/// The markers of renames onto a name are exactly those whose destination it
/// is, by their files, in order. What is returned is where each stands.
pub proof fn every_rename_onto_a_name_is_found(
    found: Seq<(Seq<char>, MarkerView)>,
    name: Seq<char>,
    n: nat,
) -> (at: Seq<int>)
    requires
        n <= found.len(),
    ensures
        picking::picks(
            Seq::new(found.len(), |i: int| found[i].0),
            n,
            |i: int| found[i].1.to == name,
            targeting_upto(found, name, n),
            at,
        ),
    decreases n,
{
    let files = Seq::new(found.len(), |i: int| found[i].0);
    let p = |i: int| found[i].1.to == name;
    if n == 0 {
        Seq::empty()
    } else {
        let m = (n - 1) as nat;
        let before = every_rename_onto_a_name_is_found(found, name, m);
        picking::picks_on(files, m, p, targeting_upto(found, name, m), before, targeting_upto(found, name, n));
        picking::and_next(before, m, p(m as int))
    }
}

proof fn endpoint_only(markers: Seq<MarkerView>, name: Seq<char>, n: nat, i: int)
    requires
        n <= markers.len(),
        forall|j: int|
            0 <= j < markers.len() && j != i ==> (#[trigger] markers[j]).from != name && markers[j].to != name,
        0 <= i < markers.len(),
    ensures
        endpoint_count(markers, name, n) == if i < n {
            (if markers[i].from == name {
                1int
            } else {
                0
            }) + (if markers[i].to == name {
                1int
            } else {
                0
            })
        } else {
            0
        },
    decreases n,
{
    if n > 0 {
        endpoint_only(markers, name, (n - 1) as nat, i);
    }
}

/// A marker stands alone exactly where its own endpoints differ and no other
/// marker has either of them.
pub proof fn markers_stand_alone_by_their_endpoints(markers: Seq<MarkerView>, i: int)
    requires
        0 <= i < markers.len(),
    ensures
        stands_alone(markers, i) <==> {
            &&& markers[i].from != markers[i].to
            &&& forall|j: int|
                0 <= j < markers.len() && j != i ==> (#[trigger] markers[j]).from != markers[i].from && markers[j].from
                    != markers[i].to && markers[j].to != markers[i].from && markers[j].to != markers[i].to
        },
{
    let apart = forall|j: int|
        0 <= j < markers.len() && j != i ==> (#[trigger] markers[j]).from != markers[i].from && markers[j].from
            != markers[i].to && markers[j].to != markers[i].from && markers[j].to != markers[i].to;
    if apart {
        endpoint_only(markers, markers[i].from, markers.len(), i);
        endpoint_only(markers, markers[i].to, markers.len(), i);
    } else {
        let j = choose|j: int|
            0 <= j < markers.len() && j != i && ((#[trigger] markers[j]).from == markers[i].from || markers[j].from
                == markers[i].to || markers[j].to == markers[i].from || markers[j].to == markers[i].to);
        if i < j {
            shared_endpoints_are_refused(markers, i, j);
        } else {
            shared_endpoints_are_refused(markers, j, i);
        }
    }
}

/// A rename's marker is kept until every file has moved, and, where the new
/// name is in place, until the groups' files name it.
pub proof fn markers_are_kept_until_all_is_done(complete: bool, landed: bool, membership_persisted: bool)
    ensures
        !complete ==> !marker_done(complete, landed, membership_persisted),
        landed && !membership_persisted ==> !marker_done(complete, landed, membership_persisted),
        complete && !landed ==> marker_done(complete, landed, membership_persisted),
        complete && membership_persisted ==> marker_done(complete, landed, membership_persisted),
{
}

} // verus!
