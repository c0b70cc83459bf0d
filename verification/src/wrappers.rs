//! The calls that this library makes into other crates, each behind a
//! contract that restates what that crate documents or its source shows.

use sha2::Digest;
use vstd::prelude::*;

verus! {

/// Whether `c` is a lowercase hexadecimal digit.
pub open spec fn is_lower_hex(c: char) -> bool {
    ('0' <= c <= '9') || ('a' <= c <= 'f')
}

/// The shape of a random identifier as `uuid` prints one: 36 characters,
/// hyphens at positions 8, 13, 18 and 23, lowercase hex digits elsewhere.
pub open spec fn is_generated_id(s: Seq<char>) -> bool {
    &&& s.len() == 36
    &&& forall|i: int|
        0 <= i < 36 ==> if i == 8 || i == 13 || i == 18 || i == 23 {
            s[i] == '-'
        } else {
            is_lower_hex(#[trigger] s[i])
        }
}

/// A fresh random identifier.
///
/// Trusted: calls `uuid::Uuid::new_v4` and prints the result with
/// `to_string`, which `uuid` formats as the hyphenated lowercase form. The
/// value is random: only its shape is stated.
#[verifier::external_body]
pub(crate) fn new_connection_id() -> (r: String)
    ensures
        is_generated_id(r@),
{
    uuid::Uuid::new_v4().to_string()
}

/// The SHA-256 digest of `data`.
pub uninterp spec fn sha256(data: Seq<u8>) -> Seq<u8>;

/// The SHA-256 digest of `data`, 32 bytes.
///
/// Trusted: calls `sha2::Sha256::digest`, whose output size is 32 bytes.
#[verifier::external_body]
pub(crate) fn sha256_digest(data: &[u8]) -> (r: Vec<u8>)
    ensures
        r@ == sha256(data@),
        r@.len() == 32,
{
    sha2::Sha256::digest(data).to_vec()
}

/// The lowercase hexadecimal digit for `n` (below 16).
pub open spec fn hex_digit(n: int) -> char {
    seq!['0', '1', '2', '3', '4', '5', '6', '7', '8', '9', 'a', 'b', 'c', 'd', 'e', 'f'][n]
}

/// `data` in lowercase hexadecimal, high digit first.
pub open spec fn hex_lower(data: Seq<u8>) -> Seq<char>
    decreases data.len(),
{
    if data.len() == 0 {
        Seq::empty()
    } else {
        hex_lower(data.drop_last()) + seq![
            hex_digit(data.last() as int / 16),
            hex_digit(data.last() as int % 16),
        ]
    }
}

/// `data` in lowercase hexadecimal.
///
/// Trusted: calls `hex::encode`, which writes each byte as two lowercase
/// hexadecimal digits, the high half first.
#[verifier::external_body]
pub(crate) fn hex_encode(data: &[u8]) -> (r: String)
    ensures
        r@ == hex_lower(data@),
{
    hex::encode(data)
}

#[verifier::external_type_specification]
#[verifier::external_body]
pub struct ExJsonError(serde_json::Error);

/// How `serde_json` writes character `c` inside a string: a quote or a
/// backslash escaped with a backslash, the control characters that have a
/// short escape with it, the other characters below U+0020 as `\u00` and two lowercase hex digits,
/// and every other character as it is.
pub open spec fn json_escaped_char(c: char) -> Seq<char> {
    if c == '"' {
        seq!['\\', '"']
    } else if c == '\\' {
        seq!['\\', '\\']
    } else if c == '\u{8}' {
        seq!['\\', 'b']
    } else if c == '\u{c}' {
        seq!['\\', 'f']
    } else if c == '\n' {
        seq!['\\', 'n']
    } else if c == '\r' {
        seq!['\\', 'r']
    } else if c == '\t' {
        seq!['\\', 't']
    } else if (c as u32) < 0x20 {
        seq!['\\', 'u', '0', '0', hex_digit(c as int / 16), hex_digit(c as int % 16)]
    } else {
        seq![c]
    }
}

/// The characters of `s`, each as `serde_json` writes it inside a string.
pub open spec fn json_escaped(s: Seq<char>) -> Seq<char>
    decreases s.len(),
{
    if s.len() == 0 {
        Seq::empty()
    } else {
        json_escaped(s.drop_last()) + json_escaped_char(s.last())
    }
}

/// `s` as a JSON string.
pub open spec fn json_string(s: Seq<char>) -> Seq<char> {
    seq!['"'] + json_escaped(s) + seq!['"']
}

/// The JSON strings of `items`, separated by commas.
pub open spec fn json_strings_joined(items: Seq<Seq<char>>) -> Seq<char>
    decreases items.len(),
{
    if items.len() == 0 {
        Seq::empty()
    } else if items.len() == 1 {
        json_string(items[0])
    } else {
        json_strings_joined(items.drop_last()) + seq![','] + json_string(items.last())
    }
}

/// The compact JSON text that `serde_json` writes for an array of strings.
pub open spec fn json_string_array(items: Seq<Seq<char>>) -> Seq<char> {
    seq!['['] + json_strings_joined(items) + seq![']']
}

/// `items` as a compact JSON array of strings.
///
/// Trusted: calls `serde_json::to_string` on the vector. `serde_json` fails
/// only where a value's `Serialize` fails or a map key is not a string;
/// strings in a vector do neither, so it succeeds, and it writes the text
/// that `json_string_array` states.
#[verifier::external_body]
pub(crate) fn to_json_string_array(items: &Vec<String>) -> (r: Result<String, serde_json::Error>)
    ensures
        r is Ok,
        r matches Ok(s) ==> s@ == json_string_array(crate::text::strs(items@)),
{
    serde_json::to_string(items)
}

/// The Base64 digit for `n` (below 64): `A`-`Z`, `a`-`z`, `0`-`9`, `+`, `/`.
pub open spec fn base64_digit(n: int) -> char {
    seq![
        'A', 'B', 'C', 'D', 'E', 'F', 'G', 'H', 'I', 'J', 'K', 'L', 'M',
        'N', 'O', 'P', 'Q', 'R', 'S', 'T', 'U', 'V', 'W', 'X', 'Y', 'Z',
        'a', 'b', 'c', 'd', 'e', 'f', 'g', 'h', 'i', 'j', 'k', 'l', 'm',
        'n', 'o', 'p', 'q', 'r', 's', 't', 'u', 'v', 'w', 'x', 'y', 'z',
        '0', '1', '2', '3', '4', '5', '6', '7', '8', '9', '+', '/',
    ][n]
}

/// The standard Base64 text of `data`, padded with `=`: each three bytes
/// as four digits of six bits, high bits first.
pub open spec fn base64_encoding(data: Seq<u8>) -> Seq<char>
    decreases data.len(),
{
    if data.len() == 0 {
        Seq::empty()
    } else if data.len() == 1 {
        let a = data[0] as int;
        seq![base64_digit(a / 4), base64_digit((a % 4) * 16), '=', '=']
    } else if data.len() == 2 {
        let a = data[0] as int;
        let b = data[1] as int;
        seq![base64_digit(a / 4), base64_digit((a % 4) * 16 + b / 16), base64_digit((b % 16) * 4), '=']
    } else {
        let a = data[0] as int;
        let b = data[1] as int;
        let c = data[2] as int;
        seq![
            base64_digit(a / 4),
            base64_digit((a % 4) * 16 + b / 16),
            base64_digit((b % 16) * 4 + c / 64),
            base64_digit(c % 64),
        ] + base64_encoding(data.skip(3))
    }
}

/// Whether `openssl` encodes `n` bytes without its length check failing:
/// the input and output lengths both fit in a C `int`.
pub open spec fn encodable_len(n: int) -> bool {
    &&& n <= i32::MAX
    &&& (n / 3) * 4 + (if n % 3 != 0 {
        4int
    } else {
        0int
    }) + 1 <= i32::MAX
}

/// `data` as Base64.
///
/// Trusted: calls `openssl::base64::encode_block`, which panics where the
/// lengths overflow a C `int` and otherwise returns the padded standard
/// Base64 text that `base64_encoding` states; `decode_block` reads that
/// text back to the same bytes.
#[verifier::external_body]
pub(crate) fn base64_encode(data: &[u8]) -> (r: String)
    requires
        encodable_len(data@.len() as int),
    ensures
        r@ == base64_encoding(data@),
        base64_decoding(r@) == Some(data@),
{
    openssl::base64::encode_block(data)
}

#[verifier::external_type_specification]
#[verifier::external_body]
pub struct ExErrorStack(openssl::error::ErrorStack);

/// The bytes that Base64 text `text` decodes to, if it is valid.
pub uninterp spec fn base64_decoding(text: Seq<char>) -> Option<Seq<u8>>;

/// `text` decoded from Base64.
///
/// Trusted: calls `openssl::base64::decode_block`, which trims `text`,
/// panics where the trimmed text is longer than a C `int` counts, and
/// otherwise returns the bytes or an error, as named by `base64_decoding`.
#[verifier::external_body]
pub(crate) fn base64_decode(text: &str) -> (r: Result<Vec<u8>, openssl::error::ErrorStack>)
    requires
        vstd::utf8::encode_utf8(crate::text::trim(text@)).len() <= i32::MAX,
    ensures
        r is Ok <==> base64_decoding(text@) is Some,
        r matches Ok(v) ==> base64_decoding(text@) == Some(v@),
{
    openssl::base64::decode_block(text)
}

/// The DER encoding that OpenSSL writes for the X.509 certificate it reads
/// from `der`, where it reads one and can write it.
pub uninterp spec fn reencoded_certificate(der: Seq<u8>) -> Option<Seq<u8>>;

/// The certificate read from `der`, as the DER bytes OpenSSL writes for it.
///
/// Trusted: calls `openssl::x509::X509::from_der` and writes the result back
/// out with `to_der`, so that the certificate reaches the library as plain
/// bytes; whether both succeed, and the bytes, are named by
/// `reencoded_certificate`.
#[verifier::external_body]
pub(crate) fn certificate_der(der: &[u8]) -> (r: Result<Vec<u8>, openssl::error::ErrorStack>)
    ensures
        r is Ok <==> reencoded_certificate(der@) is Some,
        r matches Ok(v) ==> reencoded_certificate(der@) == Some(v@),
{
    openssl::x509::X509::from_der(der)?.to_der()
}

/// The string-to-string map that a JSON object text holds, if the text is
/// one (a key given twice keeps its last value).
pub uninterp spec fn json_string_map(text: Seq<char>) -> Option<Map<Seq<char>, Seq<char>>>;

/// `pairs` list the entries of `m`: each key once, with its value.
pub open spec fn pairs_of_map(pairs: Seq<(String, String)>, m: Map<Seq<char>, Seq<char>>) -> bool {
    &&& forall|i: int, j: int|
        0 <= i < pairs.len() && 0 <= j < pairs.len() && i != j ==> #[trigger] pairs[i].0@
            != #[trigger] pairs[j].0@
    &&& forall|i: int|
        0 <= i < pairs.len() ==> m.contains_key(#[trigger] pairs[i].0@) && m[pairs[i].0@]
            == pairs[i].1@
    &&& forall|k: Seq<char>|
        m.contains_key(k) ==> exists|i: int| 0 <= i < pairs.len() && #[trigger] pairs[i].0@ == k
}

/// The entries of the JSON object `text` with string values, in the order
/// in which the map yields them.
///
/// Trusted: calls `serde_json::from_str` into a `rustc_hash::FxHashMap`
/// of strings and lists its entries; whether it parses, and the map, are
/// named by `json_string_map`. The order of the list is not stated.
#[verifier::external_body]
pub(crate) fn parse_json_string_map(text: &str) -> (r: Option<Vec<(String, String)>>)
    ensures
        r is Some <==> json_string_map(text@) is Some,
        r matches Some(v) ==> pairs_of_map(v@, json_string_map(text@)->0),
{
    serde_json::from_str::<rustc_hash::FxHashMap<String, String>>(text).ok().map(|m| m.into_iter().collect())
}

/// The map that a list of string pairs fills, a later pair for a key
/// replacing an earlier one.
pub open spec fn map_of_pairs(pairs: Seq<(Seq<char>, Seq<char>)>) -> Map<Seq<char>, Seq<char>>
    decreases pairs.len(),
{
    if pairs.len() == 0 {
        Map::empty()
    } else {
        map_of_pairs(pairs.drop_last()).insert(pairs.last().0, pairs.last().1)
    }
}

/// The string pairs of `v` as character sequences.
pub open spec fn string_pairs(v: Seq<(String, String)>) -> Seq<(Seq<char>, Seq<char>)> {
    v.map_values(|p: (String, String)| (p.0@, p.1@))
}

/// `pairs` as a pretty JSON object.
///
/// Trusted: fills a `rustc_hash::FxHashMap` with `pairs` and calls
/// `serde_json::to_string_pretty` on it, which fails only where a value's
/// `Serialize` fails or a key is not a string, neither of which strings do.
/// The text lists the keys in the order the map yields them, which is not
/// stated; what is stated is that `serde_json` reads it back as the map of
/// the pairs.
#[verifier::external_body]
pub(crate) fn to_pretty_json_string_map(pairs: Vec<(String, String)>) -> (r: Result<String, serde_json::Error>)
    ensures
        r is Ok,
        r matches Ok(s) ==> json_string_map(s@) == Some(map_of_pairs(string_pairs(pairs@))),
{
    let m: rustc_hash::FxHashMap<String, String> = pairs.into_iter().collect();
    serde_json::to_string_pretty(&m)
}

/// Whether OpenSSL reads an X.509 certificate from `der`.
pub uninterp spec fn is_der_certificate(der: Seq<u8>) -> bool;

/// Whether `der` holds an X.509 certificate.
///
/// Trusted: calls `openssl::x509::X509::from_der`; whether it succeeds is
/// named by `is_der_certificate`.
#[verifier::external_body]
pub(crate) fn reads_certificate(der: &[u8]) -> (r: bool)
    ensures
        r == is_der_certificate(der@),
{
    openssl::x509::X509::from_der(der).is_ok()
}

/// Another handle on the value that `a` shares.
///
/// Trusted: calls `std::sync::Arc::clone`, which, as std documents, makes
/// a new pointer to the same allocation, so the value is the same.
#[verifier::external_body]
pub(crate) fn share<T>(a: &std::sync::Arc<T>) -> (r: std::sync::Arc<T>)
    ensures
        r == *a,
{
    std::sync::Arc::clone(a)
}

} // verus!
