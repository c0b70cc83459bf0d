//! Icons travel between installations as data URLs; these functions pick the
//! MIME type for a file name and the file extension for a MIME type.

use vstd::prelude::*;
use vstd::string::StrSliceExecFns;
use crate::text::{
    after_last_dot, after_last_dot_exec, chars_equal, lower_code, lower_equals, lower_equals_exec,
    push_char, push_str,
    first_occurrence_from, occurs_at, split_once, split_once_exec, strip_prefix, strip_prefix_exec,
    trim, trimmed,
};
use crate::wrappers::{
    base64_decode, base64_decoding, base64_encode, base64_encoding, encodable_len,
};

verus! {

/// The file extension under which an icon of MIME type `mime` is stored.
pub open spec fn spec_extension_for_mime_type(mime: Seq<char>) -> Seq<char> {
    if mime == "image/png"@ {
        "png"@
    } else if mime == "image/jpeg"@ {
        "jpg"@
    } else if mime == "image/gif"@ {
        "gif"@
    } else if mime == "image/icns"@ {
        "icns"@
    } else {
        "png"@
    }
}

/// An icon is always stored under one of the four known extensions, and
/// under `png` unless its MIME type is exactly `image/jpeg`, `image/gif` or
/// `image/icns` (so an unknown or differently written type gives `png`).
pub proof fn lemma_extension_is_known(mime: Seq<char>)
    ensures
        ({
            let x = spec_extension_for_mime_type(mime);
            x == "png"@ || x == "jpg"@ || x == "gif"@ || x == "icns"@
        }),
        mime != "image/jpeg"@ && mime != "image/gif"@ && mime != "image/icns"@
            ==> spec_extension_for_mime_type(mime) == "png"@,
{
}

/// The file extension for an icon of the given MIME type; unknown types are
/// stored as PNG.
pub fn extension_for_mime_type(mime_type: &str) -> (r: &'static str)
    ensures
        r@ == spec_extension_for_mime_type(mime_type@),
{
    if chars_equal(mime_type, "image/png") {
        "png"
    } else if chars_equal(mime_type, "image/jpeg") {
        "jpg"
    } else if chars_equal(mime_type, "image/gif") {
        "gif"
    } else if chars_equal(mime_type, "image/icns") {
        "icns"
    } else {
        "png"
    }
}

/// The MIME type under which an icon file is sent, from the extension of
/// its path (compared without regard to ASCII case).
pub open spec fn icon_mime_type(path: Seq<char>) -> Seq<char> {
    let ext = after_last_dot(path);
    if lower_equals(ext, "png"@) {
        "image/png"@
    } else if lower_equals(ext, "jpg"@) || lower_equals(ext, "jpeg"@) {
        "image/jpeg"@
    } else if lower_equals(ext, "gif"@) {
        "image/gif"@
    } else if lower_equals(ext, "icns"@) {
        "image/icns"@
    } else {
        "application/octet-stream"@
    }
}

/// The MIME type of the icon file at `path`.
pub fn icon_mime_type_exec(path: &str) -> (r: &'static str)
    ensures
        r@ == icon_mime_type(path@),
{
    let ext = after_last_dot_exec(path);
    let ext = ext.as_str();
    if lower_equals_exec(ext, "png") {
        "image/png"
    } else if lower_equals_exec(ext, "jpg") || lower_equals_exec(ext, "jpeg") {
        "image/jpeg"
    } else if lower_equals_exec(ext, "gif") {
        "image/gif"
    } else if lower_equals_exec(ext, "icns") {
        "image/icns"
    } else {
        "application/octet-stream"
    }
}

/// A data URL: `data:`, the MIME type, `;base64,`, the Base64 text.
pub open spec fn data_url(mime: Seq<char>, encoded: Seq<char>) -> Seq<char> {
    "data:"@ + mime + ";base64,"@ + encoded
}

/// The MIME type and Base64 text of a data URL, if it has the form
/// `data:<type>;base64,<text>` (cut at the first `;base64,`).
pub open spec fn split_data_url(url: Seq<char>) -> Option<(Seq<char>, Seq<char>)> {
    match strip_prefix(url, "data:"@) {
        Some(rest) => split_once(rest, ";base64,"@),
        None => None,
    }
}

/// The icon path to read for record icon `icon`: the trimmed path, or none
/// where it is blank.
pub open spec fn icon_path_to_read(icon: Seq<char>) -> Option<Seq<char>> {
    if trim(icon).len() == 0 {
        None
    } else {
        Some(trim(icon))
    }
}

/// The path of the icon file to read for `icon_path`, or `None` where the
/// record has no icon.
pub fn icon_file_path(icon_path: &str) -> (r: Option<String>)
    ensures
        match r {
            Some(p) => icon_path_to_read(icon_path@) == Some(p@),
            None => icon_path_to_read(icon_path@) is None,
        },
{
    let t = trimmed(icon_path);
    if t.as_str().unicode_len() == 0 {
        None
    } else {
        Some(t)
    }
}

/// The data URL that carries the icon file at `path` with contents
/// `contents`.
pub fn icon_data_url(path: &str, contents: &[u8]) -> (r: String)
    requires
        encodable_len(contents@.len() as int),
    ensures
        r@ == data_url(icon_mime_type(path@), base64_encoding(contents@)),
        split_data_url(r@) == Some((icon_mime_type(path@), base64_encoding(contents@))),
        split_data_url(r@) matches Some((m, e)) ==> base64_decoding(e) == Some(contents@),
        decodable_data_url(r@),
{
    let mime = icon_mime_type_exec(path);
    let encoded = base64_encode(contents);
    proof {
        lemma_mime_type_has_no_semicolon(path@);
        lemma_data_url_round_trip(icon_mime_type(path@), base64_encoding(contents@));
        crate::certs::lemma_encoding_decodable(contents@);
    }
    let mut r = "data:".to_owned();
    push_str(&mut r, mime);
    push_str(&mut r, ";base64,");
    push_str(&mut r, encoded.as_str());
    r
}

/// The MIME type and Base64 text of `url`, if it is a data URL.
pub fn split_data_url_exec(url: &str) -> (r: Option<(String, String)>)
    ensures
        match r {
            Some((m, e)) => split_data_url(url@) == Some((m@, e@)),
            None => split_data_url(url@) is None,
        },
{
    match strip_prefix_exec(url, "data:") {
        Some(rest) => split_once_exec(rest.as_str(), ";base64,"),
        None => None,
    }
}

/// The name of the managed icon file of record `id` with extension `ext`.
pub open spec fn icon_file_name(id: Seq<char>, ext: Seq<char>) -> Seq<char> {
    id + "."@ + ext
}

/// The name of the managed icon file of record `id` with extension `ext`.
pub fn icon_file_name_exec(id: &str, ext: &str) -> (r: String)
    ensures
        r@ == icon_file_name(id@, ext@),
{
    let mut r = id.to_owned();
    push_str(&mut r, ".");
    push_str(&mut r, ext);
    r
}

/// `c` with an ASCII capital made small, as `to_ascii_lowercase` does.
pub open spec fn ascii_lower(c: char) -> char {
    if 'A' <= c <= 'Z' {
        ((c as u32) + 32) as char
    } else {
        c
    }
}

/// `s` with ASCII capitals made small.
pub open spec fn lowered(s: Seq<char>) -> Seq<char> {
    s.map_values(|c: char| ascii_lower(c))
}

/// The code of a character made small is the code `lower_code` compares.
proof fn lemma_lower_code_of_lowered(c: char)
    ensures
        lower_code(c) == ascii_lower(c) as u32,
{
}

/// Whether `s` equals `lit` ignoring ASCII case depends only on `s` made
/// small.
proof fn lemma_lower_equals_by_lowered(s: Seq<char>, lit: Seq<char>)
    ensures
        lower_equals(s, lit) <==> (lowered(s).len() == lit.len() && forall|i: int|
            0 <= i < lit.len() ==> #[trigger] lowered(s)[i] as u32 == lit[i] as u32),
{
    assert forall|i: int| 0 <= i < s.len() implies lower_code(#[trigger] s[i]) == lowered(s)[i] as u32 by {
        lemma_lower_code_of_lowered(s[i]);
    }
    if lowered(s).len() == lit.len() && forall|i: int|
        0 <= i < lit.len() ==> #[trigger] lowered(s)[i] as u32 == lit[i] as u32 {
        assert forall|i: int| 0 <= i < s.len() implies lower_code(#[trigger] s[i]) == lit[i] as u32 by {
            assert(lowered(s)[i] as u32 == lit[i] as u32);
        }
    }
    if lower_equals(s, lit) {
        assert forall|i: int| 0 <= i < lit.len() implies #[trigger] lowered(s)[i] as u32 == lit[i] as u32 by {
            assert(lower_code(s[i]) == lit[i] as u32);
        }
    }
}

/// The MIME type of an icon depends on its extension only up to ASCII
/// case: two paths whose extensions are the same once made small get the
/// same type (so `logo.PNG` is sent as `image/png`, like `logo.png`).
pub proof fn lemma_mime_type_ignores_case(p: Seq<char>, q: Seq<char>)
    requires
        lowered(after_last_dot(p)) == lowered(after_last_dot(q)),
    ensures
        icon_mime_type(p) == icon_mime_type(q),
{
    let a = after_last_dot(p);
    let b = after_last_dot(q);
    lemma_lower_equals_by_lowered(a, "png"@);
    lemma_lower_equals_by_lowered(b, "png"@);
    lemma_lower_equals_by_lowered(a, "jpg"@);
    lemma_lower_equals_by_lowered(b, "jpg"@);
    lemma_lower_equals_by_lowered(a, "jpeg"@);
    lemma_lower_equals_by_lowered(b, "jpeg"@);
    lemma_lower_equals_by_lowered(a, "gif"@);
    lemma_lower_equals_by_lowered(b, "gif"@);
    lemma_lower_equals_by_lowered(a, "icns"@);
    lemma_lower_equals_by_lowered(b, "icns"@);
}

/// An icon whose extension, made small, is `png` is sent as `image/png`;
/// `jpg` or `jpeg` as `image/jpeg`; `gif` as `image/gif`; `icns` as
/// `image/icns`.
pub proof fn lemma_mime_type_by_extension(p: Seq<char>)
    ensures
        lowered(after_last_dot(p)) == "png"@ ==> icon_mime_type(p) == "image/png"@,
        lowered(after_last_dot(p)) == "jpg"@ ==> icon_mime_type(p) == "image/jpeg"@,
        lowered(after_last_dot(p)) == "jpeg"@ ==> icon_mime_type(p) == "image/jpeg"@,
        lowered(after_last_dot(p)) == "gif"@ ==> icon_mime_type(p) == "image/gif"@,
        lowered(after_last_dot(p)) == "icns"@ ==> icon_mime_type(p) == "image/icns"@,
{
    reveal_strlit("png");
    reveal_strlit("jpg");
    reveal_strlit("jpeg");
    reveal_strlit("gif");
    reveal_strlit("icns");
    let a = after_last_dot(p);
    lemma_lower_equals_by_lowered(a, "png"@);
    lemma_lower_equals_by_lowered(a, "jpg"@);
    lemma_lower_equals_by_lowered(a, "jpeg"@);
    lemma_lower_equals_by_lowered(a, "gif"@);
    lemma_lower_equals_by_lowered(a, "icns"@);
    let l = lowered(a);
    if l == "jpg"@ || l == "jpeg"@ || l == "gif"@ || l == "icns"@ {
        assert(!lower_equals(a, "png"@)) by {
            if l.len() == 3 {
                assert(l[0] as u32 != "png"@[0] as u32);
            }
        }
    }
    if l == "gif"@ || l == "icns"@ {
        assert(!lower_equals(a, "jpg"@)) by {
            if l.len() == 3 {
                assert(l[0] as u32 != "jpg"@[0] as u32);
            }
        }
        assert(!lower_equals(a, "jpeg"@)) by {
            if l.len() == 4 {
                assert(l[0] as u32 != "jpeg"@[0] as u32);
            }
        }
    }
    if l == "icns"@ {
        assert(!lower_equals(a, "gif"@));
    }
}

/// The extension of a managed icon copied from a file with extension `ext`:
/// the extension with ASCII capitals made small, or `png` where the file
/// has none.
pub open spec fn managed_icon_extension(ext: Option<Seq<char>>) -> Seq<char> {
    match ext {
        Some(x) => lowered(x),
        None => "png"@,
    }
}

/// `c` with an ASCII capital made small.
fn lower_char(c: char) -> (r: char)
    ensures
        r == ascii_lower(c),
{
    if 'A' <= c && c <= 'Z' {
        let b = (c as u8) + 32;
        b as char
    } else {
        c
    }
}

/// A managed icon's extension is the source file's extension with ASCII
/// capitals made small and no other change (so it has no capitals left),
/// or `png` where the source has none.
pub proof fn lemma_managed_icon_extension(ext: Option<Seq<char>>)
    ensures
        ext is None ==> managed_icon_extension(ext) == "png"@,
        ext is Some ==> ({
            let r = managed_icon_extension(ext);
            let x = ext->0;
            &&& r.len() == x.len()
            &&& lowered(r) == lowered(x)
            &&& forall|i: int| 0 <= i < r.len() ==> !('A' <= #[trigger] r[i] <= 'Z')
            &&& forall|i: int| 0 <= i < r.len() && !('A' <= x[i] <= 'Z') ==> #[trigger] r[i] == x[i]
        }),
{
    if ext is Some {
        let x = ext->0;
        let r = managed_icon_extension(ext);
        assert forall|i: int| 0 <= i < r.len() implies !('A' <= #[trigger] r[i] <= 'Z') by {
            lemma_lower_code_of_lowered(x[i]);
        }
        assert forall|i: int| 0 <= i < r.len() implies #[trigger] lowered(r)[i] == lowered(x)[i] by {
            lemma_lower_code_of_lowered(x[i]);
        }
        assert(lowered(r) =~= lowered(x));
    }
}

/// After the last dot of `prefix`, a dot and `ext` (which has no dot)
/// stands `ext`.
proof fn lemma_after_last_dot_of_suffix(prefix: Seq<char>, ext: Seq<char>)
    requires
        !ext.contains('.'),
    ensures
        after_last_dot(prefix + "."@ + ext) == ext,
    decreases ext.len(),
{
    reveal_strlit(".");
    let s = prefix + "."@ + ext;
    if ext.len() == 0 {
        assert(s.last() == '.');
    } else {
        assert(ext.last() != '.') by {
            if ext.last() == '.' {
                assert(ext.contains(ext[ext.len() - 1]));
            }
        }
        assert(!ext.drop_last().contains('.')) by {
            if ext.drop_last().contains('.') {
                let j = choose|j: int| 0 <= j < ext.drop_last().len() && ext.drop_last()[j] == '.';
                assert(ext[j] == '.');
            }
        }
        lemma_after_last_dot_of_suffix(prefix, ext.drop_last());
        assert(s.drop_last() =~= prefix + "."@ + ext.drop_last());
        assert(ext.drop_last().push(ext.last()) =~= ext);
    }
}

/// The managed icon file of record `id` is named by the id, a dot and the
/// extension; the extension, where it has no dot, is what follows the
/// name's last dot.
pub proof fn lemma_icon_file_name(id: Seq<char>, ext: Seq<char>)
    ensures
        icon_file_name(id, ext).len() == id.len() + 1 + ext.len(),
        icon_file_name(id, ext).take(id.len() as int) == id,
        icon_file_name(id, ext)[id.len() as int] == '.',
        icon_file_name(id, ext).skip(id.len() + 1int) == ext,
        !ext.contains('.') ==> after_last_dot(icon_file_name(id, ext)) == ext,
{
    reveal_strlit(".");
    let n = icon_file_name(id, ext);
    assert(n.take(id.len() as int) =~= id);
    assert(n.skip(id.len() + 1int) =~= ext);
    if !ext.contains('.') {
        lemma_after_last_dot_of_suffix(id, ext);
    }
}

/// The extension of a managed icon copied from a file with extension `ext`.
pub fn managed_icon_extension_exec(ext: Option<&str>) -> (r: String)
    ensures
        r@ == managed_icon_extension(opt_str_chars(ext)),
{
    match ext {
        None => "png".to_owned(),
        Some(x) => {
            let n = x.unicode_len();
            let mut r = String::new();
            let mut i: usize = 0;
            while i < n
                invariant
                    n == x@.len(),
                    i <= n,
                    r@ =~= x@.take(i as int).map_values(|c: char| ascii_lower(c)),
                decreases n - i,
            {
                let c = lower_char(x.get_char(i));
                push_char(&mut r, c);
                i = i + 1;
            }
            assert(x@.take(n as int) =~= x@);
            r
        },
    }
}

/// The characters of an optional string slice.
pub open spec fn opt_str_chars(o: Option<&str>) -> Option<Seq<char>> {
    match o {
        Some(s) => Some(s@),
        None => None,
    }
}

/// An icon file to write: its name in the icon directory and its bytes.
pub struct IconFile {
    pub file_name: String,
    pub contents: Vec<u8>,
}

/// Why an icon could not be taken from a data URL.
#[derive(Debug, PartialEq, Eq)]
pub enum IconError {
    /// The Base64 text of the data URL does not decode.
    InvalidBase64,
}

/// Whether the Base64 text of data URL `url` (if it is one) is short enough
/// for the decoder.
pub open spec fn decodable_data_url(url: Seq<char>) -> bool {
    match split_data_url(url) {
        Some((_, e)) => vstd::utf8::encode_utf8(trim(e)).len() <= i32::MAX,
        None => true,
    }
}

/// Whether the Base64 text of data URL `url` (if it is one) is short enough
/// for the decoder.
pub fn data_url_decodable(url: &str) -> (r: bool)
    ensures
        r == decodable_data_url(url@),
{
    match split_data_url_exec(url) {
        Some((_, e)) => crate::certs::base64_decodable(e.as_str()),
        None => true,
    }
}

/// The icon file that data URL `data_url` carries for record `id`: `None`
/// where it is not a data URL, an error where its Base64 text does not
/// decode, and otherwise the file named after `id` with the extension of
/// the MIME type.
pub fn decode_icon_data_url(id: &str, data_url: &str) -> (r: Result<Option<IconFile>, IconError>)
    requires
        decodable_data_url(data_url@),
    ensures
        match split_data_url(data_url@) {
            None => r == Ok::<Option<IconFile>, IconError>(None),
            Some((mime, encoded)) => match base64_decoding(encoded) {
                None => r == Err::<Option<IconFile>, IconError>(IconError::InvalidBase64),
                Some(bytes) => r matches Ok(Some(f)) && f.file_name@ == icon_file_name(
                    id@,
                    spec_extension_for_mime_type(mime),
                ) && f.contents@ == bytes,
            },
        },
{
    match split_data_url_exec(data_url) {
        None => Ok(None),
        Some((mime, encoded)) => {
            let extension = extension_for_mime_type(mime.as_str());
            let file_name = icon_file_name_exec(id, extension);
            match base64_decode(encoded.as_str()) {
                Ok(contents) => Ok(Some(IconFile { file_name, contents })),
                Err(_) => Err(IconError::InvalidBase64),
            }
        },
    }
}

/// The first occurrence at or after `i` is at `k` when `pat` occurs at `k`
/// and nowhere in between.
proof fn lemma_first_occurrence_at(s: Seq<char>, pat: Seq<char>, i: nat, k: nat)
    requires
        i <= k,
        occurs_at(s, pat, k as int),
        forall|j: int| i <= j < k ==> !occurs_at(s, pat, j),
    ensures
        first_occurrence_from(s, pat, i) == Some(k as int),
    decreases k - i,
{
    if i < k {
        assert(!occurs_at(s, pat, i as int));
        lemma_first_occurrence_at(s, pat, i + 1, k);
    }
}

/// A data URL built from a MIME type without `;` splits back into that type
/// and the Base64 text: what export writes, import reads.
pub proof fn lemma_data_url_round_trip(mime: Seq<char>, encoded: Seq<char>)
    requires
        !mime.contains(';'),
    ensures
        split_data_url(data_url(mime, encoded)) == Some((mime, encoded)),
{
    reveal_strlit(";base64,");
    let p = "data:"@;
    let pat = ";base64,"@;
    let rest = mime + pat + encoded;
    let url = data_url(mime, encoded);
    assert(url =~= p + rest);
    assert(url.take(p.len() as int) =~= p);
    assert(url.skip(p.len() as int) =~= rest);
    assert(strip_prefix(url, p) == Some(rest));
    assert(rest.subrange(mime.len() as int, (mime.len() + pat.len()) as int) =~= pat);
    assert forall|j: int| 0 <= j < mime.len() implies !occurs_at(rest, pat, j) by {
        if occurs_at(rest, pat, j) {
            assert(rest.subrange(j, j + pat.len())[0] == pat[0]);
            assert(rest[j] == mime[j]);
            assert(mime.contains(mime[j]));
        }
    }
    lemma_first_occurrence_at(rest, pat, 0, mime.len());
    assert(rest.take(mime.len() as int) =~= mime);
    assert(rest.skip((mime.len() + pat.len()) as int) =~= encoded);
}

/// No MIME type that an icon is sent under holds a `;`.
proof fn lemma_mime_type_has_no_semicolon(path: Seq<char>)
    ensures
        !icon_mime_type(path).contains(';'),
{
    reveal_strlit("image/png");
    reveal_strlit("image/jpeg");
    reveal_strlit("image/gif");
    reveal_strlit("image/icns");
    reveal_strlit("application/octet-stream");
    let m = icon_mime_type(path);
    assert forall|i: int| 0 <= i < m.len() implies m[i] != ';' by {}
}

/// An icon file named `.png`, `.jpg`, `.gif` or `.icns` comes back under the
/// same extension after export and import. (A `.jpeg` file comes back as
/// `.jpg`.)
pub proof fn lemma_icon_extension_round_trip(path: Seq<char>)
    requires
        after_last_dot(path) == "png"@ || after_last_dot(path) == "jpg"@ || after_last_dot(path)
            == "gif"@ || after_last_dot(path) == "icns"@,
    ensures
        spec_extension_for_mime_type(icon_mime_type(path)) == after_last_dot(path),
{
    reveal_strlit("png");
    reveal_strlit("jpg");
    reveal_strlit("jpeg");
    reveal_strlit("gif");
    reveal_strlit("icns");
    reveal_strlit("image/png");
    reveal_strlit("image/jpeg");
    reveal_strlit("image/gif");
    reveal_strlit("image/icns");
    let ext = after_last_dot(path);
    if ext == "png"@ {
        assert(lower_equals(ext, "png"@));
    } else if ext == "jpg"@ {
        assert(!lower_equals(ext, "png"@)) by {
            assert(lower_code(ext[0]) != "png"@[0] as u32);
        }
        assert(lower_equals(ext, "jpg"@));
    } else if ext == "gif"@ {
        assert(!lower_equals(ext, "png"@)) by {
            assert(lower_code(ext[0]) != "png"@[0] as u32);
        }
        assert(!lower_equals(ext, "jpg"@)) by {
            assert(lower_code(ext[0]) != "jpg"@[0] as u32);
        }
        assert(lower_equals(ext, "gif"@));
    } else {
        assert(!lower_equals(ext, "jpeg"@)) by {
            assert(lower_code(ext[0]) != "jpeg"@[0] as u32);
        }
        assert(lower_equals(ext, "icns"@));
    }
    assert("image/png"@ != "image/jpeg"@) by {
        assert("image/png"@.len() != "image/jpeg"@.len());
    }
    assert("image/gif"@ != "image/png"@) by {
        assert("image/gif"@[6] != "image/png"@[6]);
    }
    assert("image/gif"@ != "image/jpeg"@) by {
        assert("image/gif"@.len() != "image/jpeg"@.len());
    }
    assert("image/icns"@ != "image/png"@) by {
        assert("image/icns"@.len() != "image/png"@.len());
    }
    assert("image/icns"@ != "image/jpeg"@) by {
        assert("image/icns"@[6] != "image/jpeg"@[6]);
    }
    assert("image/icns"@ != "image/gif"@) by {
        assert("image/icns"@.len() != "image/gif"@.len());
    }
}

} // verus!
