//! Trusted certificates: each kept, as the DER bytes it was read from, under
//! a key (the fingerprint of its Base64 text, for one trusted here).

use vstd::prelude::*;
use crate::text::{is_white_space, trim};
use crate::wrappers::{
    base64_decode, base64_decoding, base64_digit, base64_encode, base64_encoding, certificate_der,
    encodable_len, hex_encode, hex_lower, is_der_certificate, json_string_map, map_of_pairs,
    pairs_of_map, parse_json_string_map, reads_certificate, reencoded_certificate, sha256,
    sha256_digest, string_pairs, to_pretty_json_string_map,
};

verus! {

/// The fingerprint under which a certificate given as Base64 text `text` is
/// kept: the lowercase hex SHA-256 digest of the text's UTF-8 bytes.
pub open spec fn fingerprint(text: Seq<char>) -> Seq<char> {
    hex_lower(sha256(vstd::utf8::encode_utf8(text)))
}

/// The fingerprint of the certificate given as Base64 text `cert_der`.
pub fn cert_fingerprint(cert_der: &str) -> (r: String)
    ensures
        r@ == fingerprint(cert_der@),
        r@.len() == 64,
{
    let digest = sha256_digest(cert_der.as_bytes());
    proof {
        lemma_hex_lower_len(digest@);
    }
    hex_encode(digest.as_slice())
}

/// Hex text has two digits per byte.
proof fn lemma_hex_lower_len(data: Seq<u8>)
    ensures
        hex_lower(data).len() == 2 * data.len(),
    decreases data.len(),
{
    if data.len() > 0 {
        lemma_hex_lower_len(data.drop_last());
    }
}

/// Why a certificate was not kept.
#[derive(Debug, PartialEq, Eq)]
pub enum CertError {
    /// Its Base64 text does not decode.
    InvalidBase64,
    /// Its bytes are not a certificate.
    InvalidCertificate,
    /// A certificate could not be written back as DER, or its DER bytes are
    /// too long for the Base64 encoder.
    Encoding,
}

/// Whether Base64 text `text` is short enough for the decoder.
pub open spec fn decodable(text: Seq<char>) -> bool {
    vstd::utf8::encode_utf8(trim(text)).len() <= i32::MAX
}

/// Whether Base64 text `text` is short enough for the decoder.
pub fn base64_decodable(text: &str) -> (r: bool)
    ensures
        r == decodable(text@),
{
    let t = crate::text::trimmed(text);
    t.as_str().as_bytes().len() <= 2147483647
}

/// A character that UTF-8 writes as one byte and that trimming keeps.
pub open spec fn plain_char(c: char) -> bool {
    (c as u32) < 0x80 && !is_white_space(c)
}

/// Every Base64 digit is a plain character.
proof fn lemma_base64_digit_plain(n: int)
    requires
        0 <= n < 64,
    ensures
        plain_char(base64_digit(n)),
{
}

/// Base64 text has four characters for every three bytes or part of three,
/// and all of them are plain.
proof fn lemma_base64_shape(d: Seq<u8>)
    ensures
        base64_encoding(d).len() == (d.len() / 3) * 4 + (if d.len() % 3 != 0 {
            4int
        } else {
            0int
        }),
        forall|i: int| 0 <= i < base64_encoding(d).len() ==> plain_char(#[trigger] base64_encoding(d)[i]),
    decreases d.len(),
{
    let e = base64_encoding(d);
    if d.len() == 0 {
    } else if d.len() == 1 {
        let a = d[0] as int;
        lemma_base64_digit_plain(a / 4);
        lemma_base64_digit_plain((a % 4) * 16);
        assert(plain_char('='));
    } else if d.len() == 2 {
        let a = d[0] as int;
        let b = d[1] as int;
        lemma_base64_digit_plain(a / 4);
        lemma_base64_digit_plain((a % 4) * 16 + b / 16);
        lemma_base64_digit_plain((b % 16) * 4);
        assert(plain_char('='));
    } else {
        let a = d[0] as int;
        let b = d[1] as int;
        let c = d[2] as int;
        lemma_base64_digit_plain(a / 4);
        lemma_base64_digit_plain((a % 4) * 16 + b / 16);
        lemma_base64_digit_plain((b % 16) * 4 + c / 64);
        lemma_base64_digit_plain(c % 64);
        let rest = d.skip(3);
        lemma_base64_shape(rest);
        let head = seq![
            base64_digit(a / 4),
            base64_digit((a % 4) * 16 + b / 16),
            base64_digit((b % 16) * 4 + c / 64),
            base64_digit(c % 64),
        ];
        assert(e == head + base64_encoding(rest));
        assert forall|i: int| 0 <= i < e.len() implies plain_char(#[trigger] e[i]) by {
            if i >= 4 {
                assert(e[i] == base64_encoding(rest)[i - 4]);
            }
        }
    }
}

/// Text of plain characters is its own trim.
proof fn lemma_plain_trim(s: Seq<char>)
    requires
        forall|i: int| 0 <= i < s.len() ==> plain_char(#[trigger] s[i]),
    ensures
        trim(s) == s,
{
    if s.len() > 0 {
        assert(plain_char(s[0]));
        assert(plain_char(s[s.len() - 1]));
    }
}

/// Text of plain characters has one UTF-8 byte per character.
proof fn lemma_plain_utf8_len(s: Seq<char>)
    requires
        forall|i: int| 0 <= i < s.len() ==> plain_char(#[trigger] s[i]),
    ensures
        vstd::utf8::encode_utf8(s).len() == s.len(),
    decreases s.len(),
{
    if s.len() > 0 {
        assert(plain_char(s[0]));
        assert forall|i: int| 0 <= i < s.drop_first().len() implies plain_char(
            #[trigger] s.drop_first()[i],
        ) by {
            assert(s.drop_first()[i] == s[i + 1]);
        }
        lemma_plain_utf8_len(s.drop_first());
    }
}

/// The Base64 text of bytes short enough for the encoder is short enough
/// for the decoder.
pub proof fn lemma_encoding_decodable(d: Seq<u8>)
    requires
        encodable_len(d.len() as int),
    ensures
        decodable(base64_encoding(d)),
{
    let e = base64_encoding(d);
    lemma_base64_shape(d);
    lemma_plain_trim(e);
    lemma_plain_utf8_len(e);
}

/// One kept certificate: its key and its DER bytes.
pub type CertView = (Seq<char>, Seq<u8>);

/// Some certificate is kept under `k`.
pub open spec fn has_key(s: Seq<CertView>, k: Seq<char>) -> bool {
    exists|i: int| 0 <= i < s.len() && #[trigger] s[i].0 == k
}

/// The position of key `k` (meaningful when `has_key`).
pub open spec fn key_index(s: Seq<CertView>, k: Seq<char>) -> int {
    choose|i: int| 0 <= i < s.len() && #[trigger] s[i].0 == k
}

/// No key is kept twice.
pub open spec fn keys_unique(s: Seq<CertView>) -> bool {
    forall|i: int, j: int|
        0 <= i < s.len() && 0 <= j < s.len() && i != j ==> #[trigger] s[i].0 != #[trigger] s[j].0
}

/// `s` with `d` kept under `k`: in place of what `k` held, or added at the
/// end.
pub open spec fn put_cert(s: Seq<CertView>, k: Seq<char>, d: Seq<u8>) -> Seq<CertView> {
    if has_key(s, k) {
        s.update(key_index(s, k), (k, d))
    } else {
        s.push((k, d))
    }
}

/// `s` with `d` kept under `k` unless `k` holds a certificate already.
pub open spec fn trust_cert(s: Seq<CertView>, k: Seq<char>, d: Seq<u8>) -> Seq<CertView> {
    if has_key(s, k) {
        s
    } else {
        s.push((k, d))
    }
}

/// The bytes `b`, where OpenSSL reads a certificate from them.
pub open spec fn certificate_bytes(b: Seq<u8>) -> Option<Seq<u8>> {
    if is_der_certificate(b) {
        Some(b)
    } else {
        None
    }
}

/// The certificate bytes that Base64 text `text` decodes to, if it decodes
/// to a certificate.
pub open spec fn stored_certificate(text: Seq<char>) -> Option<Seq<u8>> {
    match base64_decoding(text) {
        Some(b) => certificate_bytes(b),
        None => None,
    }
}

/// Every kept certificate can be written back as DER short enough for the
/// Base64 encoder.
pub open spec fn writable(s: Seq<CertView>) -> bool {
    forall|i: int|
        0 <= i < s.len() ==> (#[trigger] reencoded_certificate(s[i].1) matches Some(d)
            && encodable_len(d.len() as int))
}

/// What the trust file holds for `s`: each key with the Base64 text of the
/// DER bytes OpenSSL writes for its certificate.
pub open spec fn stored_text(s: Seq<CertView>) -> Seq<(Seq<char>, Seq<char>)> {
    s.map_values(|c: CertView| (c.0, base64_encoding(reencoded_certificate(c.1)->0)))
}

/// What reading the trust file back gives for certificate bytes `b`: the
/// DER bytes OpenSSL wrote for it, if OpenSSL reads a certificate from them.
pub open spec fn read_back(b: Seq<u8>) -> Option<Seq<u8>> {
    certificate_bytes(reencoded_certificate(b)->0)
}

/// Trusting the same certificate a second time changes nothing: the same
/// keys hold the same certificates.
pub proof fn lemma_trust_twice(s: Seq<CertView>, k: Seq<char>, d: Seq<u8>, e: Seq<u8>)
    ensures
        trust_cert(trust_cert(s, k, d), k, e) == trust_cert(s, k, d),
{
    if !has_key(s, k) {
        assert(s.push((k, d))[s.len() as int].0 == k);
    }
}

/// The trusted certificates, each under its own key.
pub struct TrustedCerts {
    certs: Vec<(String, Vec<u8>)>,
}

/// The views of a list of keyed certificates.
pub open spec fn cert_views(v: Seq<(String, Vec<u8>)>) -> Seq<CertView> {
    v.map_values(|p: (String, Vec<u8>)| (p.0@, p.1@))
}

impl View for TrustedCerts {
    type V = Seq<CertView>;

    closed spec fn view(&self) -> Seq<CertView> {
        cert_views(self.certs@)
    }
}

impl TrustedCerts {
    #[verifier::type_invariant]
    closed spec fn wf(self) -> bool {
        keys_unique(cert_views(self.certs@))
    }

    /// No certificates.
    pub fn new() -> (r: Self)
        ensures
            r@ == Seq::<CertView>::empty(),
    {
        let r = TrustedCerts { certs: Vec::new() };
        assert(r@ =~= Seq::<CertView>::empty());
        r
    }

    /// Where key `key` stands.
    fn position(&self, key: &str) -> (r: Option<usize>)
        ensures
            keys_unique(self@),
            match r {
                Some(i) => i < self@.len() && has_key(self@, key@) && key_index(self@, key@) == i,
                None => !has_key(self@, key@),
            },
    {
        proof {
            use_type_invariant(self);
        }
        let n = self.certs.len();
        let mut i: usize = 0;
        while i < n
            invariant
                n == self@.len(),
                n == self.certs@.len(),
                i <= n,
                keys_unique(self@),
                forall|k: int| 0 <= k < i ==> self@[k].0 != key@,
            decreases n - i,
        {
            assert(self@[i as int].0 == self.certs@[i as int].0@);
            if crate::text::chars_equal(self.certs[i].0.as_str(), key) {
                assert(has_key(self@, key@));
                return Some(i);
            }
            i = i + 1;
        }
        None
    }

    /// Keeps `der` under `key`, in place of what `key` held.
    fn put(&mut self, key: String, der: Vec<u8>)
        ensures
            final(self)@ == put_cert(old(self)@, key@, der@),
    {
        let ghost k = key@;
        let ghost d = der@;
        let pos = self.position(key.as_str());
        let mut v: Vec<(String, Vec<u8>)> = Vec::new();
        std::mem::swap(&mut v, &mut self.certs);
        match pos {
            Some(i) => {
                v.set(i, (key, der));
                assert(cert_views(v@) =~= old(self)@.update(i as int, (k, d)));
                assert forall|a: int, b: int|
                    0 <= a < cert_views(v@).len() && 0 <= b < cert_views(v@).len() && a != b implies
                    #[trigger] cert_views(v@)[a].0 != #[trigger] cert_views(v@)[b].0 by {
                    if a != i && b != i {
                        assert(old(self)@[a].0 != old(self)@[b].0);
                    } else if a == i {
                        assert(old(self)@[b].0 != old(self)@[i as int].0);
                    } else {
                        assert(old(self)@[a].0 != old(self)@[i as int].0);
                    }
                }
            },
            None => {
                v.push((key, der));
                assert(cert_views(v@) =~= old(self)@.push((k, d)));
                assert forall|a: int, b: int|
                    0 <= a < cert_views(v@).len() && 0 <= b < cert_views(v@).len() && a != b implies
                    #[trigger] cert_views(v@)[a].0 != #[trigger] cert_views(v@)[b].0 by {
                    let n = old(self)@.len() as int;
                    if a < n && b < n {
                        assert(old(self)@[a].0 != old(self)@[b].0);
                    } else if a == n {
                        assert(old(self)@[b].0 != k);
                    } else {
                        assert(old(self)@[a].0 != k);
                    }
                }
            },
        }
        self.certs = v;
    }

    /// The keys in the order in which they were first kept.
    pub fn keys(&self) -> (r: Vec<String>)
        ensures
            crate::text::strs(r@) == self@.map_values(|c: CertView| c.0),
    {
        let ghost ks = self@.map_values(|c: CertView| c.0);
        let n = self.certs.len();
        let mut r: Vec<String> = Vec::new();
        let mut i: usize = 0;
        while i < n
            invariant
                n == self.certs@.len(),
                ks == self@.map_values(|c: CertView| c.0),
                i <= n,
                crate::text::strs(r@) =~= ks.take(i as int),
            decreases n - i,
        {
            assert(ks[i as int] == self.certs@[i as int].0@);
            r.push(self.certs[i].0.clone());
            assert(ks.take(i + 1) =~= ks.take(i as int).push(ks[i as int]));
            i = i + 1;
        }
        assert(ks.take(n as int) =~= ks);
        r
    }

    /// The DER bytes of the certificates, in key order.
    pub fn certificate_ders(&self) -> (r: Vec<Vec<u8>>)
        ensures
            r@.len() == self@.len(),
            forall|i: int| 0 <= i < r@.len() ==> #[trigger] r@[i]@ == self@[i].1,
    {
        let n = self.certs.len();
        let mut r: Vec<Vec<u8>> = Vec::new();
        let mut i: usize = 0;
        while i < n
            invariant
                n == self.certs@.len(),
                n == self@.len(),
                i <= n,
                r@.len() == i,
                forall|k: int| 0 <= k < i ==> #[trigger] r@[k]@ == self@[k].1,
            decreases n - i,
        {
            r.push(self.certs[i].1.clone());
            i = i + 1;
        }
        r
    }

    /// Keeps the certificate stored as Base64 text `der_base64` under `key`:
    /// the text must decode and OpenSSL must read a certificate from the
    /// bytes; otherwise nothing changes.
    pub fn insert_stored(&mut self, key: String, der_base64: &str) -> (r: Result<(), CertError>)
        requires
            decodable(der_base64@),
        ensures
            match base64_decoding(der_base64@) {
                None => r == Err::<(), CertError>(CertError::InvalidBase64) && final(self)@ == old(
                    self,
                )@,
                Some(b) => if is_der_certificate(b) {
                    r is Ok && final(self)@ == put_cert(old(self)@, key@, b)
                } else {
                    r == Err::<(), CertError>(CertError::InvalidCertificate) && final(self)@ == old(
                        self,
                    )@
                },
            },
    {
        let der = match base64_decode(der_base64) {
            Ok(der) => der,
            Err(_) => return Err(CertError::InvalidBase64),
        };
        if !reads_certificate(der.as_slice()) {
            return Err(CertError::InvalidCertificate);
        }
        self.put(key, der);
        Ok(())
    }

    /// Trusts the certificate given as Base64 text `cert_der`: it is kept
    /// under its fingerprint unless a certificate is kept there already.
    /// The text must decode and the bytes must be a certificate.
    pub fn add_trusted_cert(&mut self, cert_der: &str) -> (r: Result<(), CertError>)
        requires
            decodable(cert_der@),
        ensures
            match base64_decoding(cert_der@) {
                None => r == Err::<(), CertError>(CertError::InvalidBase64) && final(self)@ == old(
                    self,
                )@,
                Some(b) => if is_der_certificate(b) {
                    r is Ok && final(self)@ == trust_cert(old(self)@, fingerprint(cert_der@), b)
                } else {
                    r == Err::<(), CertError>(CertError::InvalidCertificate) && final(self)@ == old(
                        self,
                    )@
                },
            },
    {
        let key = cert_fingerprint(cert_der);
        let der = match base64_decode(cert_der) {
            Ok(der) => der,
            Err(_) => return Err(CertError::InvalidBase64),
        };
        if !reads_certificate(der.as_slice()) {
            return Err(CertError::InvalidCertificate);
        }
        if self.position(key.as_str()).is_none() {
            self.put(key, der);
        }
        Ok(())
    }

    /// The certificates as they are written to the trust file: each key with
    /// the Base64 text of the DER bytes OpenSSL writes for its certificate.
    /// It fails, with `Encoding`, exactly where some certificate cannot be
    /// written back or is too long for the Base64 encoder.
    pub fn stored_form(&self) -> (r: Result<Vec<(String, String)>, CertError>)
        ensures
            r is Ok <==> writable(self@),
            r matches Err(e) ==> e == CertError::Encoding,
            r matches Ok(v) ==> {
                &&& string_pairs(v@) == stored_text(self@)
                &&& forall|i: int|
                    0 <= i < v@.len() ==> base64_decoding(#[trigger] v@[i].1@)
                        == reencoded_certificate(self@[i].1)
            },
    {
        let n = self.certs.len();
        let mut r: Vec<(String, String)> = Vec::new();
        let mut i: usize = 0;
        while i < n
            invariant
                n == self.certs@.len(),
                n == self@.len(),
                i <= n,
                r@.len() == i,
                forall|k: int|
                    0 <= k < i ==> (#[trigger] reencoded_certificate(self@[k].1) matches Some(d)
                        && encodable_len(d.len() as int)),
                string_pairs(r@) =~= stored_text(self@).take(i as int),
                forall|k: int|
                    0 <= k < i ==> base64_decoding(#[trigger] r@[k].1@) == reencoded_certificate(
                        self@[k].1,
                    ),
            decreases n - i,
        {
            let b = &self.certs[i].1;
            assert(self@[i as int] == (self.certs@[i as int].0@, b@));
            let der = match certificate_der(b.as_slice()) {
                Ok(der) => der,
                Err(_) => {
                    assert(!(reencoded_certificate(self@[i as int].1) is Some));
                    return Err(CertError::Encoding);
                },
            };
            if !base64_encodable(der.len()) {
                assert(!encodable_len(der@.len() as int));
                return Err(CertError::Encoding);
            }
            let text = base64_encode(der.as_slice());
            let ghost old_r = r@;
            r.push((self.certs[i].0.clone(), text));
            assert(string_pairs(r@) =~= string_pairs(old_r).push((self@[i as int].0, text@)));
            assert(stored_text(self@).take(i + 1) =~= stored_text(self@).take(i as int).push(
                stored_text(self@)[i as int],
            ));
            i = i + 1;
        }
        assert(stored_text(self@).take(n as int) =~= stored_text(self@));
        Ok(r)
    }

    /// The trust file's text: the stored form as a pretty JSON object. Read
    /// back, it holds every key and no other, and each key's text decodes to
    /// the DER bytes written for its certificate.
    pub fn trust_file_text(&self) -> (r: Result<String, CertError>)
        ensures
            r is Ok <==> writable(self@),
            r matches Err(e) ==> e == CertError::Encoding,
            r matches Ok(t) ==> json_string_map(t@) == Some(map_of_pairs(stored_text(self@))),
            r matches Ok(t) ==> json_string_map(t@) matches Some(m) && {
                &&& forall|k: Seq<char>| m.contains_key(k) <==> has_key(self@, k)
                &&& forall|k: Seq<char>| m.contains_key(k) ==> decodable(#[trigger] m[k])
                &&& forall|i: int|
                    0 <= i < self@.len() ==> stored_certificate(m[#[trigger] self@[i].0])
                        == read_back(self@[i].1)
            },
    {
        proof {
            use_type_invariant(self);
        }
        let pairs = match self.stored_form() {
            Ok(pairs) => pairs,
            Err(e) => return Err(e),
        };
        let ghost v = pairs@;
        let text = to_pretty_json_string_map(pairs).unwrap();
        proof {
            let s = self@;
            let p = stored_text(s);
            let m = map_of_pairs(p);
            assert(string_pairs(v) == p);
            assert forall|i: int, j: int|
                0 <= i < p.len() && 0 <= j < p.len() && i != j implies #[trigger] p[i].0
                != #[trigger] p[j].0 by {
                assert(s[i].0 != s[j].0);
            }
            lemma_map_of_unique_pairs(p);
            assert forall|k: Seq<char>| m.contains_key(k) <==> has_key(s, k) by {
                if has_key(s, k) {
                    let i = choose|i: int| 0 <= i < s.len() && #[trigger] s[i].0 == k;
                    assert(p[i].0 == k);
                }
                if m.contains_key(k) {
                    let i = choose|i: int| 0 <= i < p.len() && #[trigger] p[i].0 == k;
                    assert(s[i].0 == k);
                }
            }
            assert forall|i: int| 0 <= i < s.len() implies stored_certificate(m[#[trigger] s[i].0])
                == read_back(s[i].1) && decodable(m[s[i].0]) by {
                assert(p[i].0 == s[i].0);
                assert(m[s[i].0] == p[i].1);
                assert(v[i].1@ == p[i].1);
                let d = reencoded_certificate(s[i].1)->0;
                assert(reencoded_certificate(s[i].1) matches Some(dd) && encodable_len(
                    dd.len() as int,
                ));
                lemma_encoding_decodable(d);
            }
            assert forall|k: Seq<char>| m.contains_key(k) implies decodable(#[trigger] m[k]) by {
                let i = choose|i: int| 0 <= i < p.len() && #[trigger] p[i].0 == k;
                assert(s[i].0 == k);
            }
        }
        Ok(text)
    }
}

/// The map of pairs whose keys are all different holds each pair's key
/// with that pair's value, and no other key.
proof fn lemma_map_of_unique_pairs(p: Seq<(Seq<char>, Seq<char>)>)
    requires
        forall|i: int, j: int|
            0 <= i < p.len() && 0 <= j < p.len() && i != j ==> #[trigger] p[i].0 != #[trigger] p[j].0,
    ensures
        forall|k: Seq<char>|
            map_of_pairs(p).contains_key(k) <==> exists|i: int| 0 <= i < p.len() && #[trigger] p[i].0 == k,
        forall|i: int| 0 <= i < p.len() ==> map_of_pairs(p)[#[trigger] p[i].0] == p[i].1,
    decreases p.len(),
{
    if p.len() > 0 {
        let q = p.drop_last();
        lemma_map_of_unique_pairs(q);
        assert forall|k: Seq<char>|
            map_of_pairs(p).contains_key(k) <==> exists|i: int| 0 <= i < p.len() && #[trigger] p[i].0 == k by {
            if map_of_pairs(q).contains_key(k) {
                let i = choose|i: int| 0 <= i < q.len() && #[trigger] q[i].0 == k;
                assert(p[i].0 == k);
            }
            if k == p.last().0 {
                assert(p[p.len() - 1].0 == k);
            }
            if exists|i: int| 0 <= i < p.len() && #[trigger] p[i].0 == k {
                let i = choose|i: int| 0 <= i < p.len() && #[trigger] p[i].0 == k;
                if i < q.len() {
                    assert(q[i].0 == k);
                }
            }
        }
        assert forall|i: int| 0 <= i < p.len() implies map_of_pairs(p)[#[trigger] p[i].0] == p[i].1 by {
            if i < q.len() {
                assert(q[i] == p[i]);
                assert(p[i].0 != p[p.len() - 1].0);
            }
        }
    }
}

/// The certificates that trust file text `text` keeps: `None` where an entry
/// is too long for the Base64 decoder; no certificate where the text is not
/// a JSON object of strings; otherwise every entry whose text decodes to a
/// certificate, under its key, and no other.
pub fn parse_trusted_certs(text: &str) -> (r: Option<TrustedCerts>)
    ensures
        json_string_map(text@) is None ==> (r matches Some(t) && t@.len() == 0),
        json_string_map(text@) matches Some(m) ==> {
            &&& r is None <==> exists|k: Seq<char>| m.contains_key(k) && !decodable(#[trigger] m[k])
            &&& r matches Some(t) ==> {
                &&& forall|k: Seq<char>|
                    has_key(t@, k) <==> m.contains_key(k) && #[trigger] stored_certificate(m[k]) is Some
                &&& forall|i: int|
                    0 <= i < t@.len() ==> m.contains_key(#[trigger] t@[i].0) && stored_certificate(
                        m[t@[i].0],
                    ) == Some(t@[i].1)
            }
        },
{
    let pairs = match parse_json_string_map(text) {
        Some(pairs) => pairs,
        None => {
            let t = TrustedCerts::new();
            return Some(t);
        },
    };
    let ghost m = json_string_map(text@)->0;
    let n = pairs.len();
    let mut i: usize = 0;
    while i < n
        invariant
            n == pairs@.len(),
            json_string_map(text@) == Some(m),
            pairs_of_map(pairs@, m),
            i <= n,
            forall|j: int| 0 <= j < i ==> decodable(#[trigger] pairs@[j].1@),
        decreases n - i,
    {
        if !base64_decodable(pairs[i].1.as_str()) {
            let ghost k = pairs@[i as int].0@;
            assert(m.contains_key(k) && m[k] == pairs@[i as int].1@);
            assert(m.contains_key(k) && !decodable(m[k]));
            return None;
        }
        i = i + 1;
    }
    assert forall|k: Seq<char>| m.contains_key(k) implies decodable(#[trigger] m[k]) by {
        let j = choose|j: int| 0 <= j < pairs@.len() && #[trigger] pairs@[j].0@ == k;
        assert(decodable(pairs@[j].1@));
    }
    let mut t = TrustedCerts::new();
    let mut i: usize = 0;
    while i < n
        invariant
            n == pairs@.len(),
            json_string_map(text@) == Some(m),
            pairs_of_map(pairs@, m),
            i <= n,
            forall|k: Seq<char>| m.contains_key(k) ==> decodable(#[trigger] m[k]),
            forall|k: Seq<char>|
                has_key(t@, k) <==> exists|j: int|
                    0 <= j < i && #[trigger] pairs@[j].0@ == k && stored_certificate(pairs@[j].1@)
                        is Some,
            forall|x: int|
                0 <= x < t@.len() ==> m.contains_key(#[trigger] t@[x].0) && stored_certificate(
                    m[t@[x].0],
                ) == Some(t@[x].1),
        decreases n - i,
    {
        let ghost before = t@;
        let ghost k = pairs@[i as int].0@;
        let ghost d_opt = stored_certificate(pairs@[i as int].1@);
        assert(m.contains_key(k) && m[k] == pairs@[i as int].1@);
        assert(decodable(pairs@[i as int].1@));
        assert(!has_key(before, k)) by {
            if has_key(before, k) {
                let j = choose|j: int|
                    0 <= j < i && #[trigger] pairs@[j].0@ == k && stored_certificate(pairs@[j].1@)
                        is Some;
                assert(pairs@[j].0@ == pairs@[i as int].0@);
            }
        }
        let _ = t.insert_stored(pairs[i].0.clone(), pairs[i].1.as_str());
        proof {
            if d_opt is Some {
                assert(t@ == before.push((k, d_opt->0)));
            } else {
                assert(t@ == before);
            }
            assert forall|kk: Seq<char>|
                has_key(t@, kk) <==> exists|j: int|
                    0 <= j < i + 1 && #[trigger] pairs@[j].0@ == kk && stored_certificate(
                        pairs@[j].1@,
                    ) is Some by {
                if has_key(t@, kk) {
                    let x = choose|x: int| 0 <= x < t@.len() && #[trigger] t@[x].0 == kk;
                    if x < before.len() {
                        assert(before[x].0 == kk);
                        assert(has_key(before, kk));
                        let j = choose|j: int|
                            0 <= j < i && #[trigger] pairs@[j].0@ == kk && stored_certificate(
                                pairs@[j].1@,
                            ) is Some;
                        assert(pairs@[j].0@ == kk);
                    } else {
                        assert(kk == k);
                        assert(pairs@[i as int].0@ == kk);
                    }
                }
                if exists|j: int|
                    0 <= j < i + 1 && #[trigger] pairs@[j].0@ == kk && stored_certificate(
                        pairs@[j].1@,
                    ) is Some {
                    let j = choose|j: int|
                        0 <= j < i + 1 && #[trigger] pairs@[j].0@ == kk && stored_certificate(
                            pairs@[j].1@,
                        ) is Some;
                    if j < i {
                        assert(pairs@[j].0@ == kk);
                        assert(has_key(before, kk));
                        let x = choose|x: int| 0 <= x < before.len() && #[trigger] before[x].0 == kk;
                        assert(t@[x] == before[x]);
                        assert(t@[x].0 == kk);
                    } else {
                        assert(t@[before.len() as int].0 == kk);
                    }
                }
            }
            assert forall|x: int|
                0 <= x < t@.len() implies m.contains_key(#[trigger] t@[x].0) && stored_certificate(
                    m[t@[x].0],
                ) == Some(t@[x].1) by {
                if x < before.len() {
                    assert(t@[x] == before[x]);
                } else {
                    assert(t@[x] == (k, d_opt->0));
                }
            }
        }
        i = i + 1;
    }
    proof {
        assert forall|k: Seq<char>|
            has_key(t@, k) <==> m.contains_key(k) && #[trigger] stored_certificate(m[k]) is Some by {
            if m.contains_key(k) && stored_certificate(m[k]) is Some {
                let j = choose|j: int| 0 <= j < pairs@.len() && #[trigger] pairs@[j].0@ == k;
                assert(pairs@[j].0@ == k);
                assert(m[k] == pairs@[j].1@);
            }
            if has_key(t@, k) {
                let j = choose|j: int|
                    0 <= j < n && #[trigger] pairs@[j].0@ == k && stored_certificate(pairs@[j].1@)
                        is Some;
                assert(m[pairs@[j].0@] == pairs@[j].1@);
            }
        }
    }
    Some(t)
}

/// Whether `n` bytes can be encoded as Base64 by the encoder.
pub fn base64_encodable(n: usize) -> (r: bool)
    ensures
        r == encodable_len(n as int),
{
    if n > 2147483647 {
        return false;
    }
    let whole: usize = (n / 3) * 4;
    let tail: usize = if n % 3 != 0 {
        4
    } else {
        0
    };
    whole + tail + 1 <= 2147483647
}

} // verus!
