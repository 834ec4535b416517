//! A rendezvous service you can run on a bare IP address.
//!
//! The service can present a self-signed certificate, and the client checks it
//! against a fingerprint given in advance. The fingerprint travels in the URL,
//! after a `#`:
//!
//! ```text
//! wss://203.0.113.5:9000#4f3a...c1
//! ```
//!
//! A fragment because it is not sent to the server: it is a fact *about* the
//! server. A URL with no fragment is verified against the usual public roots.

use vstd::prelude::*;

use rustls::pki_types::PrivateKeyDer;

use super::error::{Error, Fault};
use crate::digest;
use crate::digest::sha256_of;
use crate::text;
use crate::text::{
    bytes_of_hex,
    chars_of,
    decimal_of,
    first_position,
    hex_of,
    is_separator,
    joined,
    lowercase_of,
    path_under,
};

verus! {

/// In what form a private key is written down.
#[derive(Debug, Clone, Copy, PartialEq, Eq, Structural)]
pub enum KeyKind {
    Pkcs1,
    Sec1,
    Pkcs8,
    Other,
}

/// A certificate this service presents, and the fingerprint devices check.
pub struct Certificate {
    chain: Vec<Vec<u8>>,
    kind: KeyKind,
    key: Vec<u8>,
    fingerprint: [u8; 32],
}

/// Byte strings, as values.
pub open spec fn byte_strings(s: Seq<Vec<u8>>) -> Seq<Seq<u8>> {
    Seq::new(s.len(), |i: int| s[i]@)
}

/// The certificates that a PEM text holds, or why it cannot be read.
pub uninterp spec fn pem_certificates(pem: Seq<u8>) -> Result<Seq<Seq<u8>>, Seq<char>>;

/// The first private key that a PEM text holds, with its form, or why it cannot
/// be read.
pub uninterp spec fn pem_private_key(pem: Seq<u8>) -> Result<Option<(KeyKind, Seq<u8>)>, Seq<char>>;

/// `rustls_pemfile::certs`: the certificates in the order in which they stand, or
/// the first problem in words. Both depend on the text alone.
#[verifier::external_body]
fn certificates_of(pem: &[u8]) -> (result: Result<Vec<Vec<u8>>, String>)
    ensures
        chain_view(result) == pem_certificates(pem@),
{
    let mut rest: &[u8] = pem;
    let read: Result<Vec<_>, _> = rustls_pemfile::certs(&mut rest).collect();
    match read {
        Ok(chain) => Ok(chain.iter().map(|c| c.to_vec()).collect()),
        Err(e) => Err(e.to_string()),
    }
}

/// `rustls_pemfile::private_key`: the first key, with the form that it has, or
/// the first problem in words. Both depend on the text alone.
#[verifier::external_body]
fn private_key_of(pem: &[u8]) -> (result: Result<Option<(KeyKind, Vec<u8>)>, String>)
    ensures
        key_view(result) == pem_private_key(pem@),
{
    let mut rest: &[u8] = pem;
    match rustls_pemfile::private_key(&mut rest) {
        Ok(None) => Ok(None),
        Ok(Some(PrivateKeyDer::Pkcs1(k))) => Ok(Some((KeyKind::Pkcs1, k.secret_pkcs1_der().to_vec()))),
        Ok(Some(PrivateKeyDer::Sec1(k))) => Ok(Some((KeyKind::Sec1, k.secret_sec1_der().to_vec()))),
        Ok(Some(PrivateKeyDer::Pkcs8(k))) => Ok(Some((KeyKind::Pkcs8, k.secret_pkcs8_der().to_vec()))),
        Ok(Some(k)) => Ok(Some((KeyKind::Other, k.secret_der().to_vec()))),
        Err(e) => Err(e.to_string()),
    }
}

/// What was read of certificates, as values.
pub open spec fn chain_view(chain: Result<Vec<Vec<u8>>, String>) -> Result<
    Seq<Seq<u8>>,
    Seq<char>,
> {
    match chain {
        Ok(list) => Ok(byte_strings(list@)),
        Err(why) => Err(why@),
    }
}

/// What was read of a private key, as values.
pub open spec fn key_view(key: Result<Option<(KeyKind, Vec<u8>)>, String>) -> Result<
    Option<(KeyKind, Seq<u8>)>,
    Seq<char>,
> {
    match key {
        Ok(Some(k)) => Ok(Some((k.0, k.1@))),
        Ok(None) => Ok(None),
        Err(why) => Err(why@),
    }
}

/// Why no certificate can be made of what was read from two files, if none can.
pub open spec fn unusable(
    chain: Result<Seq<Seq<u8>>, Seq<char>>,
    key: Result<Option<(KeyKind, Seq<u8>)>, Seq<char>>,
    cert_path: Seq<char>,
    key_path: Seq<char>,
) -> Option<Fault> {
    match chain {
        Err(why) => Some(Fault::Tls("reading certificates: "@ + why)),
        Ok(list) => if list.len() == 0 {
            Some(Fault::Tls(cert_path + " holds no certificate"@))
        } else {
            match key {
                Err(why) => Some(Fault::Tls("reading the private key: "@ + why)),
                Ok(None) => Some(Fault::Tls(key_path + " holds no private key"@)),
                Ok(Some(_)) => None,
            }
        },
    }
}

impl Certificate {
    /// The certificate that is presented, the one it was issued under after it.
    pub closed spec fn chain_bytes(&self) -> Seq<Seq<u8>> {
        byte_strings(self.chain@)
    }

    /// The private key, with the form that it has.
    pub closed spec fn key_bytes(&self) -> (KeyKind, Seq<u8>) {
        (self.kind, self.key@)
    }

    /// The fingerprint is that of the certificate presented.
    #[verifier::type_invariant]
    spec fn matches(&self) -> bool {
        self.chain@.len() > 0 && self.fingerprint@ == digest::sha256_digest(self.chain@[0]@)
    }

    /// Makes a certificate of the texts that were read from two files.
    pub fn from_pem(cert: &[u8], key: &[u8], cert_path: &str, key_path: &str) -> (result: Result<
        Self,
        Error,
    >)
        ensures
            match result {
                Ok(made) => {
                    &&& unusable(
                        pem_certificates(cert@),
                        pem_private_key(key@),
                        cert_path@,
                        key_path@,
                    ) is None
                    &&& pem_certificates(cert@) == Ok::<Seq<Seq<u8>>, Seq<char>>(
                        made.chain_bytes(),
                    )
                    &&& pem_private_key(key@) == Ok::<Option<(KeyKind, Seq<u8>)>, Seq<char>>(
                        Some(made.key_bytes()),
                    )
                },
                Err(e) => unusable(
                    pem_certificates(cert@),
                    pem_private_key(key@),
                    cert_path@,
                    key_path@,
                ) == Some(e@),
            },
    {
        Certificate::of_parts(certificates_of(cert), private_key_of(key), cert_path, key_path)
    }

    /// Makes a certificate of what two files hold.
    pub fn of_parts(
        chain: Result<Vec<Vec<u8>>, String>,
        key: Result<Option<(KeyKind, Vec<u8>)>, String>,
        cert_path: &str,
        key_path: &str,
    ) -> (result: Result<Self, Error>)
        ensures
            match result {
                Ok(made) => {
                    &&& unusable(chain_view(chain), key_view(key), cert_path@, key_path@) is None
                    &&& chain_view(chain) == Ok::<Seq<Seq<u8>>, Seq<char>>(made.chain_bytes())
                    &&& key_view(key) == Ok::<Option<(KeyKind, Seq<u8>)>, Seq<char>>(
                        Some(made.key_bytes()),
                    )
                },
                Err(e) => unusable(chain_view(chain), key_view(key), cert_path@, key_path@)
                    == Some(e@),
            },
    {
        let chain: Vec<Vec<u8>> = match chain {
            Err(why) => {
                return Err(Error::Tls("reading certificates: ".to_owned().concat(why.as_str())));
            },
            Ok(chain) => chain,
        };
        if chain.len() == 0 {
            return Err(Error::Tls(cert_path.to_owned().concat(" holds no certificate")));
        }
        match key {
            Err(why) => Err(
                Error::Tls("reading the private key: ".to_owned().concat(why.as_str())),
            ),
            Ok(None) => Err(Error::Tls(key_path.to_owned().concat(" holds no private key"))),
            Ok(Some((kind, key))) => {
                let fingerprint: [u8; 32] = fingerprint_of(chain[0].as_slice());
                Ok(Certificate { chain, kind, key, fingerprint })
            },
        }
    }

    /// What a device must be told to expect, as hexadecimal.
    pub fn fingerprint(&self) -> (text: String)
        ensures
            self.chain_bytes().len() > 0,
            text@ == text::hex(digest::sha256_digest(self.chain_bytes()[0])),
            text::is_hex(text@),
            text::lowered(text@) == text@,
            vstd::utf8::is_ascii_chars(text@),
    {
        proof {
            use_type_invariant(self);
            text::hex_is_lower(self.fingerprint@);
        }
        hex_of(&self.fingerprint)
    }

    /// The whole setting, ready to paste into a device.
    pub fn url_for(&self, host: &str, port: u16) -> (url: String)
        ensures
            self.chain_bytes().len() > 0,
            url@ == "wss://"@ + host@ + ":"@ + text::decimal(port as nat) + "#"@ + text::hex(
                digest::sha256_digest(self.chain_bytes()[0]),
            ),
    {
        "wss://".to_owned().concat(host).concat(":").concat(&decimal_of(port as u64)).concat(
            "#",
        ).concat(&self.fingerprint())
    }

    /// The certificates and the key, for whoever serves them.
    pub fn into_parts(self) -> (parts: (Vec<Vec<u8>>, KeyKind, Vec<u8>))
        ensures
            byte_strings(parts.0@) == self.chain_bytes(),
            (parts.1, parts.2@) == self.key_bytes(),
    {
        (self.chain, self.kind, self.key)
    }
}

/// A certificate and its key, each in PEM: the one text holds exactly one
/// certificate, the other a private key in the general form.
pub open spec fn is_pair(cert: Seq<char>, key: Seq<char>) -> bool {
    &&& pem_certificates(vstd::utf8::encode_utf8(cert)) matches Ok(chain) && chain.len() == 1
    &&& pem_private_key(vstd::utf8::encode_utf8(key)) matches Ok(Some((kind, _))) && kind
        == KeyKind::Pkcs8
}

/// A name that no certificate is issued for: it holds more than ASCII.
pub open spec fn is_foreign(name: Seq<char>) -> bool {
    !vstd::utf8::is_ascii_chars(name)
}

/// `rcgen::generate_simple_self_signed`: a new certificate for these names and
/// its key, both in PEM, the certificate first, or the problem in words. A name
/// that is not ASCII makes it fail. The key is drawn at random, so it is left
/// unsaid which certificate and key come out, and when drawing one fails.
#[verifier::external_body]
fn self_signed(names: Vec<String>) -> (made: Result<(String, String), String>)
    ensures
        made matches Ok(texts) ==> is_pair(texts.0@, texts.1@),
        (exists|i: int| 0 <= i < names@.len() && is_foreign(#[trigger] names@[i]@)) ==> made is Err,
{
    match rcgen::generate_simple_self_signed(names) {
        Ok(made) => Ok((made.cert.pem(), made.key_pair.serialize_pem())),
        Err(e) => Err(e.to_string()),
    }
}

/// Whether the certificate that is there is used: it is where its key is there
/// too. It is kept rather than made anew on every start, because the fingerprint
/// is what every device has been told to expect.
pub fn is_kept(has_certificate: bool, has_key: bool) -> (yes: bool)
    ensures
        yes == (has_certificate && has_key),
{
    has_certificate && has_key
}

/// What came of making a certificate: the two texts to be kept, or why there are
/// none.
pub fn generated(made: Result<(String, String), String>) -> (result: Result<
    (String, String),
    Error,
>)
    ensures
        match (made, result) {
            (Ok(texts), Ok(kept)) => kept.0@ == texts.0@ && kept.1@ == texts.1@,
            (Err(why), Err(e)) => e@ == Fault::Tls("generating a certificate: "@ + why@),
            _ => false,
        },
{
    match made {
        Ok(texts) => Ok(texts),
        Err(why) => Err(Error::Tls("generating a certificate: ".to_owned().concat(why.as_str()))),
    }
}

/// A new certificate for these names and its key, both in PEM, the certificate
/// first. Names are ASCII.
///
/// The names are not checked by a client that was told the fingerprint, but they
/// matter to anything else that might look.
pub fn generate(names: Vec<String>) -> (result: Result<(String, String), Error>)
    ensures
        result matches Ok(texts) ==> is_pair(texts.0@, texts.1@),
        (exists|i: int| 0 <= i < names@.len() && is_foreign(#[trigger] names@[i]@))
            ==> result is Err,
        result matches Err(e) ==> exists|why: Seq<char>|
            e@ == Fault::Tls(#[trigger] ("generating a certificate: "@ + why)),
{
    generated(self_signed(names))
}

/// SHA-256 of the certificate, which is what everything else calls a
/// certificate fingerprint.
///
/// Not BLAKE3, though everything else here uses it. This is the one value a
/// person may have to compare against something printed by another tool.
pub fn fingerprint_of(cert: &[u8]) -> (fingerprint: [u8; 32])
    ensures
        fingerprint@ == digest::sha256_digest(cert@),
{
    sha256_of(cert)
}

/// Thirty-two bytes as hexadecimal.
pub fn hex(bytes: &[u8; 32]) -> (text: String)
    ensures
        text@ == text::hex(bytes@),
{
    hex_of(bytes)
}

/// Split a rendezvous URL into the part to dial and the fingerprint to expect.
///
/// A URL with no fragment gets `None`, and is verified the ordinary way against
/// public roots.
pub fn split_pin<'a>(url: &'a str) -> (parts: (&'a str, Option<&'a str>))
    ensures
        ({
            let at = text::first_of(url@, '#');
            if at < 0 {
                parts.0@ == url@ && parts.1 is None
            } else {
                &&& parts.0@ == url@.take(at)
                &&& match parts.1 {
                    Some(pin) => pin@ == url@.skip(at + 1) && pin@.len() > 0,
                    None => at + 1 == url@.len(),
                }
            }
        }),
{
    let chars: Vec<char> = chars_of(url);
    match first_position(&chars, '#') {
        None => (url, None),
        Some(at) => {
            let len: usize = chars.len();
            let address: &str = url.substring_char(0, at);
            assert(url@.subrange(0, at as int) =~= url@.take(at as int));
            if at + 1 == len {
                (address, None)
            } else {
                let pin: &str = url.substring_char(at + 1, len);
                assert(url@.subrange(at + 1, len as int) =~= url@.skip(at + 1));
                (address, Some(pin))
            }
        },
    }
}

/// Accept exactly one certificate, by fingerprint, and nothing else.
#[derive(Debug, Clone, Copy)]
pub struct Pinned {
    pub expected: [u8; 32],
}

impl Pinned {
    /// Whether the offered certificate is the one that was expected.
    ///
    /// Every byte is compared whatever the bytes before it say: a comparison
    /// that returns early tells where it stopped matching.
    pub fn check(&self, offered: &[u8]) -> (result: Result<(), String>)
        ensures
            match result {
                Ok(_) => digest::sha256_digest(offered@) == self.expected@,
                Err(why) => {
                    &&& digest::sha256_digest(offered@) != self.expected@
                    &&& why@
                        == "the rendezvous service offered a certificate with fingerprint "@
                        + text::hex(digest::sha256_digest(offered@))
                        + ", and this device was told to expect "@ + text::hex(self.expected@)
                },
            },
    {
        let found: [u8; 32] = fingerprint_of(offered);
        let mut same: u8 = 0;
        let mut i: usize = 0;
        while i < 32
            invariant
                i <= 32,
                same == 0 <==> (forall|j: int| 0 <= j < i ==> found[j] == self.expected[j]),
            decreases 32 - i,
        {
            let x: u8 = found[i];
            let y: u8 = self.expected[i];
            assert((same | (x ^ y)) == 0 <==> same == 0 && x == y) by (bit_vector);
            same = same | (x ^ y);
            i += 1;
        }
        if same == 0 {
            assert(found@ =~= self.expected@);
            Ok(())
        } else {
            Err(
                "the rendezvous service offered a certificate with fingerprint ".to_owned().concat(
                    &hex(&found),
                ).concat(", and this device was told to expect ").concat(&hex(&self.expected)),
            )
        }
    }
}

/// What a pasted fingerprint is read as: without the separators that other
/// tools print.
pub open spec fn stripped(pasted: Seq<char>) -> Seq<char>
    decreases pasted.len(),
{
    if pasted.len() == 0 {
        Seq::empty()
    } else if text::separator(pasted.last()) {
        stripped(pasted.drop_last())
    } else {
        stripped(pasted.drop_last()).push(pasted.last())
    }
}

/// A pasted fingerprint without separators, in lower case.
pub open spec fn cleaned(pasted: Seq<char>) -> Seq<char>
    decreases pasted.len(),
{
    if pasted.len() == 0 {
        Seq::empty()
    } else {
        let before = cleaned(pasted.drop_last());
        if text::separator(pasted.last()) {
            before
        } else {
            before + text::lowercase(pasted.last())
        }
    }
}

/// The characters of a pasted fingerprint that are no separators.
fn strip(pasted: &str) -> (digits: Vec<char>)
    ensures
        digits@ == stripped(pasted@),
{
    let mut out: Vec<char> = Vec::new();
    let chars: Vec<char> = chars_of(pasted);
    let mut i: usize = 0;
    while i < chars.len()
        invariant
            i <= chars@.len(),
            out@ == stripped(chars@.take(i as int)),
        decreases chars@.len() - i,
    {
        assert(chars@.take(i + 1).drop_last() =~= chars@.take(i as int));
        if !is_separator(chars[i]) {
            out.push(chars[i]);
        }
        i += 1;
    }
    assert(chars@.take(i as int) =~= pasted@);
    out
}

/// A pasted fingerprint without separators, in lower case.
pub fn clean(pasted: &str) -> (text: String)
    ensures
        text@ == cleaned(pasted@),
{
    let mut out: String = String::new();
    let chars: Vec<char> = chars_of(pasted);
    let mut i: usize = 0;
    while i < chars.len()
        invariant
            i <= chars@.len(),
            out@ == cleaned(chars@.take(i as int)),
        decreases chars@.len() - i,
    {
        let c: char = chars[i];
        assert(chars@.take(i + 1).drop_last() =~= chars@.take(i as int));
        if !is_separator(c) {
            let lower: Vec<char> = lowercase_of(c);
            out = joined(out, &lower);
        }
        i += 1;
    }
    assert(chars@.take(i as int) =~= pasted@);
    out
}

/// What a pasted fingerprint reads as: 64 hexadecimal digits of either case as
/// the bytes that they write, and every other text as an error.
pub open spec fn fingerprint_read(pasted: Seq<char>, result: Result<[u8; 32], Error>) -> bool {
    match result {
        Ok(fingerprint) => {
            &&& text::is_hex(stripped(pasted))
            &&& text::hex(fingerprint@) == text::lowered(stripped(pasted))
        },
        Err(e) => {
            let len = vstd::utf8::encode_utf8(cleaned(pasted)).len();
            &&& !text::is_hex(stripped(pasted))
            &&& e@ == Fault::Tls(
                if len != 64 {
                    "a certificate fingerprint is 64 hex characters; this one has "@
                        + text::decimal(len)
                } else {
                    "a certificate fingerprint must be hex"@
                },
            )
        },
    }
}

/// Hex, with or without the colons people paste from other tools.
pub fn parse_fingerprint(pasted: &str) -> (result: Result<[u8; 32], Error>)
    ensures
        fingerprint_read(pasted@, result),
{
    let digits: Vec<char> = strip(pasted);
    match bytes_of_hex(&digits) {
        Some(bytes) => Ok(bytes),
        None => {
            let text: String = clean(pasted);
            let len: usize = text.as_str().as_bytes().len();
            if len != 64 {
                Err(
                    Error::Tls(
                        "a certificate fingerprint is 64 hex characters; this one has ".to_owned().concat(
                        &decimal_of(len as u64)),
                    ),
                )
            } else {
                Err(Error::Tls("a certificate fingerprint must be hex".to_owned()))
            }
        },
    }
}

/// A client that is told to expect this fingerprint and no other.
pub fn pinned_to(fingerprint: &str) -> (result: Result<Pinned, Error>)
    ensures
        fingerprint_read(
            fingerprint@,
            match result {
                Ok(pinned) => Ok(pinned.expected),
                Err(e) => Err(e),
            },
        ),
{
    match parse_fingerprint(fingerprint) {
        Ok(expected) => Ok(Pinned { expected }),
        Err(e) => Err(e),
    }
}

/// Where the state directory is, for a service that has to keep its
/// certificate across restarts.
///
/// `state` is what the service manager gives, so a packaged unit needs no path
/// of its own; the fallback is for running it by hand.
pub fn default_state_dir(state: Option<String>, home: Option<String>) -> (dir: String)
    ensures
        dir@ == (match (state, home) {
            (Some(given), _) => given@,
            (None, Some(at)) => text::path_joined(at@, ".config/qurb/rendezvous"@),
            (None, None) => "qurb-rendezvous"@,
        }),
{
    match (state, home) {
        (Some(given), _) => given,
        (None, Some(at)) => path_under(&at, ".config/qurb/rendezvous"),
        (None, None) => "qurb-rendezvous".to_owned(),
    }
}

proof fn stripped_of_sum(a: Seq<char>, b: Seq<char>)
    ensures
        stripped(a + b) == stripped(a) + stripped(b),
        cleaned(a + b) == cleaned(a) + cleaned(b),
    decreases b.len(),
{
    if b.len() == 0 {
        assert(a + b =~= a);
        assert(stripped(a) + stripped(b) =~= stripped(a));
        assert(cleaned(a) + cleaned(b) =~= cleaned(a));
    } else {
        let rest = b.drop_last();
        assert((a + b).drop_last() =~= a + rest);
        stripped_of_sum(a, rest);
        assert((stripped(a) + stripped(rest)).push(b.last()) =~= stripped(a) + stripped(rest).push(
            b.last(),
        ));
        assert(cleaned(a) + cleaned(rest) + text::lowercase(b.last()) =~= cleaned(a) + (cleaned(
            rest,
        ) + text::lowercase(b.last())));
    }
}

/// A separator anywhere in a pasted fingerprint makes no difference.
pub proof fn law_separators_make_no_difference(
    a: Seq<char>,
    separator: char,
    b: Seq<char>,
    result: Result<[u8; 32], Error>,
)
    requires
        text::separator(separator),
    ensures
        fingerprint_read(a + seq![separator] + b, result) == fingerprint_read(a + b, result),
{
    stripped_of_sum(a + seq![separator], b);
    stripped_of_sum(a, seq![separator]);
    stripped_of_sum(a, b);
    let single = seq![separator];
    assert(single.drop_last() =~= Seq::<char>::empty());
    assert(single.last() == separator);
    assert(stripped(single) =~= Seq::<char>::empty() && cleaned(single) =~= Seq::<char>::empty())
        by {
        reveal_with_fuel(stripped, 2);
        reveal_with_fuel(cleaned, 2);
    }
    assert(stripped(a) + Seq::<char>::empty() =~= stripped(a));
    assert(cleaned(a) + Seq::<char>::empty() =~= cleaned(a));
}

/// A fingerprint that was printed in full, with or without separators and in
/// whichever case, is read back as the same bytes.
pub proof fn law_a_printed_fingerprint_reads_back(
    bytes: Seq<u8>,
    pasted: Seq<char>,
    result: Result<[u8; 32], Error>,
)
    requires
        bytes.len() == 32,
        text::lowered(stripped(pasted)) == text::hex(bytes),
        fingerprint_read(pasted, result),
    ensures
        result matches Ok(read) && read@ == bytes,
        stripped(text::hex(bytes)) == text::hex(bytes),
        text::lowered(text::hex(bytes)) == text::hex(bytes),
{
    text::hex_is_lower(bytes);
    let digits = stripped(pasted);
    assert(digits.len() == text::lowered(digits).len());
    assert forall|i: int| 0 <= i < digits.len() implies #[trigger] text::hex_value(digits[i])
        >= 0 by {
        assert(text::lowered(digits)[i] == text::hex(bytes)[i]);
        assert(text::ascii_lower(digits[i]) == text::hex(bytes)[i]);
    }
    if let Ok(read) = result {
        text::hex_of_unique(read@, bytes);
    }
    strip_stays(text::hex(bytes));
}

proof fn strip_stays(s: Seq<char>)
    requires
        forall|i: int| #![trigger s[i]] 0 <= i < s.len() ==> !text::separator(s[i]),
    ensures
        stripped(s) == s,
    decreases s.len(),
{
    if s.len() > 0 {
        let t = s.drop_last();
        assert forall|i: int| #![trigger t[i]] 0 <= i < t.len() implies !text::separator(t[i]) by {
            assert(t[i] == s[i]);
        }
        strip_stays(t);
        assert(s.last() == s[s.len() - 1]);
        assert(t.push(s.last()) =~= s);
    }
}

/// A certificate that was made and kept in two files is the one that is read back
/// from them: nothing about them is unusable, and it is the only one there.
pub proof fn law_a_made_certificate_reads_back(
    cert: Seq<char>,
    key: Seq<char>,
    cert_path: Seq<char>,
    key_path: Seq<char>,
)
    requires
        is_pair(cert, key),
    ensures
        unusable(
            pem_certificates(vstd::utf8::encode_utf8(cert)),
            pem_private_key(vstd::utf8::encode_utf8(key)),
            cert_path,
            key_path,
        ) is None,
        pem_certificates(vstd::utf8::encode_utf8(cert)) matches Ok(chain) && chain.len() == 1,
{
}

/// A certificate can be made of two files exactly where the one holds at least one
/// certificate that can be read and the other a key that can. Where it cannot, the
/// certificates are complained of first, and a file that holds nothing is named.
pub proof fn law_files_are_refused_for_what_is_wrong_with_them(
    chain: Result<Seq<Seq<u8>>, Seq<char>>,
    key: Result<Option<(KeyKind, Seq<u8>)>, Seq<char>>,
    cert_path: Seq<char>,
    key_path: Seq<char>,
)
    ensures
        unusable(chain, key, cert_path, key_path) is None <==> (chain matches Ok(list) && list.len()
            > 0) && (key matches Ok(Some(_))),
        chain matches Err(why) ==> unusable(chain, key, cert_path, key_path) == Some(
            Fault::Tls("reading certificates: "@ + why),
        ),
        chain matches Ok(list) ==> {
            &&& list.len() == 0 ==> unusable(chain, key, cert_path, key_path) == Some(
                Fault::Tls(cert_path + " holds no certificate"@),
            )
            &&& list.len() > 0 && key is Err ==> unusable(chain, key, cert_path, key_path) == Some(
                Fault::Tls("reading the private key: "@ + key->Err_0),
            )
            &&& list.len() > 0 && key == Ok::<Option<(KeyKind, Seq<u8>)>, Seq<char>>(None)
                ==> unusable(chain, key, cert_path, key_path) == Some(
                Fault::Tls(key_path + " holds no private key"@),
            )
        },
{
}

} // verus!
