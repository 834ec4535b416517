//! On-disk chunk format: compress, then encrypt, then write.
//!
//! ```text
//! offset  size  field
//! 0       4     magic "QRB1"
//! 4       1     format version
//! 5       1     flags: bit 0 = zstd compressed
//! 6       2     reserved, must be zero
//! 8       24    XChaCha20-Poly1305 nonce
//! 32      ..    ciphertext, with a 16-byte authentication tag appended
//! ```
//!
//! The 32-byte header is passed as associated data, so it is authenticated
//! even though it is not encrypted. Tampering with the flags to make a reader
//! skip decompression will fail the tag check rather than produce garbage.

use chacha20poly1305::aead::{Aead, KeyInit, Payload};
use chacha20poly1305::{XChaCha20Poly1305, XNonce};
use rand::RngCore;
use vstd::prelude::*;

use super::error::{Error, Fault};
use crate::bytes::append;
use crate::text;
use crate::text::decimal_of;

verus! {

/// The format version that is written and read.
pub const VERSION: u8 = 1;

/// How long the header is.
pub const HEADER_LEN: usize = 32;

/// Compression level. 3 is zstd's default: most of the ratio for a small
/// fraction of the time of higher levels.
pub const ZSTD_LEVEL: i32 = 3;

/// The symmetric key used for chunk payloads, supplied by the caller.
#[derive(Clone, Copy)]
pub struct ChunkKey([u8; 32]);

impl View for ChunkKey {
    type V = Seq<u8>;

    closed spec fn view(&self) -> Seq<u8> {
        self.0@
    }
}

/// What zstd makes of `data` at a compression level.
pub uninterp spec fn zstd_encoded(data: Seq<u8>, level: int) -> Seq<u8>;

/// What zstd reads out of `frames`, if they can be read.
pub uninterp spec fn zstd_decoded(frames: Seq<u8>) -> Result<Seq<u8>, Seq<char>>;

/// What XChaCha20-Poly1305 makes of a message: the ciphertext, then the tag.
pub uninterp spec fn aead_sealed(
    key: Seq<u8>,
    nonce: Seq<u8>,
    header: Seq<u8>,
    message: Seq<u8>,
) -> Seq<u8>;

/// The message that XChaCha20-Poly1305 reads out of a ciphertext with its tag,
/// if the tag fits.
pub uninterp spec fn aead_opened(
    key: Seq<u8>,
    nonce: Seq<u8>,
    header: Seq<u8>,
    sealed: Seq<u8>,
) -> Option<Seq<u8>>;

/// `zstd::encode_all` of data in memory: what comes out depends on the data and
/// the level alone, and decoding it gives the data back. It fails only where the
/// machine has no memory left, which is left aside.
#[verifier::external_body]
fn zstd_encode(data: &[u8], level: i32) -> (frames: Result<Vec<u8>, String>)
    ensures
        frames is Ok,
        frames matches Ok(f) ==> f@ == zstd_encoded(data@, level as int),
        frames matches Ok(f) ==> (zstd_decoded(f@) matches Ok(d) && d == data@),
{
    zstd::encode_all(data, level).map_err(|e| e.to_string())
}

/// `zstd::decode_all`: what comes out, or the problem in words, depends on the
/// frames alone.
#[verifier::external_body]
fn zstd_decode(frames: &[u8]) -> (data: Result<Vec<u8>, String>)
    ensures
        match data {
            Ok(d) => (zstd_decoded(frames@) matches Ok(plain) && plain == d@),
            Err(why) => (zstd_decoded(frames@) matches Err(told) && told == why@),
        },
{
    zstd::decode_all(frames).map_err(|e| e.to_string())
}

/// The longest message that the cipher takes: 2^32 - 2 blocks of 64 bytes, which
/// is what its counter can number behind the block that makes the tag's key.
pub const LONGEST_MESSAGE: u64 = 274_877_906_816;

/// How many bytes longer than its message a ciphertext is.
pub const TAG_LEN: u64 = 16;

/// `XChaCha20Poly1305::encrypt` of a message that the cipher's counter can number:
/// it succeeds, and what comes out depends on key, nonce, header and message
/// alone, is 16 bytes longer than the message, and decrypts to the message under
/// the same key, nonce and header. A longer message makes it fail or panic.
#[verifier::external_body]
fn aead_encrypt(key: &[u8; 32], nonce: &[u8; 24], header: &[u8], message: &[u8]) -> (sealed: Option<
    Vec<u8>,
>)
    requires
        message@.len() <= LONGEST_MESSAGE,
    ensures
        sealed is Some,
        sealed matches Some(s) ==> {
            &&& s@ == aead_sealed(key@, nonce@, header@, message@)
            &&& s@.len() == message@.len() + TAG_LEN
            &&& aead_opened(key@, nonce@, header@, s@) == Some(message@)
        },
{
    let payload = Payload { msg: message, aad: header };
    XChaCha20Poly1305::new(key.into()).encrypt(XNonce::from_slice(nonce), payload).ok()
}

/// `XChaCha20Poly1305::decrypt` of a ciphertext that the cipher's counter can
/// number: what comes out, or that nothing does, depends on key, nonce, header
/// and ciphertext alone. A longer one makes it fail or panic.
#[verifier::external_body]
fn aead_decrypt(key: &[u8; 32], nonce: &[u8; 24], header: &[u8], sealed: &[u8]) -> (message: Option<
    Vec<u8>,
>)
    requires
        sealed@.len() <= LONGEST_MESSAGE + TAG_LEN,
    ensures
        match message {
            Some(m) => aead_opened(key@, nonce@, header@, sealed@) == Some(m@),
            None => aead_opened(key@, nonce@, header@, sealed@) is None,
        },
{
    let payload = Payload { msg: sealed, aad: header };
    XChaCha20Poly1305::new(key.into()).decrypt(XNonce::from_slice(nonce), payload).ok()
}

/// `RngCore::fill_bytes` of the thread's generator: `n` random bytes. Which they
/// are is left to chance, and nothing is said of it.
#[verifier::external_body]
pub(crate) fn random_bytes(n: usize) -> (bytes: Vec<u8>)
    requires
        n <= isize::MAX,
    ensures
        bytes@.len() == n,
{
    let mut bytes = vec![0u8; n];
    rand::thread_rng().fill_bytes(&mut bytes);
    bytes
}

/// A nonce drawn at random, any 24 bytes.
fn random_nonce() -> (nonce: [u8; 24]) {
    let bytes: Vec<u8> = random_bytes(24);
    nonce_at(&bytes, 0)
}

impl ChunkKey {
    pub fn from_bytes(bytes: [u8; 32]) -> (key: Self)
        ensures
            key@ == bytes@,
    {
        ChunkKey(bytes)
    }

    /// Generate a fresh random key: any 32 bytes, as they were drawn.
    pub fn generate() -> (key: Self)
        ensures
            key@.len() == 32,
    {
        let bytes: Vec<u8> = random_bytes(32);
        ChunkKey::from_bytes(key_of(&bytes))
    }

    /// How a key is shown: not at all.
    pub fn label(&self) -> (text: String)
        ensures
            text@ == "ChunkKey(<redacted>)"@,
    {
        "ChunkKey(<redacted>)".to_owned()
    }
}

/// Whether compression saves enough to be kept: at least a twentieth.
///
/// Below that the cost of decompressing on every read is not worth it, and
/// already-compressed formats land here naturally without needing a list of file
/// extensions to special-case.
pub open spec fn worth_compressing(compressed: nat, plain: nat) -> bool {
    20 * compressed < 19 * plain
}

/// How long the form of a chunk is that is sealed.
pub open spec fn sealing_len(compressed: nat, plain: nat) -> nat {
    if worth_compressing(compressed, plain) {
        compressed
    } else {
        plain
    }
}

/// How long a stored chunk is: the header, the tag, and the form that is sealed.
pub open spec fn stored_len(compressed: nat, plain: nat) -> nat {
    48 + sealing_len(compressed, plain)
}

/// The header of a stored chunk.
pub open spec fn header(compressed: bool, nonce: Seq<u8>) -> Seq<u8> {
    seq![81u8, 82u8, 66u8, 49u8, VERSION, if compressed { 1u8 } else { 0u8 }, 0u8, 0u8] + nonce
}

/// A stored chunk: the header, then what the cipher makes of the chunk, or of
/// what compression made of it where that is worth it.
pub open spec fn stored_form(
    key: Seq<u8>,
    nonce: Seq<u8>,
    plain: Seq<u8>,
    compressed: Seq<u8>,
) -> Seq<u8> {
    let small = worth_compressing(compressed.len(), plain.len());
    let head = header(small, nonce);
    head + aead_sealed(
        key,
        nonce,
        head,
        if small {
            compressed
        } else {
            plain
        },
    )
}

/// What a stored chunk is read as.
pub enum Opened {
    Plain { bytes: Seq<u8> },
    Bad { fault: Fault },
}

/// What a stored chunk is read as. `hash` only makes errors identify the chunk.
pub open spec fn opened(key: Seq<u8>, stored: Seq<u8>, hash: Seq<char>) -> Opened {
    if stored.len() < HEADER_LEN {
        Opened::Bad {
            fault: Fault::ChunkFormat {
                hash,
                detail: "truncated: "@ + text::decimal(stored.len()) + " bytes, need at least 32"@,
            },
        }
    } else if stored.take(4) != seq![81u8, 82u8, 66u8, 49u8] {
        Opened::Bad { fault: Fault::ChunkFormat { hash, detail: "bad magic"@ } }
    } else if stored[4] != VERSION {
        Opened::Bad {
            fault: Fault::ChunkFormat {
                hash,
                detail: "unsupported format version "@ + text::decimal(stored[4] as nat),
            },
        }
    } else if stored.len() > HEADER_LEN + LONGEST_MESSAGE + TAG_LEN {
        Opened::Bad { fault: Fault::Decrypt { hash } }
    } else {
        match aead_opened(key, stored.subrange(8, 32), stored.take(32), stored.skip(32)) {
            None => Opened::Bad { fault: Fault::Decrypt { hash } },
            Some(body) => if stored[5] % 2 == 1 {
                match zstd_decoded(body) {
                    Err(why) => Opened::Bad { fault: Fault::Io { path: "<zstd>"@, why } },
                    Ok(plain) => Opened::Plain { bytes: plain },
                }
            } else {
                Opened::Plain { bytes: body }
            },
        }
    }
}

fn header_of(compressed: bool, nonce: &[u8; 24]) -> (out: Vec<u8>)
    ensures
        out@ == header(compressed, nonce@),
        out@.len() == 32,
{
    let start: [u8; 8] = [81, 82, 66, 49, VERSION, if compressed {
        1
    } else {
        0
    }, 0, 0];
    let mut out: Vec<u8> = Vec::new();
    append(&mut out, &start);
    append(&mut out, nonce);
    assert(out@ =~= header(compressed, nonce@));
    out
}

fn nonce_at(bytes: &[u8], at: usize) -> (nonce: [u8; 24])
    requires
        at + 24 <= bytes@.len(),
    ensures
        nonce@ == bytes@.subrange(at as int, at + 24),
{
    let len: usize = bytes.len();
    let mut nonce: [u8; 24] = [0u8; 24];
    let mut i: usize = 0;
    while i < 24
        invariant
            i <= 24,
            at + 24 <= len == bytes@.len(),
            forall|j: int| 0 <= j < i ==> nonce[j] == bytes@[at + j],
        decreases 24 - i,
    {
        nonce[i] = bytes[at + i];
        i += 1;
    }
    assert(nonce@ =~= bytes@.subrange(at as int, at + 24));
    nonce
}

/// The key that 32 bytes are.
fn key_of(bytes: &[u8]) -> (key: [u8; 32])
    requires
        bytes@.len() == 32,
    ensures
        key@ == bytes@,
{
    let mut key: [u8; 32] = [0u8; 32];
    let mut i: usize = 0;
    while i < 32
        invariant
            i <= 32,
            bytes@.len() == 32,
            forall|j: int| 0 <= j < i ==> key@[j] == bytes@[j],
        decreases 32 - i,
    {
        key[i] = bytes[i];
        i += 1;
    }
    assert(key@ =~= bytes@);
    key
}

/// Compress and encrypt a chunk for storage.
///
/// A random 192-bit nonce is used per call. At that width random nonces are
/// safe without tracking a counter.
pub fn seal(key: &ChunkKey, plaintext: &[u8]) -> (result: Result<Vec<u8>, Error>)
    ensures
        match result {
            Ok(sealed) => {
                &&& exists|nonce: Seq<u8>|
                    nonce.len() == 24 && sealed@ == #[trigger] stored_form(
                        key@,
                        nonce,
                        plaintext@,
                        zstd_encoded(plaintext@, ZSTD_LEVEL as int),
                    )
                &&& sealed@.len() == stored_len(
                    zstd_encoded(plaintext@, ZSTD_LEVEL as int).len(),
                    plaintext@.len(),
                )
                &&& sealing_len(
                    zstd_encoded(plaintext@, ZSTD_LEVEL as int).len(),
                    plaintext@.len(),
                ) <= LONGEST_MESSAGE
                &&& forall|hash: Seq<char>| #[trigger]
                    opened(key@, sealed@, hash) == (Opened::Plain { bytes: plaintext@ })
            },
            Err(e) => {
                &&& e@ == (Fault::Decrypt { hash: "<sealing>"@ })
                &&& plaintext@.len() > LONGEST_MESSAGE
                &&& sealing_len(
                    zstd_encoded(plaintext@, ZSTD_LEVEL as int).len(),
                    plaintext@.len(),
                ) > LONGEST_MESSAGE
            },
        },
{
    match zstd_encode(plaintext, ZSTD_LEVEL) {
        Err(why) => Err(Error::Io { path: "<zstd>".to_owned(), why }),
        Ok(compressed) => seal_with(key, plaintext, &compressed, &random_nonce()),
    }
}

/// Encrypt a chunk for storage, given what compression made of it and a nonce.
pub fn seal_with(
    key: &ChunkKey,
    plaintext: &[u8],
    compressed: &[u8],
    nonce: &[u8; 24],
) -> (result: Result<Vec<u8>, Error>)
    ensures
        match result {
            Ok(sealed) => {
                &&& sealed@ == stored_form(key@, nonce@, plaintext@, compressed@)
                &&& sealed@.len() == stored_len(compressed@.len(), plaintext@.len())
                &&& sealing_len(compressed@.len(), plaintext@.len()) <= LONGEST_MESSAGE
                &&& (zstd_decoded(compressed@) matches Ok(d) && d == plaintext@) ==> forall|hash: Seq<char>|
                    #[trigger] opened(key@, sealed@, hash) == (Opened::Plain { bytes: plaintext@ })
            },
            Err(e) => {
                &&& e@ == (Fault::Decrypt { hash: "<sealing>"@ })
                &&& sealing_len(compressed@.len(), plaintext@.len()) > LONGEST_MESSAGE
                &&& plaintext@.len() > LONGEST_MESSAGE
            },
        },
{
    let small: bool = 20 * (compressed.len() as u128) < 19 * (plaintext.len() as u128);
    let head: Vec<u8> = header_of(small, nonce);
    let body: &[u8] = if small {
        compressed
    } else {
        plaintext
    };
    // Longer than the cipher's counter can number.
    if body.len() as u64 > LONGEST_MESSAGE {
        return Err(Error::Decrypt { hash: "<sealing>".to_owned() });
    }
    match aead_encrypt(&key.0, nonce, &head, body) {
        None => Err(Error::Decrypt { hash: "<sealing>".to_owned() }),
        Some(ciphertext) => {
            let mut out: Vec<u8> = Vec::new();
            append(&mut out, &head);
            append(&mut out, &ciphertext);
            proof {
                assert(out@ =~= stored_form(key@, nonce@, plaintext@, compressed@));
                assert(out@.take(32) =~= head@);
                assert(out@.skip(32) =~= ciphertext@);
                assert(out@.subrange(8, 32) =~= nonce@);
                assert(out@.take(4) =~= seq![81u8, 82u8, 66u8, 49u8]);
                assert(out@[4] == VERSION && out@[5] == (if small { 1u8 } else { 0u8 }));
            }
            Ok(out)
        },
    }
}

/// Decrypt and decompress a stored chunk.
///
/// `hash` is used only to make errors identify the offending chunk.
pub fn open(key: &ChunkKey, stored: &[u8], hash: &str) -> (result: Result<Vec<u8>, Error>)
    ensures
        opened(key@, stored@, hash@) == (match result {
            Ok(plain) => Opened::Plain { bytes: plain@ },
            Err(e) => Opened::Bad { fault: e@ },
        }),
{
    let len: usize = stored.len();
    if len < HEADER_LEN {
        return Err(
            Error::ChunkFormat {
                hash: hash.to_owned(),
                detail: "truncated: ".to_owned().concat(&decimal_of(len as u64)).concat(
                    " bytes, need at least 32",
                ),
            },
        );
    }
    let magic: bool = stored[0] == 81 && stored[1] == 82 && stored[2] == 66 && stored[3] == 49;
    proof {
        let four = stored@.take(4);
        let expected = seq![81u8, 82u8, 66u8, 49u8];
        if magic {
            assert(four =~= expected);
        } else if four == expected {
            assert(four[0] == stored@[0] && four[1] == stored@[1] && four[2] == stored@[2]
                && four[3] == stored@[3]);
        }
    }
    if !magic {
        return Err(
            Error::ChunkFormat { hash: hash.to_owned(), detail: "bad magic".to_owned() },
        );
    }
    if stored[4] != VERSION {
        return Err(
            Error::ChunkFormat {
                hash: hash.to_owned(),
                detail: "unsupported format version ".to_owned().concat(
                    &decimal_of(stored[4] as u64),
                ),
            },
        );
    }
    let nonce: [u8; 24] = nonce_at(stored, 8);
    let (head, ciphertext): (&[u8], &[u8]) = stored.split_at(HEADER_LEN);
    assert(head@ =~= stored@.take(32));
    assert(ciphertext@ =~= stored@.skip(32));
    // Longer than anything that was ever sealed.
    if ciphertext.len() as u64 > LONGEST_MESSAGE + TAG_LEN {
        return Err(Error::Decrypt { hash: hash.to_owned() });
    }
    match aead_decrypt(&key.0, &nonce, head, ciphertext) {
        None => Err(Error::Decrypt { hash: hash.to_owned() }),
        Some(body) => {
            if stored[5] % 2 == 1 {
                match zstd_decode(&body) {
                    Err(why) => Err(Error::Io { path: "<zstd>".to_owned(), why }),
                    Ok(plain) => Ok(plain),
                }
            } else {
                Ok(body)
            }
        },
    }
}

/// What a stored chunk is refused for. One that is too short, or does not start
/// as one, or is of another version, is of the wrong format; one of the right
/// format that is longer than anything sealed, or that the cipher does not take
/// under the key, does not decrypt.
pub proof fn law_a_chunk_is_refused_for_what_is_wrong_with_it(
    key: Seq<u8>,
    stored: Seq<u8>,
    hash: Seq<char>,
)
    ensures
        stored.len() < HEADER_LEN || stored.take(4) != seq![81u8, 82u8, 66u8, 49u8] || stored[4]
            != VERSION <==> (opened(key, stored, hash) matches Opened::Bad {
            fault: Fault::ChunkFormat { hash: named, .. },
        } && named == hash),
        stored.len() >= HEADER_LEN && stored.take(4) == seq![81u8, 82u8, 66u8, 49u8] && stored[4]
            == VERSION && (stored.len() > HEADER_LEN + LONGEST_MESSAGE + TAG_LEN || aead_opened(
            key,
            stored.subrange(8, 32),
            stored.take(32),
            stored.skip(32),
        ) is None) <==> opened(key, stored, hash) == (Opened::Bad { fault: Fault::Decrypt { hash } }),
{
}

/// A stored chunk starts with four bytes that say what it is, the version, whether
/// it was compressed, two bytes of nothing and the nonce, thirty-two bytes in all.
/// Behind them stands what the cipher makes, under the nonce and bound to all of
/// those bytes: of the compressed form where that takes less than nineteen
/// twentieths of the plaintext, and of the plaintext otherwise.
pub proof fn law_a_stored_chunk_is_laid_out_in_one_way(
    key: Seq<u8>,
    nonce: Seq<u8>,
    plain: Seq<u8>,
    compressed: Seq<u8>,
)
    requires
        nonce.len() == 24,
    ensures
        ({
            let stored = stored_form(key, nonce, plain, compressed);
            let small = 100 * compressed.len() < 95 * plain.len();
            &&& stored.len() >= 32
            &&& stored.take(4) == seq![81u8, 82u8, 66u8, 49u8]
            &&& stored[4] == 1
            &&& stored[5] == if small {
                1u8
            } else {
                0u8
            }
            &&& stored[6] == 0
            &&& stored[7] == 0
            &&& stored.subrange(8, 32) == nonce
            &&& stored.skip(32) == aead_sealed(
                key,
                nonce,
                stored.take(32),
                if small {
                    compressed
                } else {
                    plain
                },
            )
            &&& small ==> stored_len(compressed.len(), plain.len()) == 48 + compressed.len()
            &&& !small ==> stored_len(compressed.len(), plain.len()) == 48 + plain.len()
        }),
{
    let small = worth_compressing(compressed.len(), plain.len());
    let head = header(small, nonce);
    let stored = stored_form(key, nonce, plain, compressed);
    assert(head.len() == 32);
    assert(stored.take(32) =~= head);
    assert(stored.take(4) =~= seq![81u8, 82u8, 66u8, 49u8]);
    assert(stored.subrange(8, 32) =~= nonce);
    assert(stored.skip(32) =~= aead_sealed(
        key,
        nonce,
        head,
        if small {
            compressed
        } else {
            plain
        },
    ));
}

/// What is opened is what the cipher gives back under the nonce and the bytes before
/// it, and what that decompresses to where it was compressed.
pub proof fn law_what_is_opened_was_sealed(
    key: Seq<u8>,
    stored: Seq<u8>,
    hash: Seq<char>,
    plain: Seq<u8>,
)
    requires
        opened(key, stored, hash) == (Opened::Plain { bytes: plain }),
    ensures
        stored.len() >= 32,
        aead_opened(key, stored.subrange(8, 32), stored.take(32), stored.skip(32)) is Some,
        ({
            let body = aead_opened(
                key,
                stored.subrange(8, 32),
                stored.take(32),
                stored.skip(32),
            )->0;
            &&& stored[5] % 2 == 0 ==> body == plain
            &&& stored[5] % 2 == 1 ==> (zstd_decoded(body) matches Ok(d) && d == plain)
        }),
{
}

/// What a chunk takes in the chunk store is what its stored form takes: its head and
/// the tag, and the smaller form, compressed at level three where that is worth it.
pub proof fn law_a_chunk_takes_its_smaller_form(plain: Seq<u8>)
    ensures
        ({
            let compressed = zstd_encoded(plain, 3);
            super::store::stored_len(plain) == 48 + if 100 * compressed.len() < 95 * plain.len() {
                compressed.len()
            } else {
                plain.len()
            }
        }),
        super::store::stored_len(plain) <= 48 + plain.len(),
{
}

} // verus!
