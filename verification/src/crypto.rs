//! Room keys (32 random bytes, shown as lowercase hexadecimal) and the
//! encryption of chat messages with AES-256-GCM: the text on the wire is the
//! Base64 of the 12-byte nonce followed by the sealed message.

use vstd::prelude::*;
use vstd::string::StringSliceAdditionalSpecFns;
use vstd::utf8::{decode_utf8, encode_utf8, is_ascii_chars, is_char_boundary, valid_utf8};
use aes_gcm::aead::{Aead, AeadCore, KeyInit, OsRng};
use aes_gcm::{Aes256Gcm, Key, Nonce};
use crate::base64::{base64_decode, base64_encode, b64_decode_spec, b64_encode_spec,
    b64_lookups_in_table, trim_padding};
use crate::text::push_char;

verus! {

/// Length in bytes of a room key.
pub const KEY_SIZE: usize = 32;

/// Length in bytes of the nonce that starts every encrypted message.
pub const NONCE_SIZE: usize = 12;

/// Longest plaintext, in bytes, that AES-GCM accepts (2^36 bytes).
pub const MAX_PLAINTEXT: u64 = 68719476736;

/// Why a cryptographic or encoding operation was refused.
#[derive(Debug, Clone, PartialEq, Eq)]
pub enum CryptoError {
    InvalidHex,
    InvalidBase64,
    DataTooShort,
    EncryptionFailed,
    DecryptionFailed,
    /// The opened bytes are not UTF-8; the text says where they stop being so.
    InvalidUtf8(String),
}

impl CryptoError {
    /// The text shown to a user for this error.
    pub fn message(&self) -> (s: String)
        ensures
            *self == CryptoError::InvalidHex ==> s@ == "Invalid hex: invalid digit found in string"@,
            *self == CryptoError::InvalidBase64 ==> s@ == "Invalid base64"@,
            *self == CryptoError::DataTooShort ==> s@ == "Data too short"@,
            *self == CryptoError::EncryptionFailed ==> s@ == "Encryption failed: aead::Error"@,
            *self == CryptoError::DecryptionFailed ==> s@ == "Decryption failed: aead::Error"@,
            (match *self {
                CryptoError::InvalidUtf8(d) => s@ == "Invalid UTF-8: "@ + d@,
                _ => true,
            }),
    {
        match self {
            CryptoError::InvalidHex => String::from_str("Invalid hex: invalid digit found in string"),
            CryptoError::InvalidBase64 => String::from_str("Invalid base64"),
            CryptoError::DataTooShort => String::from_str("Data too short"),
            CryptoError::EncryptionFailed => String::from_str("Encryption failed: aead::Error"),
            CryptoError::DecryptionFailed => String::from_str("Decryption failed: aead::Error"),
            CryptoError::InvalidUtf8(d) => {
                let mut s = String::from_str("Invalid UTF-8: ");
                crate::text::push_str(&mut s, d.as_str());
                s
            },
        }
    }
}

/// The key of one chat room.
#[derive(Clone, Debug)]
pub struct RoomKey {
    pub bytes: Vec<u8>,
}

impl View for RoomKey {
    type V = Seq<u8>;

    open spec fn view(&self) -> Seq<u8> {
        self.bytes@
    }
}

/// Byte of the lowercase hexadecimal digit for a value below sixteen.
pub open spec fn hex_digit_byte(v: int) -> u8 {
    if v < 10 {
        (v + 48) as u8
    } else {
        (v + 87) as u8
    }
}

/// Two lowercase hexadecimal digits per byte, most significant first.
pub open spec fn hex_text(d: Seq<u8>) -> Seq<char> {
    Seq::new(
        2 * d.len(),
        |j: int|
            if j % 2 == 0 {
                hex_digit_byte(d[j / 2] as int / 16) as char
            } else {
                hex_digit_byte(d[j / 2] as int % 16) as char
            },
    )
}

/// Value of a hexadecimal digit (either case), if the byte is one.
pub open spec fn hex_digit_value(c: u8) -> Option<u8> {
    if 48 <= c <= 57 {
        Some((c - 48) as u8)
    } else if 97 <= c <= 102 {
        Some((c - 87) as u8)
    } else if 65 <= c <= 70 {
        Some((c - 55) as u8)
    } else {
        None
    }
}

/// How `u8::from_str_radix(_, 16)` reads two bytes: an optional `+` sign
/// followed by digits.
pub open spec fn hex_pair_value(b0: u8, b1: u8) -> Option<u8> {
    if b0 == 43 {
        hex_digit_value(b1)
    } else {
        match (hex_digit_value(b0), hex_digit_value(b1)) {
            (Some(h), Some(l)) => Some((h * 16 + l) as u8),
            _ => None,
        }
    }
}

/// The bytes read from the hexadecimal text `b`, two bytes at a time from
/// position `i`; `None` at the first pair that is not a number.
pub open spec fn hex_decode_from(b: Seq<u8>, i: int) -> Option<Seq<u8>>
    decreases b.len() - i,
{
    if i < 0 || i >= b.len() {
        Some(Seq::empty())
    } else if i + 2 > b.len() {
        None
    } else {
        match hex_pair_value(b[i], b[i + 1]) {
            None => None,
            Some(v) => match hex_decode_from(b, i + 2) {
                Some(r) => Some(seq![v] + r),
                None => None,
            },
        }
    }
}

/// The pairs that decoding reads, up to the first one that is not a number,
/// lie within `b` and start and end on character boundaries of the text
/// (else slicing them out of the text would panic).
pub open spec fn hex_pairs_sliceable(b: Seq<u8>, i: int) -> bool
    decreases b.len() - i,
{
    if i < 0 || i >= b.len() {
        true
    } else if i + 2 > b.len() || !is_char_boundary(b, i) || !is_char_boundary(b, i + 2) {
        false
    } else if hex_pair_value(b[i], b[i + 1]) is None {
        true
    } else {
        hex_pairs_sliceable(b, i + 2)
    }
}

fn hex_digit_exec(v: u8) -> (c: char)
    requires
        v < 16,
    ensures
        c == hex_digit_byte(v as int) as char,
{
    let b: u8 = if v < 10 {
        v + 48
    } else {
        v + 87
    };
    b as char
}

fn hex_digit_value_exec(c: u8) -> (r: Option<u8>)
    ensures
        r == hex_digit_value(c),
{
    if 48 <= c && c <= 57 {
        Some(c - 48)
    } else if 97 <= c && c <= 102 {
        Some(c - 87)
    } else if 65 <= c && c <= 70 {
        Some(c - 55)
    } else {
        None
    }
}

fn hex_pair_value_exec(b0: u8, b1: u8) -> (r: Option<u8>)
    ensures
        r == hex_pair_value(b0, b1),
{
    if b0 == 43 {
        hex_digit_value_exec(b1)
    } else {
        match (hex_digit_value_exec(b0), hex_digit_value_exec(b1)) {
            (Some(h), Some(l)) => Some(h * 16 + l),
            _ => None,
        }
    }
}

/// AES-256-GCM key generation: 32 bytes from the operating system's random
/// source (`Aes256Gcm::generate_key` with `OsRng`). Only the length is
/// claimed. The random source panics if the operating system cannot supply
/// randomness.
#[verifier::external_body]
fn random_key_bytes() -> (bytes: Vec<u8>)
    ensures
        bytes@.len() == KEY_SIZE,
{
    Aes256Gcm::generate_key(OsRng).to_vec()
}

/// A fresh AES-GCM nonce: 12 bytes from the operating system's random source
/// (`Aes256Gcm::generate_nonce` with `OsRng`). Only the length is claimed.
/// The random source panics if the operating system cannot supply
/// randomness.
#[verifier::external_body]
fn random_nonce() -> (nonce: Vec<u8>)
    ensures
        nonce@.len() == NONCE_SIZE,
{
    Aes256Gcm::generate_nonce(&mut OsRng).to_vec()
}

/// The ciphertext-and-tag that AES-256-GCM (`aes_gcm`, 16-byte tag, no
/// associated data) computes for a key, a nonce and a plaintext.
pub uninterp spec fn aes256gcm_seal(key: Seq<u8>, nonce: Seq<u8>, plaintext: Seq<u8>) -> Seq<u8>;

/// `Aead::encrypt` of `Aes256Gcm`: refuses a plaintext longer than 2^36 bytes,
/// else returns the ciphertext followed by the 16-byte tag, that is
/// [`aes256gcm_seal`] of its arguments. `Key::from_slice` and
/// `Nonce::from_slice` panic on other lengths, hence the `requires`.
#[verifier::external_body]
fn aes_gcm_seal(key: &[u8], nonce: &[u8], plaintext: &[u8]) -> (res: Option<Vec<u8>>)
    requires
        key@.len() == KEY_SIZE,
        nonce@.len() == NONCE_SIZE,
    ensures
        res is Some <==> plaintext@.len() <= MAX_PLAINTEXT,
        res matches Some(c) ==> c@ == aes256gcm_seal(key@, nonce@, plaintext@) && c@.len()
            == plaintext@.len() + 16,
{
    let cipher = Aes256Gcm::new(Key::<Aes256Gcm>::from_slice(key));
    cipher.encrypt(Nonce::from_slice(nonce), plaintext).ok()
}

/// `Aead::decrypt` of `Aes256Gcm`: recomputes the tag over the ciphertext and
/// returns the plaintext only when it matches, so what it returns seals back
/// to its input, and any plaintext (of a length AES-GCM accepts) that seals to
/// its input is what it returns.
#[verifier::external_body]
fn aes_gcm_open(key: &[u8], nonce: &[u8], ciphertext: &[u8]) -> (res: Option<Vec<u8>>)
    requires
        key@.len() == KEY_SIZE,
        nonce@.len() == NONCE_SIZE,
    ensures
        res matches Some(p) ==> aes256gcm_seal(key@, nonce@, p@) == ciphertext@,
        forall|p: Seq<u8>|
            p.len() <= MAX_PLAINTEXT && #[trigger] aes256gcm_seal(key@, nonce@, p) == ciphertext@
                ==> res is Some && res->Some_0@ == p,
{
    let cipher = Aes256Gcm::new(Key::<Aes256Gcm>::from_slice(key));
    cipher.decrypt(Nonce::from_slice(nonce), ciphertext).ok()
}

/// The text of the error that `String::from_utf8` gives for bytes that are
/// not UTF-8 (its `Display`: where the valid prefix ends and what follows).
pub uninterp spec fn utf8_error_text(bytes: Seq<u8>) -> Seq<char>;

/// `String::from_utf8`: accepts exactly the valid UTF-8 byte sequences; for
/// the others it hands back its error's text, [`utf8_error_text`] of the
/// bytes.
#[verifier::external_body]
fn string_from_utf8(bytes: Vec<u8>) -> (res: Result<String, String>)
    ensures
        res is Ok <==> valid_utf8(bytes@),
        res matches Ok(s) ==> s@ == decode_utf8(bytes@),
        res matches Err(t) ==> t@ == utf8_error_text(bytes@),
{
    match String::from_utf8(bytes) {
        Ok(s) => Ok(s),
        Err(e) => Err(e.to_string()),
    }
}

/// The wire text of a message sealed under `key` with `nonce`.
pub open spec fn sealed_text(key: Seq<u8>, nonce: Seq<u8>, plaintext: Seq<char>) -> Seq<char> {
    b64_encode_spec(nonce + aes256gcm_seal(key, nonce, encode_utf8(plaintext)))
}

impl RoomKey {
    /// A fresh random key of [`KEY_SIZE`] bytes.
    pub fn generate() -> (k: RoomKey)
        ensures
            k@.len() == KEY_SIZE,
    {
        RoomKey { bytes: random_key_bytes() }
    }

    /// The key as lowercase hexadecimal, two digits per byte.
    pub fn to_hex(&self) -> (s: String)
        ensures
            s@ == hex_text(self@),
    {
        let mut s = String::new();
        let n = self.bytes.len();
        let mut i: usize = 0;
        while i < n
            invariant
                n == self@.len(),
                i <= n,
                s@ == hex_text(self@.take(i as int)),
            decreases n - i,
        {
            let b = self.bytes[i];
            push_char(&mut s, hex_digit_exec(b / 16));
            push_char(&mut s, hex_digit_exec(b % 16));
            proof {
                assert(self@.take(i + 1) =~= self@.take(i as int).push(b));
                assert(s@ =~= hex_text(self@.take(i + 1)));
            }
            i = i + 1;
        }
        proof {
            assert(self@.take(n as int) =~= self@);
        }
        s
    }

    /// Reads a key from hexadecimal text, two digits (or a `+` and one digit)
    /// per byte.
    pub fn from_hex(hex: &str) -> (res: Result<RoomKey, CryptoError>)
        requires
            hex_pairs_sliceable(hex.spec_bytes(), 0),
        ensures
            match hex_decode_from(hex.spec_bytes(), 0) {
                Some(v) => res matches Ok(k) && k@ == v,
                None => res matches Err(e) && e == CryptoError::InvalidHex,
            },
    {
        let b = hex.as_bytes();
        let n = b.len();
        let mut out: Vec<u8> = Vec::new();
        let mut i: usize = 0;
        while i < n
            invariant
                n == b@.len(),
                b@ == hex.spec_bytes(),
                i <= n,
                i % 2 == 0,
                hex_pairs_sliceable(b@, i as int),
                hex_decode_from(b@, 0) == (match hex_decode_from(b@, i as int) {
                    Some(r) => Some(out@ + r),
                    None => None::<Seq<u8>>,
                }),
            decreases n - i,
        {
            assert(i + 2 <= n);
            match hex_pair_value_exec(b[i], b[i + 1]) {
                None => {
                    return Err(CryptoError::InvalidHex);
                },
                Some(v) => {
                    let ghost before = out@;
                    out.push(v);
                    proof {
                        let r = hex_decode_from(b@, i + 2);
                        if r is Some {
                            assert(before + (seq![v] + r->Some_0) =~= out@ + r->Some_0);
                        }
                    }
                    i = i + 2;
                },
            }
        }
        proof {
            assert(out@ + Seq::<u8>::empty() =~= out@);
        }
        Ok(RoomKey { bytes: out })
    }
}

proof fn lemma_hex_text_bytes(d: Seq<u8>)
    ensures
        encode_utf8(hex_text(d)).len() == 2 * d.len(),
        forall|k: int|
            0 <= k < d.len() ==> #[trigger] encode_utf8(hex_text(d))[2 * k] == hex_digit_byte(
                d[k] as int / 16,
            ) && encode_utf8(hex_text(d))[2 * k + 1] == hex_digit_byte(d[k] as int % 16),
{
    let t = hex_text(d);
    assert(is_ascii_chars(t));
    vstd::utf8::is_ascii_chars_encode_utf8(t);
    assert forall|k: int| 0 <= k < d.len() implies #[trigger] encode_utf8(t)[2 * k]
        == hex_digit_byte(d[k] as int / 16) && encode_utf8(t)[2 * k + 1] == hex_digit_byte(
        d[k] as int % 16,
    ) by {
        assert(t[2 * k] == hex_digit_byte(d[k] as int / 16) as char);
        assert(t[2 * k + 1] == hex_digit_byte(d[k] as int % 16) as char);
    }
}

proof fn lemma_hex_decode_tail(d: Seq<u8>, b: Seq<u8>, k: int)
    requires
        b == encode_utf8(hex_text(d)),
        0 <= k <= d.len(),
    ensures
        hex_pairs_sliceable(b, 2 * k),
        hex_decode_from(b, 2 * k) == Some(d.skip(k)),
    decreases d.len() - k,
{
    lemma_hex_text_bytes(d);
    vstd::utf8::encode_utf8_valid_utf8(hex_text(d));
    if k == d.len() {
        assert(d.skip(k) =~= Seq::<u8>::empty());
    } else {
        lemma_hex_decode_tail(d, b, k + 1);
        let i = 2 * k;
        assert(b[i] == hex_digit_byte(d[k] as int / 16));
        assert(b[i + 1] == hex_digit_byte(d[k] as int % 16));
        assert(hex_pair_value(b[i], b[i + 1]) == Some(d[k]));
        vstd::utf8::is_char_boundary_iff_not_is_continuation_byte(b, i);
        if i + 2 < b.len() {
            vstd::utf8::is_char_boundary_iff_not_is_continuation_byte(b, i + 2);
            assert(b[i + 2] == hex_digit_byte(d[k + 1] as int / 16));
        } else {
            vstd::utf8::is_char_boundary_start_end_of_seq(b);
        }
        assert(2 * (k + 1) == i + 2);
        assert(seq![d[k]] + d.skip(k + 1) =~= d.skip(k));
    }
}

/// Law: reading back the hexadecimal text of a key gives the key, and the
/// reading never slices outside the text.
pub proof fn lemma_hex_roundtrip(d: Seq<u8>)
    ensures
        hex_pairs_sliceable(encode_utf8(hex_text(d)), 0),
        hex_decode_from(encode_utf8(hex_text(d)), 0) == Some(d),
{
    lemma_hex_decode_tail(d, encode_utf8(hex_text(d)), 0);
    assert(d.skip(0) =~= d);
}

/// Seals `plaintext` under `room_key` with the given nonce; the wire text is
/// the Base64 of the nonce followed by the ciphertext and tag.
pub fn encrypt_with_nonce(plaintext: &str, room_key: &RoomKey, nonce: &[u8]) -> (res: Result<
    String,
    CryptoError,
>)
    requires
        room_key@.len() == KEY_SIZE,
        nonce@.len() == NONCE_SIZE,
    ensures
        encode_utf8(plaintext@).len() <= MAX_PLAINTEXT ==> (res matches Ok(s) && s@ == sealed_text(
            room_key@,
            nonce@,
            plaintext@,
        )),
        encode_utf8(plaintext@).len() <= MAX_PLAINTEXT ==> aes256gcm_seal(
            room_key@,
            nonce@,
            encode_utf8(plaintext@),
        ).len() == encode_utf8(plaintext@).len() + 16,
        encode_utf8(plaintext@).len() > MAX_PLAINTEXT ==> res == Err::<String, CryptoError>(
            CryptoError::EncryptionFailed,
        ),
{
    let pt = plaintext.as_bytes();
    match aes_gcm_seal(room_key.bytes.as_slice(), nonce, pt) {
        None => Err(CryptoError::EncryptionFailed),
        Some(ciphertext) => {
            let mut combined: Vec<u8> = Vec::new();
            combined.extend_from_slice(nonce);
            combined.extend_from_slice(ciphertext.as_slice());
            proof {
                assert(combined@ =~= nonce@ + ciphertext@);
            }
            Ok(base64_encode(combined.as_slice()))
        },
    }
}

/// Encrypts a chat message under the room key with a fresh random nonce.
pub fn encrypt(plaintext: &str, room_key: &RoomKey) -> (res: Result<String, CryptoError>)
    requires
        room_key@.len() == KEY_SIZE,
    ensures
        res is Ok <==> encode_utf8(plaintext@).len() <= MAX_PLAINTEXT,
        res matches Ok(s) ==> exists|nonce: Seq<u8>|
            nonce.len() == NONCE_SIZE && s@ == sealed_text(room_key@, nonce, plaintext@)
                && aes256gcm_seal(room_key@, nonce, encode_utf8(plaintext@)).len()
                == encode_utf8(plaintext@).len() + 16,
        res matches Err(e) ==> e == CryptoError::EncryptionFailed,
{
    let nonce = random_nonce();
    let res = encrypt_with_nonce(plaintext, room_key, nonce.as_slice());
    proof {
        if res is Ok {
            assert(nonce@.len() == NONCE_SIZE && res->Ok_0@ == sealed_text(room_key@, nonce@, plaintext@)
                && aes256gcm_seal(room_key@, nonce@, encode_utf8(plaintext@)).len()
                == encode_utf8(plaintext@).len() + 16);
        }
    }
    res
}

/// What opening ciphertext `c` under key `k` and nonce `n` may give: a
/// string whose UTF-8 seals to `c`; a refusal of the tag only when no
/// plaintext seals to `c`; and, for the plaintext that seals to `c`, its text
/// when it is UTF-8 and `InvalidUtf8`, with the text of the UTF-8 error,
/// when it is not.
pub open spec fn opened_as(k: Seq<u8>, n: Seq<u8>, c: Seq<u8>, res: Result<String, CryptoError>) -> bool {
    &&& (res matches Ok(s) ==> aes256gcm_seal(k, n, encode_utf8(s@)) == c)
    &&& (res matches Err(e) ==> (e == CryptoError::DecryptionFailed || e is InvalidUtf8))
    &&& (res == Err::<String, CryptoError>(CryptoError::DecryptionFailed) ==> forall|p: Seq<u8>|
        p.len() <= MAX_PLAINTEXT ==> #[trigger] aes256gcm_seal(k, n, p) != c)
    &&& forall|p: Seq<u8>|
        p.len() <= MAX_PLAINTEXT && #[trigger] aes256gcm_seal(k, n, p) == c ==> {
            &&& (valid_utf8(p) ==> (res matches Ok(s) && s@ == decode_utf8(p)))
            &&& (!valid_utf8(p) ==> match res {
                Err(CryptoError::InvalidUtf8(d)) => d@ == utf8_error_text(p),
                _ => false,
            })
        }
}

/// Opens a message that [`encrypt`] produced: Base64-decodes it, splits off
/// the nonce, checks and removes the tag, and reads the rest as UTF-8.
pub fn decrypt(encrypted: &str, room_key: &RoomKey) -> (res: Result<String, CryptoError>)
    requires
        b64_lookups_in_table(trim_padding(encrypted.spec_bytes())),
        b64_decode_spec(trim_padding(encrypted.spec_bytes())) matches Some(b) && b.len() >= NONCE_SIZE
            ==> room_key@.len() == KEY_SIZE,
    ensures
        match b64_decode_spec(trim_padding(encrypted.spec_bytes())) {
            None => res == Err::<String, CryptoError>(CryptoError::InvalidBase64),
            Some(b) => if b.len() < NONCE_SIZE {
                res == Err::<String, CryptoError>(CryptoError::DataTooShort)
            } else {
                opened_as(room_key@, b.take(NONCE_SIZE as int), b.skip(NONCE_SIZE as int), res)
            },
        },
        forall|nonce: Seq<u8>, plaintext: Seq<char>|
            nonce.len() == NONCE_SIZE && encode_utf8(plaintext).len() <= MAX_PLAINTEXT
                && #[trigger] sealed_text(room_key@, nonce, plaintext) == encrypted@
                ==> (res matches Ok(s) && s@ == plaintext),
{
    let ghost k = room_key@;
    proof {
        assert forall|nonce: Seq<u8>, plaintext: Seq<char>|
            nonce.len() == NONCE_SIZE && encode_utf8(plaintext).len() <= MAX_PLAINTEXT
                && #[trigger] sealed_text(k, nonce, plaintext) == encrypted@ implies
            b64_decode_spec(trim_padding(encrypted.spec_bytes())) == Some(
                nonce + aes256gcm_seal(k, nonce, encode_utf8(plaintext)),
            ) by {
            crate::base64::lemma_base64_roundtrip(
                nonce + aes256gcm_seal(k, nonce, encode_utf8(plaintext)),
            );
        }
    }
    let combined = match base64_decode(encrypted) {
        Ok(v) => v,
        Err(e) => {
            return Err(e);
        },
    };
    if combined.len() < NONCE_SIZE {
        return Err(CryptoError::DataTooShort);
    }
    let (nonce_bytes, ciphertext) = combined.as_slice().split_at(NONCE_SIZE);
    let ghost b = combined@;
    proof {
        assert(nonce_bytes@ =~= b.take(NONCE_SIZE as int));
        assert(ciphertext@ =~= b.skip(NONCE_SIZE as int));
    }
    let plain = match aes_gcm_open(room_key.bytes.as_slice(), nonce_bytes, ciphertext) {
        Some(p) => p,
        None => {
            proof {
                assert forall|nonce: Seq<u8>, plaintext: Seq<char>|
                    nonce.len() == NONCE_SIZE && encode_utf8(plaintext).len() <= MAX_PLAINTEXT
                        && #[trigger] sealed_text(k, nonce, plaintext) == encrypted@ implies false by {
                    let c = aes256gcm_seal(k, nonce, encode_utf8(plaintext));
                    assert((nonce + c).take(NONCE_SIZE as int) =~= nonce);
                    assert((nonce + c).skip(NONCE_SIZE as int) =~= c);
                }
            }
            return Err(CryptoError::DecryptionFailed);
        },
    };
    let ghost pb = plain@;
    let res = match string_from_utf8(plain) {
        Ok(s) => Ok(s),
        Err(d) => Err(CryptoError::InvalidUtf8(d)),
    };
    proof {
        if res is Ok {
            vstd::utf8::decode_utf8_encode_utf8(pb);
            assert(encode_utf8(res->Ok_0@) == pb);
        }
        assert forall|nonce: Seq<u8>, plaintext: Seq<char>|
            nonce.len() == NONCE_SIZE && encode_utf8(plaintext).len() <= MAX_PLAINTEXT
                && #[trigger] sealed_text(k, nonce, plaintext) == encrypted@ implies
            (res matches Ok(s) && s@ == plaintext) by {
            let c = aes256gcm_seal(k, nonce, encode_utf8(plaintext));
            assert((nonce + c).take(NONCE_SIZE as int) =~= nonce);
            assert((nonce + c).skip(NONCE_SIZE as int) =~= c);
            assert(pb == encode_utf8(plaintext));
            vstd::utf8::encode_utf8_valid_utf8(plaintext);
            vstd::utf8::encode_utf8_decode_utf8(plaintext);
        }
    }
    res
}

/// Law: what [`encrypt`] produces, [`decrypt`] under the same key opens to
/// the message that was sealed. The wire text meets `decrypt`'s
/// precondition, decodes to the nonce followed by the sealed bytes, and every
/// result that `decrypt`'s contract allows for those bytes is that message.
pub proof fn lemma_encrypt_decrypt_roundtrip(key: Seq<u8>, nonce: Seq<u8>, plaintext: Seq<char>)
    requires
        nonce.len() == NONCE_SIZE,
        encode_utf8(plaintext).len() <= MAX_PLAINTEXT,
    ensures
        b64_lookups_in_table(trim_padding(encode_utf8(sealed_text(key, nonce, plaintext)))),
        b64_decode_spec(trim_padding(encode_utf8(sealed_text(key, nonce, plaintext)))) == Some(
            nonce + aes256gcm_seal(key, nonce, encode_utf8(plaintext)),
        ),
        (nonce + aes256gcm_seal(key, nonce, encode_utf8(plaintext))).len() >= NONCE_SIZE,
        (nonce + aes256gcm_seal(key, nonce, encode_utf8(plaintext))).take(NONCE_SIZE as int) == nonce,
        (nonce + aes256gcm_seal(key, nonce, encode_utf8(plaintext))).skip(NONCE_SIZE as int)
            == aes256gcm_seal(key, nonce, encode_utf8(plaintext)),
        forall|res: Result<String, CryptoError>|
            #[trigger] opened_as(key, nonce, aes256gcm_seal(key, nonce, encode_utf8(plaintext)), res)
                ==> (res matches Ok(s) && s@ == plaintext),
{
    let c = aes256gcm_seal(key, nonce, encode_utf8(plaintext));
    crate::base64::lemma_base64_roundtrip(nonce + c);
    assert((nonce + c).take(NONCE_SIZE as int) =~= nonce);
    assert((nonce + c).skip(NONCE_SIZE as int) =~= c);
    vstd::utf8::encode_utf8_valid_utf8(plaintext);
    vstd::utf8::encode_utf8_decode_utf8(plaintext);
    assert forall|res: Result<String, CryptoError>|
        #[trigger] opened_as(key, nonce, c, res) implies (res matches Ok(s) && s@ == plaintext) by {
        assert(encode_utf8(plaintext).len() <= MAX_PLAINTEXT && aes256gcm_seal(key, nonce, encode_utf8(plaintext)) == c);
    }
}

} // verus!
