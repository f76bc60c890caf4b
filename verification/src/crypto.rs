//! Encryption of history entries with AES-256-GCM under a key kept in the
//! desktop keyring (as standard base64).
use vstd::prelude::*;
use aes_gcm::aead::{Aead, KeyInit};
use aes_gcm::{Aes256Gcm, Key, Nonce};
use base64::Engine;
use rand::RngCore;
use crate::text::{
    chars_of, decimal, push_decimal, push_str, string_of, trim, trim_chars, trim_end, trim_start,
};

verus! {

broadcast use vstd::string::group_string_axioms;

/// Bytes in an AES-256 key.
pub const KEY_LEN: usize = 32;
/// Bytes in a GCM nonce.
pub const NONCE_LEN: usize = 12;
/// Bytes the authentication tag adds to a ciphertext.
pub const TAG_LEN: usize = 16;
/// Longest plaintext AES-GCM accepts (2^36 bytes).
pub const MAX_PLAINTEXT: u64 = 0x10_0000_0000;

/// The bytes of an optional byte vector.
pub open spec fn opt_bytes(r: Option<Vec<u8>>) -> Option<Seq<u8>> {
    match r {
        Some(v) => Some(v@),
        None => None,
    }
}

/// AES-256-GCM encryption (no associated data) of `plain` under `key` and `nonce`.
pub uninterp spec fn aes256gcm_seal(key: Seq<u8>, nonce: Seq<u8>, plain: Seq<u8>) -> Option<Seq<u8>>;

/// AES-256-GCM decryption (no associated data) of `ciphertext` under `key` and `nonce`.
pub uninterp spec fn aes256gcm_open(key: Seq<u8>, nonce: Seq<u8>, ciphertext: Seq<u8>) -> Option<
    Seq<u8>,
>;

/// The character of the standard base64 alphabet for `n < 64`.
pub open spec fn base64_digit(n: int) -> char {
    if n < 26 {
        ((65 + n) as u32) as char
    } else if n < 52 {
        ((97 + n - 26) as u32) as char
    } else if n < 62 {
        ((48 + n - 52) as u32) as char
    } else if n == 62 {
        '+'
    } else {
        '/'
    }
}

/// Standard base64 of `bytes`: each group of three bytes gives four characters
/// of six bits each; a last group of one or two bytes is padded with `=`.
pub open spec fn base64_text(bytes: Seq<u8>) -> Seq<char>
    decreases bytes.len(),
{
    if bytes.len() == 0 {
        Seq::empty()
    } else if bytes.len() == 1 {
        let b0 = bytes[0] as int;
        seq![base64_digit(b0 / 4), base64_digit((b0 % 4) * 16), '=', '=']
    } else if bytes.len() == 2 {
        let b0 = bytes[0] as int;
        let b1 = bytes[1] as int;
        seq![
            base64_digit(b0 / 4),
            base64_digit((b0 % 4) * 16 + b1 / 16),
            base64_digit((b1 % 16) * 4),
            '=',
        ]
    } else {
        let b0 = bytes[0] as int;
        let b1 = bytes[1] as int;
        let b2 = bytes[2] as int;
        seq![
            base64_digit(b0 / 4),
            base64_digit((b0 % 4) * 16 + b1 / 16),
            base64_digit((b1 % 16) * 4 + b2 / 64),
            base64_digit(b2 % 64),
        ] + base64_text(bytes.skip(3))
    }
}

/// The bytes or the error text of a decoding result.
pub open spec fn decoded_view(r: Result<Vec<u8>, String>) -> Result<Seq<u8>, Seq<char>> {
    match r {
        Ok(v) => Ok(v@),
        Err(e) => Err(e@),
    }
}

/// What `STANDARD.decode` gives for `text`: the bytes, or the `Display` text of
/// its error.
pub uninterp spec fn base64_decoding(text: Seq<char>) -> Result<Seq<u8>, Seq<char>>;

/// A character of the standard base64 alphabet or its padding.
pub open spec fn is_base64_char(c: char) -> bool {
    ('A' <= c <= 'Z') || ('a' <= c <= 'z') || ('0' <= c <= '9') || c == '+' || c == '/' || c
        == '='
}

/// `Aes256Gcm::new(key).encrypt(nonce, plain)`.
///
/// Trusted: the result is the named `aes256gcm_seal`; aes-gcm 0.10 refuses only
/// plaintexts longer than 2^36 bytes and otherwise returns the ciphertext with
/// its 16-byte tag appended.
#[verifier::external_body]
fn seal(key: &[u8], nonce: &[u8], plain: &[u8]) -> (r: Option<Vec<u8>>)
    requires
        key@.len() == KEY_LEN,
        nonce@.len() == NONCE_LEN,
    ensures
        opt_bytes(r) == aes256gcm_seal(key@, nonce@, plain@),
        r is Some <==> plain@.len() <= MAX_PLAINTEXT,
        r matches Some(c) ==> c@.len() == plain@.len() + TAG_LEN,
{
    let cipher = Aes256Gcm::new(Key::<Aes256Gcm>::from_slice(key));
    cipher.encrypt(Nonce::from_slice(nonce), plain).ok()
}

/// `Aes256Gcm::new(key).decrypt(nonce, ciphertext)`.
///
/// Trusted: the result is the named `aes256gcm_open`, and a ciphertext that
/// `seal` produced under the same key and nonce decrypts to its plaintext
/// (GCM recomputes the same tag and applies the same key stream).
#[verifier::external_body]
fn open(key: &[u8], nonce: &[u8], ciphertext: &[u8]) -> (r: Option<Vec<u8>>)
    requires
        key@.len() == KEY_LEN,
        nonce@.len() == NONCE_LEN,
    ensures
        opt_bytes(r) == aes256gcm_open(key@, nonce@, ciphertext@),
        forall|p: Seq<u8>| #[trigger]
            aes256gcm_seal(key@, nonce@, p) == Some(ciphertext@) ==> opt_bytes(r) == Some(p),
{
    let cipher = Aes256Gcm::new(Key::<Aes256Gcm>::from_slice(key));
    cipher.decrypt(Nonce::from_slice(nonce), ciphertext).ok()
}

/// `n` bytes from `rand::thread_rng().fill_bytes`.
///
/// Trusted: only the length is promised; the bytes are random.
#[verifier::external_body]
fn random_bytes(n: usize) -> (r: Vec<u8>)
    ensures
        r@.len() == n,
{
    let mut v = vec![0u8; n];
    rand::thread_rng().fill_bytes(&mut v);
    v
}

/// `base64::engine::general_purpose::STANDARD.encode(bytes)`.
///
/// Trusted: the result is standard base64 with padding, `base64_text`. The
/// `requires` is the condition under which `encoded_len` does not overflow
/// (it panics otherwise).
#[verifier::external_body]
fn encode_base64(bytes: &[u8]) -> (r: String)
    requires
        (bytes@.len() / 3) * 4 + (if bytes@.len() % 3 > 0 {
            4int
        } else {
            0int
        }) <= usize::MAX,
    ensures
        r@ == base64_text(bytes@),
{
    base64::engine::general_purpose::STANDARD.encode(bytes)
}

/// `base64::engine::general_purpose::STANDARD.decode(text)`, its `DecodeError`
/// turned into its `Display` text.
///
/// Trusted: the bytes or the error text are the named `base64_decoding`, and
/// the base64 text of some bytes decodes back to those bytes.
#[verifier::external_body]
fn decode_base64(text: &str) -> (r: Result<Vec<u8>, String>)
    ensures
        decoded_view(r) == base64_decoding(text@),
        forall|b: Seq<u8>| #[trigger] base64_text(b) == text@ ==> r is Ok && r->Ok_0@ == b,
{
    match base64::engine::general_purpose::STANDARD.decode(text) {
        Ok(v) => Ok(v),
        Err(e) => Err(format!("{e}")),
    }
}

/// Why a key could not be loaded or an entry not be sealed or opened.
#[derive(Clone, Debug, PartialEq, Eq)]
pub enum CryptoError {
    /// The stored key is not valid base64; the decoder's reason.
    KeyNotBase64(String),
    /// The stored key decodes to this many bytes instead of 32.
    KeyLength(usize),
    /// AES-GCM refused to encrypt.
    Encrypt,
    /// AES-GCM refused to decrypt (wrong key, nonce or corrupted data).
    Decrypt,
    /// A nonce of this many bytes instead of 12.
    NonceLength(usize),
}

/// The message shown for a crypto error.
pub open spec fn crypto_error_text(e: CryptoError) -> Seq<char> {
    match e {
        CryptoError::KeyNotBase64(cause) => "decode key from keyring: "@ + cause@,
        CryptoError::KeyLength(n) => "keyring key must be 32 bytes, got "@ + decimal(n as nat),
        CryptoError::Encrypt => "encrypt: aead::Error"@,
        CryptoError::Decrypt => "decrypt: aead::Error"@,
        CryptoError::NonceLength(n) => "bad nonce length "@ + decimal(n as nat),
    }
}

impl CryptoError {
    pub fn message(&self) -> (m: String)
        ensures
            m@ == crypto_error_text(*self),
    {
        let mut m = String::new();
        match self {
            CryptoError::KeyNotBase64(cause) => {
                push_str(&mut m, "decode key from keyring: ");
                push_str(&mut m, cause.as_str());
            },
            CryptoError::KeyLength(n) => {
                push_str(&mut m, "keyring key must be 32 bytes, got ");
                push_decimal(&mut m, *n as u64);
            },
            CryptoError::Encrypt => push_str(&mut m, "encrypt: aead::Error"),
            CryptoError::Decrypt => push_str(&mut m, "decrypt: aead::Error"),
            CryptoError::NonceLength(n) => {
                push_str(&mut m, "bad nonce length ");
                push_decimal(&mut m, *n as u64);
            },
        }
        m
    }
}

/// What the keyring text `stored` decodes to after trimming: the bytes, or the
/// decoder's reason.
pub open spec fn stored_key(stored: Seq<char>) -> Result<Seq<u8>, Seq<char>> {
    base64_decoding(trim(stored))
}

/// Every character of standard base64 is in its alphabet or padding.
pub proof fn lemma_base64_text_chars(bytes: Seq<u8>)
    ensures
        forall|i: int|
            0 <= i < base64_text(bytes).len() ==> is_base64_char(#[trigger] base64_text(bytes)[i]),
        base64_text(bytes).len() == (bytes.len() / 3) * 4 + (if bytes.len() % 3 > 0 {
            4int
        } else {
            0int
        }),
    decreases bytes.len(),
{
    if bytes.len() >= 3 {
        lemma_base64_text_chars(bytes.skip(3));
    }
    let t = base64_text(bytes);
    assert forall|n: int| 0 <= n < 64 implies is_base64_char(#[trigger] base64_digit(n)) by {}
    if bytes.len() > 0 {
        let b0 = bytes[0] as int;
        assert(0 <= b0 / 4 < 64);
        assert(0 <= (b0 % 4) * 16 < 64);
        if bytes.len() >= 2 {
            let b1 = bytes[1] as int;
            assert(0 <= (b0 % 4) * 16 + b1 / 16 < 64);
            assert(0 <= (b1 % 16) * 4 < 64);
            if bytes.len() >= 3 {
                let b2 = bytes[2] as int;
                assert(0 <= (b1 % 16) * 4 + b2 / 64 < 64);
                assert(0 <= b2 % 64 < 64);
            }
        }
    }
    assert forall|i: int| 0 <= i < t.len() implies is_base64_char(#[trigger] t[i]) by {
        if bytes.len() >= 3 && i >= 4 {
            assert(t[i] == base64_text(bytes.skip(3))[i - 4]);
        }
    }
}

/// The history cipher: an AES-256-GCM key.
pub struct Crypto {
    key: Vec<u8>,
}

impl Crypto {
    #[verifier::type_invariant]
    spec fn key_is_full(self) -> bool {
        self.key@.len() == KEY_LEN
    }

    /// The key.
    pub closed spec fn spec_key(&self) -> Seq<u8> {
        self.key@
    }

    /// The cipher for the key stored in the keyring as `stored` (base64,
    /// surrounding white space ignored).
    pub fn from_stored_key(stored: &str) -> (r: Result<Crypto, CryptoError>)
        ensures
            match r {
                Ok(c) => stored_key(stored@) == Ok::<Seq<u8>, Seq<char>>(c.spec_key()),
                Err(CryptoError::KeyNotBase64(cause)) => stored_key(stored@) == Err::<
                    Seq<u8>,
                    Seq<char>,
                >(cause@),
                Err(CryptoError::KeyLength(n)) => stored_key(stored@) matches Ok(k) && k.len()
                    != KEY_LEN && n == k.len(),
                Err(_) => false,
            },
            forall|k: Seq<u8>|
                #[trigger] base64_text(k) == trim(stored@) && k.len() == KEY_LEN ==> (
                r matches Ok(c) && c.spec_key() == k),
    {
        let trimmed = string_of(&trim_chars(&chars_of(stored)));
        match decode_base64(trimmed.as_str()) {
            Err(cause) => Err(CryptoError::KeyNotBase64(cause)),
            Ok(key) => {
                if key.len() == KEY_LEN {
                    Ok(Crypto { key })
                } else {
                    Err(CryptoError::KeyLength(key.len()))
                }
            },
        }
    }

    /// A cipher with a fresh random key, and the key's base64 text to store in
    /// the keyring.
    pub fn generate() -> (r: (Crypto, String))
        ensures
            r.0.spec_key().len() == KEY_LEN,
            r.1@ == base64_text(r.0.spec_key()),
            forall|i: int| 0 <= i < r.1@.len() ==> is_base64_char(#[trigger] r.1@[i]),
    {
        let key = random_bytes(KEY_LEN);
        let text = encode_base64(&key);
        proof {
            lemma_base64_text_chars(key@);
        }
        (Crypto { key }, text)
    }

    /// Seals `plain` under a fresh random nonce; returns the ciphertext and the nonce.
    pub fn encrypt(&self, plain: &[u8]) -> (r: Result<(Vec<u8>, Vec<u8>), CryptoError>)
        ensures
            r is Ok <==> plain@.len() <= MAX_PLAINTEXT,
            r matches Err(e) ==> e == CryptoError::Encrypt,
            r matches Ok((c, n)) ==> n@.len() == NONCE_LEN && aes256gcm_seal(
                self.spec_key(),
                n@,
                plain@,
            ) == Some(c@),
            r matches Ok((c, n)) ==> c@.len() == plain@.len() + TAG_LEN,
    {
        proof {
            use_type_invariant(self);
        }
        let nonce = random_bytes(NONCE_LEN);
        match seal(&self.key, &nonce, plain) {
            Some(c) => Ok((c, nonce)),
            None => Err(CryptoError::Encrypt),
        }
    }

    /// Opens `ciphertext` sealed under `nonce`; a ciphertext that `encrypt` made
    /// from `p` with this key and nonce opens to `p`.
    pub fn decrypt(&self, ciphertext: &[u8], nonce: &[u8]) -> (r: Result<Vec<u8>, CryptoError>)
        ensures
            nonce@.len() != NONCE_LEN ==> r == Err::<Vec<u8>, CryptoError>(
                CryptoError::NonceLength(nonce@.len() as usize),
            ),
            nonce@.len() == NONCE_LEN ==> match r {
                Ok(p) => aes256gcm_open(self.spec_key(), nonce@, ciphertext@) == Some(p@),
                Err(e) => e == CryptoError::Decrypt && aes256gcm_open(
                    self.spec_key(),
                    nonce@,
                    ciphertext@,
                ) is None,
            },
            forall|p: Seq<u8>|
                nonce@.len() == NONCE_LEN && #[trigger] aes256gcm_seal(self.spec_key(), nonce@, p)
                    == Some(ciphertext@) ==> (r matches Ok(q) && q@ == p),
    {
        proof {
            use_type_invariant(self);
        }
        if nonce.len() != NONCE_LEN {
            return Err(CryptoError::NonceLength(nonce.len()));
        }
        match open(&self.key, nonce, ciphertext) {
            Some(p) => Ok(p),
            None => Err(CryptoError::Decrypt),
        }
    }
}

/// A base64 text has no white space around it, so trimming keeps it whole: the
/// key text that `generate` hands to the keyring is read back unchanged.
pub proof fn lemma_base64_text_is_trimmed(text: Seq<char>)
    requires
        forall|i: int| 0 <= i < text.len() ==> is_base64_char(#[trigger] text[i]),
    ensures
        trim(text) == text,
{
    if text.len() > 0 {
        assert(is_base64_char(text[0]));
        assert(is_base64_char(text.last()));
    }
    assert(trim_start(text) == text);
    assert(trim_end(text) == text);
}

} // verus!
