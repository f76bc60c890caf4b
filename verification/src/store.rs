//! The encrypted clipboard history: what an entry holds, how it is sealed
//! before it is written, and how rows are opened again when read.
//!
//! The SQLite table itself is driven by the application; these functions take
//! and give the values of its rows.
use vstd::prelude::*;
use vstd::utf8::{decode_utf8, encode_utf8, valid_utf8};
use sha2::{Digest, Sha256};
use crate::crypto::{
    aes256gcm_open, aes256gcm_seal, opt_bytes, Crypto, CryptoError, MAX_PLAINTEXT, NONCE_LEN,
};
use crate::text::{
    chars_eq, chars_of, lemma_trim_is_infix, push_char, string_of, trim, trim_chars,
};

verus! {

broadcast use vstd::string::group_string_axioms;

// ---------------------------------------------------------------------------
// Kinds
// ---------------------------------------------------------------------------

/// What an entry holds.
#[derive(Clone, Copy, Debug, PartialEq, Eq, Structural)]
pub enum Kind {
    Text,
    Image,
}

/// The name a kind is stored under.
pub open spec fn kind_name(k: Kind) -> Seq<char> {
    match k {
        Kind::Text => "text"@,
        Kind::Image => "image"@,
    }
}

/// The kind a stored name denotes.
pub open spec fn kind_named(s: Seq<char>) -> Option<Kind> {
    if s == "text"@ {
        Some(Kind::Text)
    } else if s == "image"@ {
        Some(Kind::Image)
    } else {
        None
    }
}

impl Kind {
    /// The name the kind is stored under.
    pub fn as_str(self) -> (r: &'static str)
        ensures
            r@ == kind_name(self),
    {
        match self {
            Kind::Text => "text",
            Kind::Image => "image",
        }
    }

    /// The kind stored under `s`, if any.
    pub fn parse(s: &str) -> (r: Option<Kind>)
        ensures
            r == kind_named(s@),
    {
        let c = chars_of(s);
        let text = chars_of("text");
        let image = chars_of("image");
        if chars_eq(&c, &text) {
            Some(Kind::Text)
        } else if chars_eq(&c, &image) {
            Some(Kind::Image)
        } else {
            None
        }
    }
}

/// Each kind reads back from the name it is stored under.
pub proof fn lemma_kind_name_round_trip(k: Kind)
    ensures
        kind_named(kind_name(k)) == Some(k),
{
    reveal_strlit("text");
    reveal_strlit("image");
    assert("text"@.len() == 4);
    assert("image"@.len() == 5);
    assert("image"@ != "text"@);
}

// ---------------------------------------------------------------------------
// Entries as listed
// ---------------------------------------------------------------------------

/// An entry as the popup lists it.
#[derive(Clone, Debug)]
pub struct ItemMeta {
    pub id: i64,
    pub kind: Kind,
    pub mime: String,
    pub created_at: i64,
    pub last_used_at: i64,
    pub size: i64,
    /// Plaintext preview for text, or empty for images.
    pub preview: String,
    /// Decrypted thumbnail PNG bytes (images only).
    pub thumb: Option<Vec<u8>>,
}

// ---------------------------------------------------------------------------
// Content hash
// ---------------------------------------------------------------------------

/// SHA-256 of `data`.
pub uninterp spec fn sha256(data: Seq<u8>) -> Seq<u8>;

/// `sha2::Sha256::digest(data)`.
///
/// Trusted: the result is the named `sha256`, 32 bytes long.
#[verifier::external_body]
fn sha256_digest(data: &[u8]) -> (r: Vec<u8>)
    ensures
        r@ == sha256(data@),
        r@.len() == 32,
{
    Sha256::digest(data).to_vec()
}

/// The lower-case hexadecimal digit for `n < 16`.
pub open spec fn hex_digit(n: int) -> char {
    if n < 10 {
        ((48 + n) as u32) as char
    } else {
        ((87 + n) as u32) as char
    }
}

/// Lower-case hexadecimal of `bytes`, two digits per byte (`{:x}` on a digest).
pub open spec fn lower_hex(bytes: Seq<u8>) -> Seq<char>
    decreases bytes.len(),
{
    if bytes.len() == 0 {
        Seq::empty()
    } else {
        lower_hex(bytes.drop_last()).push(hex_digit(bytes.last() as int / 16)).push(
            hex_digit(bytes.last() as int % 16),
        )
    }
}

fn hex_digit_exec(n: u8) -> (c: char)
    requires
        n < 16,
    ensures
        c == hex_digit(n as int),
{
    if n < 10 {
        (48 + n) as char
    } else {
        (87 + n) as char
    }
}

/// The content hash an entry is deduplicated by: lower-case hex SHA-256.
pub fn hex_hash(data: &[u8]) -> (r: String)
    ensures
        r@ == lower_hex(sha256(data@)),
{
    let d = sha256_digest(data);
    let mut r = String::new();
    let mut i: usize = 0;
    while i < d.len()
        invariant
            i <= d@.len(),
            r@ == lower_hex(d@.take(i as int)),
        decreases d@.len() - i,
    {
        let b = d[i];
        push_char(&mut r, hex_digit_exec(b / 16));
        push_char(&mut r, hex_digit_exec(b % 16));
        assert(d@.take(i + 1).drop_last() =~= d@.take(i as int));
        i += 1;
    }
    assert(d@.take(d@.len() as int) =~= d@);
    r
}

// ---------------------------------------------------------------------------
// Text preview
// ---------------------------------------------------------------------------

/// The characters `String::from_utf8_lossy` reads from `bytes`.
pub uninterp spec fn utf8_lossy(bytes: Seq<u8>) -> Seq<char>;

/// `String::from_utf8_lossy(bytes)`.
///
/// Trusted: the result is the named `utf8_lossy`; std documents that valid
/// UTF-8 comes back unchanged.
#[verifier::external_body]
fn from_utf8_lossy(bytes: &[u8]) -> (r: String)
    ensures
        r@ == utf8_lossy(bytes@),
        valid_utf8(bytes@) ==> r@ == decode_utf8(bytes@),
{
    String::from_utf8_lossy(bytes).into_owned()
}

/// Characters a preview keeps before it is cut.
pub const PREVIEW_CHARS: usize = 120;

/// `s` with line breaks turned into spaces.
pub open spec fn one_line(s: Seq<char>) -> Seq<char> {
    s.map_values(|c: char| if c == '\n' || c == '\r' { ' ' } else { c })
}

/// The one-line preview of a text: line breaks become spaces, the ends are
/// trimmed, and more than 120 characters are cut to 120 plus `…`.
pub open spec fn preview_from_text(s: Seq<char>) -> Seq<char> {
    let t = trim(one_line(s));
    if t.len() > PREVIEW_CHARS {
        t.take(PREVIEW_CHARS as int).push('…')
    } else {
        t
    }
}

/// The one-line preview of a text entry, read as lossy UTF-8.
pub open spec fn preview_of(payload: Seq<u8>) -> Seq<char> {
    preview_from_text(utf8_lossy(payload))
}

/// The one-line preview of a text entry; a payload of valid UTF-8 is previewed
/// from exactly the text it encodes.
pub fn preview_text(payload: &[u8]) -> (r: String)
    ensures
        r@ == preview_of(payload@),
        valid_utf8(payload@) ==> r@ == preview_from_text(decode_utf8(payload@)),
{
    let s = chars_of(from_utf8_lossy(payload).as_str());
    let mut flat: Vec<char> = Vec::new();
    let mut i: usize = 0;
    while i < s.len()
        invariant
            i <= s@.len(),
            flat@ == one_line(s@.take(i as int)),
        decreases s@.len() - i,
    {
        let c = s[i];
        flat.push(if c == '\n' || c == '\r' { ' ' } else { c });
        assert(one_line(s@.take(i + 1)) =~= one_line(s@.take(i as int)).push(
            if c == '\n' || c == '\r' { ' ' } else { c },
        ));
        i += 1;
    }
    assert(s@.take(s@.len() as int) =~= s@);
    let t = trim_chars(&flat);
    if t.len() > PREVIEW_CHARS {
        let mut r = String::new();
        let mut k: usize = 0;
        while k < PREVIEW_CHARS
            invariant
                k <= PREVIEW_CHARS < t@.len(),
                r@ == t@.take(k as int),
            decreases PREVIEW_CHARS - k,
        {
            push_char(&mut r, t[k]);
            assert(t@.take(k + 1) =~= t@.take(k as int).push(t@[k as int]));
            k += 1;
        }
        push_char(&mut r, '…');
        r
    } else {
        string_of(&t)
    }
}

/// A preview is the start of the entry's text: with line breaks turned into
/// spaces and the ends trimmed, a text of at most 120 characters is shown
/// whole; a longer one shows its first 120 characters followed by `…`.
pub proof fn lemma_preview_is_the_start(s: Seq<char>)
    ensures
        ({
            let t = trim(one_line(s));
            let p = preview_from_text(s);
            &&& t.len() <= 120 ==> p == t
            &&& t.len() > 120 ==> p.len() == 121 && p[120] == '…' && forall|i: int|
                0 <= i < 120 ==> #[trigger] p[i] == t[i]
        }),
{
}

/// No preview holds a line break, and none is longer than 121 characters.
pub proof fn lemma_preview_is_one_short_line(payload: Seq<u8>)
    ensures
        preview_of(payload).len() <= PREVIEW_CHARS + 1,
        forall|i: int|
            0 <= i < preview_of(payload).len() ==> #[trigger] preview_of(payload)[i] != '\n'
                && preview_of(payload)[i] != '\r',
{
    let l = one_line(utf8_lossy(payload));
    assert forall|i: int| 0 <= i < l.len() implies #[trigger] l[i] != '\n' && l[i] != '\r' by {}
    lemma_trim_is_infix(l);
    let t = trim(l);
    let (a, b) = choose|a: int, b: int| 0 <= a <= b <= l.len() && t == l.subrange(a, b);
    assert forall|i: int| 0 <= i < t.len() implies #[trigger] t[i] != '\n' && t[i] != '\r' by {
        assert(t[i] == l[a + i]);
    }
    if t.len() > PREVIEW_CHARS {
        let p = t.take(PREVIEW_CHARS as int).push('…');
        assert forall|i: int| 0 <= i < p.len() implies #[trigger] p[i] != '\n' && p[i] != '\r' by {
            if i < PREVIEW_CHARS {
                assert(p[i] == t[i]);
            }
        }
    }
}

// ---------------------------------------------------------------------------
// Thumbnails
// ---------------------------------------------------------------------------

/// The PNG encoding of `bytes`, decoded by `image::load_from_memory`, scaled by
/// `DynamicImage::thumbnail(side, side)` and written with `ImageFormat::Png`;
/// `None` when decoding or encoding fails.
pub uninterp spec fn png_thumbnail_of(bytes: Seq<u8>, side: u32) -> Option<Seq<u8>>;

/// The eight bytes every PNG file opens with.
pub open spec fn png_signature() -> Seq<u8> {
    seq![137u8, 80u8, 78u8, 71u8, 13u8, 10u8, 26u8, 10u8]
}

/// `bytes` open with the PNG signature.
pub open spec fn starts_as_png(bytes: Seq<u8>) -> bool {
    bytes.len() >= 8 && bytes.take(8) == png_signature()
}

/// `image::load_from_memory(bytes)`, then `DynamicImage::thumbnail(side, side)`,
/// then `DynamicImage::write_to(.., ImageFormat::Png)` into a fresh buffer.
///
/// Trusted: the result is the named `png_thumbnail_of` of the bytes and the
/// side (all three steps depend on them alone); and the png encoder writes the PNG signature before anything else, so bytes that
/// come back open with it. Whether encoding succeeds is not stated.
#[verifier::external_body]
fn png_thumbnail(bytes: &[u8], side: u32) -> (r: Option<Vec<u8>>)
    ensures
        opt_bytes(r) == png_thumbnail_of(bytes@, side),
        r matches Some(b) ==> starts_as_png(b@),
{
    let img = match image::load_from_memory(bytes) {
        Ok(img) => img,
        Err(_) => return None,
    };
    let thumb = img.thumbnail(side, side);
    let mut buf: Vec<u8> = Vec::new();
    match thumb.write_to(&mut std::io::Cursor::new(&mut buf), image::ImageFormat::Png) {
        Ok(()) => Some(buf),
        Err(_) => None,
    }
}

/// The largest width and height of a thumbnail.
pub const THUMB_SIDE: u32 = 96;

/// A PNG thumbnail (at most 96 by 96, aspect ratio kept) of an image entry;
/// `None` when the bytes are not an image the decoder knows or encoding fails.
pub fn make_thumb(payload: &[u8]) -> (r: Option<Vec<u8>>)
    ensures
        opt_bytes(r) == png_thumbnail_of(payload@, THUMB_SIDE),
        r matches Some(png) ==> starts_as_png(png@),
{
    png_thumbnail(payload, THUMB_SIDE)
}

// ---------------------------------------------------------------------------
// Sealing a new entry
// ---------------------------------------------------------------------------

/// A ciphertext and the nonce it was sealed under.
#[derive(Clone, Debug)]
pub struct Sealed {
    pub ciphertext: Vec<u8>,
    pub nonce: Vec<u8>,
}

/// `ciphertext` is `plain` sealed under `key` and `nonce`.
pub open spec fn sealed_bytes(key: Seq<u8>, ciphertext: Seq<u8>, nonce: Seq<u8>, plain: Seq<u8>) -> bool {
    nonce.len() == NONCE_LEN && aes256gcm_seal(key, nonce, plain) == Some(ciphertext)
}

/// `s` is `plain` sealed under `key`.
pub open spec fn sealed_from(key: Seq<u8>, s: Sealed, plain: Seq<u8>) -> bool {
    sealed_bytes(key, s.ciphertext@, s.nonce@, plain)
}

/// A new history row, ready to be written.
#[derive(Clone, Debug)]
pub struct NewItem {
    pub kind: Kind,
    pub mime: String,
    pub size: i64,
    pub content_hash: String,
    pub payload: Sealed,
    /// Sealed thumbnail PNG (images only, when one could be made).
    pub thumb: Option<Sealed>,
    /// Sealed preview text (text only).
    pub preview: Option<Sealed>,
}

/// The new entry duplicates the newest one: their content hashes agree.
pub open spec fn repeats_newest(newest_hash: Option<Seq<char>>, payload: Seq<u8>) -> bool {
    newest_hash == Some(lower_hex(sha256(payload)))
}

/// The thumbnail an image entry carries: the PNG thumbnail of its bytes, when
/// one could be made and is not empty.
pub open spec fn thumb_plain_of(payload: Seq<u8>) -> Option<Seq<u8>> {
    match png_thumbnail_of(payload, THUMB_SIDE) {
        Some(png) => if png.len() > 0 {
            Some(png)
        } else {
            None
        },
        None => None,
    }
}

/// The newest content hash as characters.
pub open spec fn newest_view(newest_hash: Option<&str>) -> Option<Seq<char>> {
    match newest_hash {
        Some(h) => Some(h@),
        None => None,
    }
}

/// Sealing the entry needs more than AES-GCM takes: the payload, the text
/// preview of a text entry or the thumbnail of an image entry is longer than 2^36 bytes.
pub open spec fn too_long_to_seal(kind: Kind, payload: Seq<u8>) -> bool {
    ||| payload.len() > MAX_PLAINTEXT
    ||| (kind == Kind::Text && encode_utf8(preview_of(payload)).len() > MAX_PLAINTEXT)
    ||| (kind == Kind::Image && (thumb_plain_of(payload) matches Some(png) && png.len()
        > MAX_PLAINTEXT))
}

/// Seals a clipboard entry for the history, unless it repeats the newest entry
/// (whose content hash is `newest_hash`), in which case nothing is stored.
/// Text entries carry a sealed preview, image entries a sealed PNG thumbnail
/// when one can be made.
pub fn prepare_insert(
    crypto: &Crypto,
    kind: Kind,
    mime: &str,
    payload: &[u8],
    newest_hash: Option<&str>,
) -> (r: Result<Option<NewItem>, CryptoError>)
    ensures
        repeats_newest(newest_view(newest_hash), payload@) <==> r == Ok::<
            Option<NewItem>,
            CryptoError,
        >(None),
        r is Err <==> !repeats_newest(newest_view(newest_hash), payload@) && too_long_to_seal(
            kind,
            payload@,
        ),
        r matches Err(e) ==> e == CryptoError::Encrypt,
        r matches Ok(Some(item)) ==> item.kind == kind && item.mime@ == mime@ && item.size
            == payload@.len() as i64 && item.content_hash@ == lower_hex(sha256(payload@))
            && sealed_from(crypto.spec_key(), item.payload, payload@),
        r matches Ok(Some(item)) ==> kind == Kind::Text ==> item.thumb is None && (
        item.preview matches Some(p) && sealed_from(
            crypto.spec_key(),
            p,
            encode_utf8(preview_of(payload@)),
        )),
        r matches Ok(Some(item)) ==> kind == Kind::Image ==> item.preview is None && match thumb_plain_of(
            payload@,
        ) {
            Some(png) => item.thumb matches Some(t) && sealed_from(crypto.spec_key(), t, png),
            None => item.thumb is None,
        },
{
    let hash = hex_hash(payload);
    match newest_hash {
        Some(h) => {
            let hc = chars_of(h);
            let mine = chars_of(hash.as_str());
            if chars_eq(&hc, &mine) {
                return Ok(None);
            }
        },
        None => {},
    }
    let (ciphertext, nonce) = match crypto.encrypt(payload) {
        Ok(p) => p,
        Err(e) => return Err(e),
    };
    let ghost mut thumb_plain: Seq<u8> = Seq::empty();
    let (thumb, preview) = match kind {
        Kind::Text => {
            let p = preview_text(payload);
            let (c, n) = match crypto.encrypt(p.as_str().as_bytes()) {
                Ok(x) => x,
                Err(e) => return Err(e),
            };
            (None, Some(Sealed { ciphertext: c, nonce: n }))
        },
        Kind::Image => {
            let t = match make_thumb(payload) {
                Some(t) => t,
                None => Vec::new(),
            };
            if t.len() == 0 {
                (None, None)
            } else {
                let (c, n) = match crypto.encrypt(&t) {
                    Ok(x) => x,
                    Err(e) => return Err(e),
                };
                let sealed = Sealed { ciphertext: c, nonce: n };
                proof {
                    thumb_plain = t@;
                }
                (Some(sealed), None)
            }
        },
    };
    proof {
        if thumb is Some {
            let t = thumb->0;
            assert(aes256gcm_seal(crypto.spec_key(), t.nonce@, thumb_plain) == Some(t.ciphertext@));
            assert(thumb_plain.len() > 0 && sealed_from(crypto.spec_key(), t, thumb_plain));
        }
    }
    Ok(
        Some(
            NewItem {
                kind,
                mime: mime.to_owned(),
                size: payload.len() as i64,
                content_hash: hash,
                payload: Sealed { ciphertext, nonce },
                thumb,
                preview,
            },
        ),
    )
}

// ---------------------------------------------------------------------------
// Opening stored rows
// ---------------------------------------------------------------------------

/// What decrypting `ciphertext` under `nonce` with `key` gives.
pub open spec fn opened(key: Seq<u8>, ciphertext: Seq<u8>, nonce: Seq<u8>) -> Result<
    Seq<u8>,
    CryptoError,
> {
    if nonce.len() != NONCE_LEN {
        Err(CryptoError::NonceLength(nonce.len() as usize))
    } else {
        match aes256gcm_open(key, nonce, ciphertext) {
            Some(p) => Ok(p),
            None => Err(CryptoError::Decrypt),
        }
    }
}

/// A history row as read back, before opening.
#[derive(Clone, Debug)]
pub struct StoredRow {
    pub id: i64,
    pub kind: String,
    pub mime: String,
    pub created_at: i64,
    pub last_used_at: i64,
    pub size: i64,
    pub thumb_ciphertext: Option<Vec<u8>>,
    pub thumb_nonce: Option<Vec<u8>>,
    pub preview_ciphertext: Option<Vec<u8>>,
    pub preview_nonce: Option<Vec<u8>>,
}

/// What opening an optional sealed pair gives: nothing unless both halves are
/// present, else the opened bytes or the error.
pub open spec fn opened_pair(key: Seq<u8>, c: Option<Vec<u8>>, n: Option<Vec<u8>>) -> Result<
    Option<Seq<u8>>,
    CryptoError,
> {
    match (c, n) {
        (Some(c), Some(n)) => match opened(key, c@, n@) {
            Ok(p) => Ok(Some(p)),
            Err(e) => Err(e),
        },
        _ => Ok(None),
    }
}

/// An optional sealed pair is missing a half or was sealed from some bytes
/// under `key`, as `prepare_insert` seals previews and thumbnails.
pub open spec fn sealed_or_absent(key: Seq<u8>, c: Option<Vec<u8>>, n: Option<Vec<u8>>) -> bool {
    match (c, n) {
        (Some(c), Some(n)) => exists|p: Seq<u8>| sealed_bytes(key, c@, n@, p),
        _ => true,
    }
}

/// Opens a sealed pair when both halves are present.
fn open_optional(crypto: &Crypto, c: &Option<Vec<u8>>, n: &Option<Vec<u8>>) -> (r: Result<
    Option<Vec<u8>>,
    CryptoError,
>)
    ensures
        match (c, n) {
            (Some(c), Some(n)) => match (r, opened(crypto.spec_key(), c@, n@)) {
                (Ok(Some(p)), Ok(q)) => p@ == q,
                (Err(e), Err(f)) => e == f,
                _ => false,
            },
            _ => r matches Ok(None),
        },
        forall|p: Seq<u8>|
            #![trigger aes256gcm_seal(crypto.spec_key(), n->0@, p)]
            c is Some && n is Some && sealed_bytes(crypto.spec_key(), c->0@, n->0@, p) ==> (
            r matches Ok(Some(q)) && q@ == p),
{
    match (c, n) {
        (Some(c), Some(n)) => match crypto.decrypt(c, n) {
            Ok(p) => Ok(Some(p)),
            Err(e) => Err(e),
        },
        _ => Ok(None),
    }
}

/// Opens a listed row: its kind (text when the stored name is unknown), its
/// preview (decrypted, read as lossy UTF-8) and its thumbnail. A preview that
/// does not open gives its error; otherwise a thumbnail that does not open does.
pub fn decode_item(crypto: &Crypto, row: StoredRow) -> (r: Result<ItemMeta, CryptoError>)
    ensures
        match r {
            Ok(item) => {
                &&& item.id == row.id
                &&& item.kind == (match kind_named(row.kind@) {
                    Some(k) => k,
                    None => Kind::Text,
                })
                &&& item.mime@ == row.mime@
                &&& item.created_at == row.created_at
                &&& item.last_used_at == row.last_used_at
                &&& item.size == row.size
                &&& match (row.preview_ciphertext, row.preview_nonce) {
                    (Some(c), Some(n)) => opened(crypto.spec_key(), c@, n@) matches Ok(p)
                        && item.preview@ == utf8_lossy(p),
                    _ => item.preview@.len() == 0,
                }
                &&& match (row.thumb_ciphertext, row.thumb_nonce) {
                    (Some(c), Some(n)) => opened(crypto.spec_key(), c@, n@) matches Ok(p)
                        && item.thumb matches Some(t) && t@ == p,
                    _ => item.thumb is None,
                }
            },
            Err(e) => if opened_pair(crypto.spec_key(), row.preview_ciphertext, row.preview_nonce) is Err {
                opened_pair(crypto.spec_key(), row.preview_ciphertext, row.preview_nonce) == Err::<
                    Option<Seq<u8>>,
                    CryptoError,
                >(e)
            } else {
                opened_pair(crypto.spec_key(), row.thumb_ciphertext, row.thumb_nonce) == Err::<
                    Option<Seq<u8>>,
                    CryptoError,
                >(e)
            },
        },
        forall|text: Seq<char>|
            #![trigger encode_utf8(text)]
            row.preview_ciphertext is Some && row.preview_nonce is Some && sealed_bytes(
                crypto.spec_key(),
                row.preview_ciphertext->0@,
                row.preview_nonce->0@,
                encode_utf8(text),
            ) ==> (r matches Ok(item) ==> item.preview@ == text),
        forall|png: Seq<u8>|
            #![trigger aes256gcm_seal(crypto.spec_key(), row.thumb_nonce->0@, png)]
            row.thumb_ciphertext is Some && row.thumb_nonce is Some && sealed_bytes(
                crypto.spec_key(),
                row.thumb_ciphertext->0@,
                row.thumb_nonce->0@,
                png,
            ) ==> (r matches Ok(item) ==> item.thumb matches Some(t) && t@ == png),
        sealed_or_absent(crypto.spec_key(), row.preview_ciphertext, row.preview_nonce)
            && sealed_or_absent(crypto.spec_key(), row.thumb_ciphertext, row.thumb_nonce)
            ==> r is Ok,
{
    let kind = match Kind::parse(row.kind.as_str()) {
        Some(k) => k,
        None => Kind::Text,
    };
    let opened_preview = open_optional(crypto, &row.preview_ciphertext, &row.preview_nonce);
    proof {
        if row.preview_ciphertext is Some && row.preview_nonce is Some && sealed_or_absent(
            crypto.spec_key(),
            row.preview_ciphertext,
            row.preview_nonce,
        ) {
            let p = choose|p: Seq<u8>|
                sealed_bytes(
                    crypto.spec_key(),
                    row.preview_ciphertext->0@,
                    row.preview_nonce->0@,
                    p,
                );
            assert(aes256gcm_seal(crypto.spec_key(), row.preview_nonce->0@, p) is Some);
        }
    }
    let preview = match opened_preview {
        Ok(Some(p)) => from_utf8_lossy(&p),
        Ok(None) => String::new(),
        Err(e) => return Err(e),
    };
    proof {
        broadcast use vstd::utf8::encode_utf8_decode_utf8, vstd::utf8::encode_utf8_valid_utf8;
    }
    let opened_thumb = open_optional(crypto, &row.thumb_ciphertext, &row.thumb_nonce);
    proof {
        if row.thumb_ciphertext is Some && row.thumb_nonce is Some && sealed_or_absent(
            crypto.spec_key(),
            row.thumb_ciphertext,
            row.thumb_nonce,
        ) {
            let p = choose|p: Seq<u8>|
                sealed_bytes(crypto.spec_key(), row.thumb_ciphertext->0@, row.thumb_nonce->0@, p);
            assert(aes256gcm_seal(crypto.spec_key(), row.thumb_nonce->0@, p) is Some);
        }
    }
    let thumb = match opened_thumb {
        Ok(t) => t,
        Err(e) => return Err(e),
    };
    Ok(
        ItemMeta {
            id: row.id,
            kind,
            mime: row.mime,
            created_at: row.created_at,
            last_used_at: row.last_used_at,
            size: row.size,
            preview,
            thumb,
        },
    )
}

/// Why a stored entry could not be read back.
#[derive(Clone, Debug, PartialEq, Eq)]
pub enum PayloadError {
    /// The stored kind name is unknown.
    BadKind,
    /// The ciphertext did not open.
    Crypto(CryptoError),
}

/// Opens a stored entry for pasting: its kind, its MIME type and its bytes.
/// An entry sealed by `prepare_insert` from a payload gives that payload back.
pub fn decode_payload(
    crypto: &Crypto,
    kind: &str,
    mime: String,
    ciphertext: &[u8],
    nonce: &[u8],
) -> (r: Result<(Kind, String, Vec<u8>), PayloadError>)
    ensures
        kind_named(kind@) is None ==> r == Err::<(Kind, String, Vec<u8>), PayloadError>(
            PayloadError::BadKind,
        ),
        kind_named(kind@) matches Some(k) ==> match (r, opened(crypto.spec_key(), ciphertext@, nonce@)) {
            (Ok((k2, m, p)), Ok(q)) => k2 == k && m@ == mime@ && p@ == q,
            (Err(PayloadError::Crypto(e)), Err(f)) => e == f,
            _ => false,
        },
        forall|p: Seq<u8>|
            #![trigger aes256gcm_seal(crypto.spec_key(), nonce@, p)]
            kind_named(kind@) is Some && sealed_bytes(crypto.spec_key(), ciphertext@, nonce@, p) ==> (r matches Ok((k, m, q)) && Some(k) == kind_named(kind@) && m@ == mime@ && q@ == p),
{
    let k = match Kind::parse(kind) {
        Some(k) => k,
        None => return Err(PayloadError::BadKind),
    };
    match crypto.decrypt(ciphertext, nonce) {
        Ok(p) => Ok((k, mime, p)),
        Err(e) => Err(PayloadError::Crypto(e)),
    }
}

// ---------------------------------------------------------------------------
// History limit
// ---------------------------------------------------------------------------

/// The history limit of a fresh configuration.
pub const DEFAULT_MAX_ITEMS: usize = 200;

/// The history limit actually used: at least one entry.
pub fn effective_max_items(max_items: usize) -> (r: usize)
    ensures
        r == if max_items < 1 { 1 } else { max_items },
{
    if max_items < 1 {
        1
    } else {
        max_items
    }
}

/// How many of the least recently used entries to drop so that `count`
/// entries fit in `max_items`.
pub fn eviction_count(count: usize, max_items: usize) -> (r: usize)
    ensures
        r == if count > max_items { count - max_items } else { 0 },
        count - r <= max_items,
        count > max_items ==> count - r == max_items,
        r <= count,
{
    if count <= max_items {
        0
    } else {
        count - max_items
    }
}

} // verus!
