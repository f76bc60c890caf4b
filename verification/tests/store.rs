use clipd::crypto::{Crypto, CryptoError};
use clipd::popup::thumb_pixels;
use clipd::store::{
    decode_item, decode_payload, effective_max_items, eviction_count, hex_hash, make_thumb,
    prepare_insert, preview_text, Kind, PayloadError, StoredRow,
};

fn sample_png(w: u32, h: u32) -> Vec<u8> {
    let img = image::DynamicImage::ImageRgb8(image::RgbImage::new(w, h));
    let mut buf = Vec::new();
    img.write_to(&mut std::io::Cursor::new(&mut buf), image::ImageFormat::Png)
        .unwrap();
    buf
}

#[test]
fn kinds_round_trip_through_their_names() {
    for k in [Kind::Text, Kind::Image] {
        assert_eq!(Kind::parse(k.as_str()), Some(k));
    }
    assert_eq!(Kind::Text.as_str(), "text");
    assert_eq!(Kind::Image.as_str(), "image");
    assert_eq!(Kind::parse("Text"), None);
    assert_eq!(Kind::parse(""), None);
}

#[test]
fn content_hash_is_lower_hex_sha256() {
    assert_eq!(
        hex_hash(b"abc"),
        "ba7816bf8f01cfea414140de5dae2223b00361a396177a9cb410ff61f20015ad"
    );
    assert_eq!(hex_hash(b"").len(), 64);
}

#[test]
fn previews_are_one_trimmed_short_line() {
    assert_eq!(preview_text(b"  hello\nworld\r\n "), "hello world");
    assert_eq!(preview_text(b""), "");
    let long = "x".repeat(130);
    let p = preview_text(long.as_bytes());
    assert_eq!(p.chars().count(), 121);
    assert!(p.ends_with('…'));
    assert_eq!(preview_text("é".repeat(120).as_bytes()), "é".repeat(120));
    // Invalid UTF-8 is shown with replacement characters.
    assert_eq!(preview_text(&[b'a', 0xff, b'b']), "a\u{FFFD}b");
}

#[test]
fn keys_load_from_the_keyring_text() {
    let (crypto, text) = Crypto::generate();
    assert_eq!(text.len(), 44);
    let reloaded = Crypto::from_stored_key(&format!("  {text}\n")).unwrap();
    let (ct, nonce) = crypto.encrypt(b"secret").unwrap();
    assert_eq!(reloaded.decrypt(&ct, &nonce).unwrap(), b"secret");

    let err = Crypto::from_stored_key("not base64 at all!").err().unwrap();
    assert!(matches!(err, CryptoError::KeyNotBase64(_)));
    assert_eq!(
        err.message(),
        "decode key from keyring: Invalid symbol 32, offset 3."
    );
    assert_eq!(
        Crypto::from_stored_key("AAAA").err(),
        Some(CryptoError::KeyLength(3))
    );
    assert_eq!(
        CryptoError::KeyLength(3).message(),
        "keyring key must be 32 bytes, got 3"
    );
    assert_eq!(CryptoError::NonceLength(7).message(), "bad nonce length 7");
}

#[test]
fn sealing_hides_and_opening_restores() {
    let (crypto, _) = Crypto::generate();
    let (ct, nonce) = crypto.encrypt(b"clipboard text").unwrap();
    assert_eq!(nonce.len(), 12);
    assert_eq!(ct.len(), b"clipboard text".len() + 16);
    assert_ne!(&ct[..14], b"clipboard text");
    assert_eq!(crypto.decrypt(&ct, &nonce).unwrap(), b"clipboard text");
    assert_eq!(
        crypto.decrypt(&ct, &nonce[..11]),
        Err(CryptoError::NonceLength(11))
    );
    let mut bad = ct.clone();
    bad[0] ^= 1;
    assert_eq!(crypto.decrypt(&bad, &nonce), Err(CryptoError::Decrypt));
    let (other, _) = Crypto::generate();
    assert_eq!(other.decrypt(&ct, &nonce), Err(CryptoError::Decrypt));
}

#[test]
fn repeated_newest_entry_is_not_stored_again() {
    let (crypto, _) = Crypto::generate();
    let first = prepare_insert(&crypto, Kind::Text, "text/plain", b"a", None)
        .unwrap()
        .unwrap();
    assert_eq!(first.content_hash, hex_hash(b"a"));
    assert!(prepare_insert(&crypto, Kind::Text, "text/plain", b"a", Some(&first.content_hash))
        .unwrap()
        .is_none());
    let second = prepare_insert(&crypto, Kind::Text, "text/plain", b"b", Some(&first.content_hash))
        .unwrap()
        .unwrap();
    assert_eq!(second.size, 1);
    assert!(second.thumb.is_none());
    // Only the newest entry counts: "a" after "b" is stored again.
    assert!(prepare_insert(&crypto, Kind::Text, "text/plain", b"a", Some(&second.content_hash))
        .unwrap()
        .is_some());
}

#[test]
fn stored_entries_read_back_as_inserted() {
    let (crypto, _) = Crypto::generate();
    let item = prepare_insert(&crypto, Kind::Text, "text/plain", b" line one\nline two ", None)
        .unwrap()
        .unwrap();
    let (kind, mime, payload) = decode_payload(
        &crypto,
        item.kind.as_str(),
        item.mime.clone(),
        &item.payload.ciphertext,
        &item.payload.nonce,
    )
    .unwrap();
    assert_eq!((kind, mime.as_str(), payload.as_slice()), (Kind::Text, "text/plain", &b" line one\nline two "[..]));

    let preview = item.preview.clone().unwrap();
    let row = StoredRow {
        id: 7,
        kind: "text".into(),
        mime: "text/plain".into(),
        created_at: 1,
        last_used_at: 2,
        size: item.size,
        thumb_ciphertext: None,
        thumb_nonce: None,
        preview_ciphertext: Some(preview.ciphertext),
        preview_nonce: Some(preview.nonce),
    };
    let meta = decode_item(&crypto, row).unwrap();
    assert_eq!(meta.id, 7);
    assert_eq!(meta.kind, Kind::Text);
    assert_eq!(meta.preview, "line one line two");
    assert!(meta.thumb.is_none());

    assert_eq!(
        decode_payload(&crypto, "video", "x".into(), &[], &[]).err(),
        Some(PayloadError::BadKind)
    );
}

#[test]
fn unknown_stored_kinds_list_as_text() {
    let (crypto, _) = Crypto::generate();
    let row = StoredRow {
        id: 1,
        kind: "weird".into(),
        mime: "x/y".into(),
        created_at: 0,
        last_used_at: 0,
        size: 3,
        thumb_ciphertext: Some(vec![1, 2, 3]),
        thumb_nonce: None,
        preview_ciphertext: None,
        preview_nonce: None,
    };
    let meta = decode_item(&crypto, row).unwrap();
    assert_eq!(meta.kind, Kind::Text);
    assert_eq!(meta.preview, "");
    assert!(meta.thumb.is_none());
}

#[test]
fn images_carry_a_small_png_thumbnail() {
    let png = sample_png(200, 100);
    let thumb = make_thumb(&png).unwrap();
    assert_eq!(&thumb[..8], &[137u8, 80, 78, 71, 13, 10, 26, 10][..]);
    let t = image::load_from_memory(&thumb).unwrap();
    assert_eq!((t.width(), t.height()), (96, 48));
    assert!(make_thumb(b"not an image").is_none());

    let (crypto, _) = Crypto::generate();
    let item = prepare_insert(&crypto, Kind::Image, "image/png", &png, None)
        .unwrap()
        .unwrap();
    assert!(item.preview.is_none());
    let sealed = item.thumb.clone().unwrap();
    assert_eq!(crypto.decrypt(&sealed.ciphertext, &sealed.nonce).unwrap(), thumb);

    let broken = prepare_insert(&crypto, Kind::Image, "image/png", b"garbage", None)
        .unwrap()
        .unwrap();
    assert!(broken.thumb.is_none());
}

#[test]
fn history_limit_and_eviction() {
    assert_eq!(effective_max_items(0), 1);
    assert_eq!(effective_max_items(3), 3);
    assert_eq!(eviction_count(4, 3), 1);
    assert_eq!(eviction_count(3, 3), 0);
    assert_eq!(eviction_count(0, 3), 0);
    assert_eq!(eviction_count(250, 200), 50);
}

#[test]
fn dedupe_then_evict_keeps_the_limit() {
    // The sequence a, a, b, c, d into a history of three: the repeated "a" is
    // skipped and the oldest entry is evicted once the fourth arrives.
    let (crypto, _) = Crypto::generate();
    let max_items = effective_max_items(3);
    let mut hashes: Vec<String> = Vec::new();
    let mut stored: Vec<bool> = Vec::new();
    for payload in [&b"a"[..], b"a", b"b", b"c", b"d"] {
        let newest = hashes.last().map(|h| h.as_str());
        match prepare_insert(&crypto, Kind::Text, "text/plain", payload, newest).unwrap() {
            Some(item) => {
                hashes.push(item.content_hash);
                let drop_n = eviction_count(hashes.len(), max_items);
                hashes.drain(..drop_n);
                stored.push(true);
            }
            None => stored.push(false),
        }
    }
    assert_eq!(stored, vec![true, false, true, true, true]);
    assert_eq!(hashes.len(), 3);
    assert_eq!(hashes, vec![hex_hash(b"b"), hex_hash(b"c"), hex_hash(b"d")]);
}

#[test]
fn a_broken_preview_is_reported_before_a_broken_thumbnail() {
    let (crypto, _) = Crypto::generate();
    let row = |pn: Vec<u8>, tn: Vec<u8>| StoredRow {
        id: 1,
        kind: "image".into(),
        mime: "image/png".into(),
        created_at: 0,
        last_used_at: 0,
        size: 0,
        thumb_ciphertext: Some(vec![0; 20]),
        thumb_nonce: Some(tn),
        preview_ciphertext: Some(vec![0; 20]),
        preview_nonce: Some(pn),
    };
    assert_eq!(
        decode_item(&crypto, row(vec![0; 11], vec![0; 10])).err(),
        Some(CryptoError::NonceLength(11))
    );
    let (ct, nonce) = crypto.encrypt(b"fine").unwrap();
    let mut ok_preview = row(nonce, vec![0; 10]);
    ok_preview.preview_ciphertext = Some(ct);
    assert_eq!(decode_item(&crypto, ok_preview).err(), Some(CryptoError::NonceLength(10)));
}

#[test]
fn thumbnails_decode_to_rgba_pixels_for_display() {
    let thumb = make_thumb(&sample_png(200, 100)).unwrap();
    let px = thumb_pixels(&thumb).unwrap();
    assert_eq!((px.width, px.height), (96, 48));
    assert_eq!(px.pixels.len(), 96 * 48 * 4);
    assert!(thumb_pixels(b"not an image").is_none());
}
