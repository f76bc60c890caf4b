//! The history popup's logic: filtering, row labels, keyboard selection.
use vstd::prelude::*;
use crate::plasma::DEFAULT_SHORTCUT;
use crate::store::{kind_name, ItemMeta, Kind};
use crate::text::{
    chars_of, contains, contains_chars, push_signed_decimal, push_str, signed_decimal,
};
use crate::tray::{countdown_text, push_countdown};

verus! {

broadcast use vstd::string::group_string_axioms;

/// The lower-case form `str::to_lowercase` gives (full Unicode case mapping).
pub uninterp spec fn lowercase(s: Seq<char>) -> Seq<char>;

/// `str::to_lowercase`.
///
/// Trusted: the result is the named `lowercase` of the argument; the empty
/// string stays empty (each character maps to its lower-case characters).
#[verifier::external_body]
fn to_lowercase(s: &str) -> (r: String)
    ensures
        r@ == lowercase(s@),
        s@.len() == 0 ==> r@.len() == 0,
{
    s.to_lowercase()
}

/// An entry matches the lower-cased filter `q` when `q` is empty or occurs in
/// its lower-cased preview, its lower-cased MIME type or its kind's name.
pub open spec fn item_matches(item: ItemMeta, q: Seq<char>) -> bool {
    ||| q.len() == 0
    ||| contains(lowercase(item.preview@), q)
    ||| contains(lowercase(item.mime@), q)
    ||| contains(kind_name(item.kind), q)
}

/// The indices of the entries that match `q`, in order.
pub open spec fn matching_indices(items: Seq<ItemMeta>, q: Seq<char>) -> Seq<usize>
    decreases items.len(),
{
    if items.len() == 0 {
        Seq::empty()
    } else {
        let r = matching_indices(items.drop_last(), q);
        if item_matches(items.last(), q) {
            r.push((items.len() - 1) as usize)
        } else {
            r
        }
    }
}

/// The rows shown for a filter are exactly the matching entries, each once and
/// in history order; an empty filter shows every entry. (Any list a `Vec` holds
/// has at most `usize::MAX` entries.)
pub proof fn lemma_matching_indices_are_the_matches(items: Seq<ItemMeta>, q: Seq<char>)
    requires
        items.len() <= usize::MAX,
    ensures
        forall|k: int|
            0 <= k < matching_indices(items, q).len() ==> #[trigger] matching_indices(items, q)[k]
                < items.len() && item_matches(items[matching_indices(items, q)[k] as int], q),
        forall|k: int, l: int|
            0 <= k < l < matching_indices(items, q).len() ==> #[trigger] matching_indices(
                items,
                q,
            )[k] < #[trigger] matching_indices(items, q)[l],
        forall|i: int|
            0 <= i < items.len() && item_matches(#[trigger] items[i], q) ==> exists|k: int|
                0 <= k < matching_indices(items, q).len() && matching_indices(items, q)[k] == i,
        q.len() == 0 ==> matching_indices(items, q).len() == items.len() && forall|k: int|
            0 <= k < items.len() ==> #[trigger] matching_indices(items, q)[k] == k,
    decreases items.len(),
{
    if items.len() > 0 {
        let init = items.drop_last();
        lemma_matching_indices_are_the_matches(init, q);
        let r0 = matching_indices(init, q);
        let r = matching_indices(items, q);
        assert forall|i: int|
            0 <= i < items.len() && item_matches(#[trigger] items[i], q) implies exists|k: int|
                0 <= k < r.len() && r[k] == i by {
            if i < init.len() {
                assert(init[i] == items[i]);
                let k = choose|k: int| 0 <= k < r0.len() && r0[k] == i;
                assert(r[k] == r0[k]);
            } else {
                assert(r[r0.len() as int] == i);
            }
        }
        assert forall|k: int| 0 <= k < r.len() implies #[trigger] r[k] < items.len() && item_matches(
            items[r[k] as int],
            q,
        ) by {
            if k < r0.len() {
                assert(r[k] == r0[k]);
                assert(init[r0[k] as int] == items[r0[k] as int]);
            }
        }
    }
}

/// The entry texts a lower-cased filter `q` is looked for in.
pub open spec fn shows_for(item: ItemMeta, q: Seq<char>) -> bool {
    ||| q.len() == 0
    ||| contains(lowercase(item.preview@), q)
    ||| contains(lowercase(item.mime@), q)
    ||| (item.kind == Kind::Text && contains("text"@, q))
    ||| (item.kind == Kind::Image && contains("image"@, q))
}

/// The popup shows exactly the entries whose lower-cased preview or MIME type,
/// or whose kind's name, holds the lower-cased filter anywhere (every entry
/// for an empty filter), each once and in history order.
pub proof fn lemma_filter_finds_text_anywhere(items: Seq<ItemMeta>, q: Seq<char>)
    requires
        items.len() <= usize::MAX,
    ensures
        forall|i: int|
            0 <= i < items.len() && shows_for(#[trigger] items[i], q) ==> exists|k: int|
                0 <= k < matching_indices(items, q).len() && matching_indices(items, q)[k] == i,
        forall|k: int|
            0 <= k < matching_indices(items, q).len() ==> #[trigger] matching_indices(items, q)[k]
                < items.len() && shows_for(items[matching_indices(items, q)[k] as int], q),
        forall|k: int, l: int|
            0 <= k < l < matching_indices(items, q).len() ==> #[trigger] matching_indices(
                items,
                q,
            )[k] < #[trigger] matching_indices(items, q)[l],
{
    reveal_strlit("text");
    reveal_strlit("image");
    lemma_matching_indices_are_the_matches(items, q);
    assert forall|it: ItemMeta| #[trigger] shows_for(it, q) == item_matches(it, q) by {
        assert(kind_name(Kind::Text) == "text"@);
        assert(kind_name(Kind::Image) == "image"@);
    }
    assert forall|i: int|
        0 <= i < items.len() && shows_for(#[trigger] items[i], q) implies exists|k: int|
            0 <= k < matching_indices(items, q).len() && matching_indices(items, q)[k] == i by {
        assert(item_matches(items[i], q));
    }
    assert forall|k: int|
        0 <= k < matching_indices(items, q).len() implies #[trigger] matching_indices(items, q)[k]
            < items.len() && shows_for(items[matching_indices(items, q)[k] as int], q) by {
        assert(item_matches(items[matching_indices(items, q)[k] as int], q));
    }
}

/// The indices of the entries the popup shows for the filter text `filter`.
pub fn filtered_indices(items: &Vec<ItemMeta>, filter: &str) -> (r: Vec<usize>)
    ensures
        r@ == matching_indices(items@, lowercase(filter@)),
        filter@.len() == 0 ==> r@.len() == items@.len() && forall|k: int|
            0 <= k < items@.len() ==> #[trigger] r@[k] == k,
{
    let q = chars_of(to_lowercase(filter).as_str());
    let mut r: Vec<usize> = Vec::new();
    let mut i: usize = 0;
    while i < items.len()
        invariant
            q@ == lowercase(filter@),
            i <= items@.len(),
            r@ == matching_indices(items@.take(i as int), q@),
        decreases items@.len() - i,
    {
        let it = &items[i];
        let keep = if q.len() == 0 {
            true
        } else {
            let p = chars_of(to_lowercase(it.preview.as_str()).as_str());
            let m = chars_of(to_lowercase(it.mime.as_str()).as_str());
            let k = chars_of(it.kind.as_str());
            contains_chars(&p, &q) || contains_chars(&m, &q) || contains_chars(&k, &q)
        };
        if keep {
            r.push(i);
        }
        assert(items@.take(i + 1).drop_last() =~= items@.take(i as int));
        i += 1;
    }
    assert(items@.take(items@.len() as int) =~= items@);
    proof {
        lemma_matching_indices_are_the_matches(items@, q@);
    }
    r
}

/// `n / d` rounded toward zero, as Rust's integer division.
pub open spec fn div_toward_zero(n: int, d: int) -> int {
    if n >= 0 {
        n / d
    } else {
        -((-n) / d)
    }
}

/// The text of a row: a text entry's preview (or "(empty text)"), an image's
/// MIME type and size in KiB.
pub open spec fn row_text(item: ItemMeta) -> Seq<char> {
    match item.kind {
        Kind::Text => if item.preview@.len() == 0 {
            "(empty text)"@
        } else {
            item.preview@
        },
        Kind::Image => item.mime@ + " · "@ + signed_decimal(div_toward_zero(item.size as int, 1024))
            + " KB"@,
    }
}

/// The text of a row.
pub fn row_label(item: &ItemMeta) -> (r: String)
    ensures
        r@ == row_text(*item),
{
    let mut r = String::new();
    match item.kind {
        Kind::Text => {
            if item.preview.as_str().is_empty() {
                push_str(&mut r, "(empty text)");
            } else {
                push_str(&mut r, item.preview.as_str());
            }
        },
        Kind::Image => {
            push_str(&mut r, item.mime.as_str());
            push_str(&mut r, " · ");
            let kb: i64 = if item.size >= 0 {
                item.size / 1024
            } else {
                let m: i128 = -(item.size as i128);
                -((m / 1024) as i64)
            };
            push_signed_decimal(&mut r, kb);
            push_str(&mut r, " KB");
        },
    }
    assert(r@ =~= row_text(*item));
    r
}

/// The selection after Arrow-Down in a non-empty list of `count` rows.
pub fn select_next(selected: usize, count: usize) -> (r: usize)
    requires
        count > 0,
    ensures
        r == if selected + 1 < count - 1 { selected + 1 } else { (count - 1) as int },
{
    if selected >= count - 1 {
        count - 1
    } else {
        selected + 1
    }
}

/// The selection after Arrow-Up.
pub fn select_prev(selected: usize) -> (r: usize)
    ensures
        r == if selected > 0 { selected - 1 } else { 0 },
{
    if selected > 0 {
        selected - 1
    } else {
        0
    }
}

/// Keeps the selection on a row once the list shrinks to `count` rows.
pub fn clamp_selection(selected: usize, count: usize) -> (r: usize)
    ensures
        r == if selected >= count && count > 0 { (count - 1) as int } else { selected as int },
{
    if selected >= count && count > 0 {
        count - 1
    } else {
        selected
    }
}

/// The selection after one frame's arrow keys in a list of `count` rows: kept on
/// a row, then one row down for Arrow-Down and one row up for Arrow-Up (in that
/// order); an empty list leaves it as it is.
pub open spec fn frame_selection(selected: int, count: int, down: bool, up: bool) -> int {
    if count <= 0 {
        selected
    } else {
        let s = if selected >= count {
            count - 1
        } else {
            selected
        };
        let s = if down && s + 1 < count {
            s + 1
        } else {
            s
        };
        if up && s > 0 {
            s - 1
        } else {
            s
        }
    }
}

/// Applies a frame's arrow keys to the selection; a selection in a non-empty
/// list always ends on one of its rows.
pub fn keyboard_selection(selected: usize, count: usize, down: bool, up: bool) -> (r: usize)
    ensures
        r == frame_selection(selected as int, count as int, down, up),
        count > 0 ==> r < count,
{
    if count == 0 {
        return selected;
    }
    let mut s = clamp_selection(selected, count);
    if down {
        s = select_next(s, count);
    }
    if up {
        s = select_prev(s);
    }
    s
}

/// The chord the settings panel starts from: the one the daemon reported, or,
/// when it reported none, the configured one (`None` when the configuration
/// could not be read), or else the default chord.
pub fn shown_shortcut(reported: String, configured: Option<String>) -> (r: String)
    ensures
        reported@.len() > 0 ==> r@ == reported@,
        reported@.len() == 0 ==> r@ == match configured {
            Some(c) => c@,
            None => DEFAULT_SHORTCUT@,
        },
{
    if reported.as_str().is_empty() {
        match configured {
            Some(c) => c,
            None => DEFAULT_SHORTCUT.to_owned(),
        }
    } else {
        reported
    }
}

/// Width, height and RGBA bytes (four per pixel, row by row) of an image.
pub struct RgbaPixels {
    pub width: u32,
    pub height: u32,
    pub pixels: Vec<u8>,
}

/// Width, height and RGBA bytes of the image that `image::load_from_memory`
/// decodes from `bytes`, as `DynamicImage::to_rgba8` gives them; `None` when
/// the bytes do not decode.
pub uninterp spec fn rgba_of_image(bytes: Seq<u8>) -> Option<(u32, u32, Seq<u8>)>;

/// The view of decoded pixels, comparable with `rgba_of_image`.
pub open spec fn rgba_view(r: Option<(u32, u32, Vec<u8>)>) -> Option<(u32, u32, Seq<u8>)> {
    match r {
        Some((w, h, p)) => Some((w, h, p@)),
        None => None,
    }
}

/// `image::load_from_memory(bytes)`, then `DynamicImage::to_rgba8`, taken apart
/// into width, height and raw bytes.
///
/// Trusted: the result is the named `rgba_of_image` of the bytes (decoding and
/// conversion depend on them alone). Nothing is stated of the pixel values.
#[verifier::external_body]
fn decode_rgba(bytes: &[u8]) -> (r: Option<(u32, u32, Vec<u8>)>)
    ensures
        rgba_view(r) == rgba_of_image(bytes@),
{
    let img = match image::load_from_memory(bytes) {
        Ok(img) => img,
        Err(_) => return None,
    };
    let rgba = img.to_rgba8();
    Some((rgba.width(), rgba.height(), rgba.into_raw()))
}

/// The pixels to show for a thumbnail: its decoded RGBA image, when the bytes
/// decode and hold exactly four bytes per pixel.
pub open spec fn shown_pixels(thumb: Seq<u8>) -> Option<(u32, u32, Seq<u8>)> {
    match rgba_of_image(thumb) {
        Some((w, h, p)) => if p.len() == 4 * w * h {
            Some((w, h, p))
        } else {
            None
        },
        None => None,
    }
}

/// The RGBA pixels of a thumbnail (PNG bytes) for display; `None` when the
/// bytes do not decode or the decoded bytes do not fill width × height pixels.
pub fn thumb_pixels(thumb: &[u8]) -> (r: Option<RgbaPixels>)
    ensures
        match r {
            Some(px) => shown_pixels(thumb@) == Some((px.width, px.height, px.pixels@)),
            None => shown_pixels(thumb@) is None,
        },
        r matches Some(px) ==> px.pixels@.len() == 4 * px.width * px.height,
{
    match decode_rgba(thumb) {
        None => None,
        Some((w, h, p)) => {
            let w4: u128 = 4 * (w as u128);
            assert(w4 * (h as u128) <= 4 * 0xffff_ffffu128 * 0xffff_ffffu128) by (nonlinear_arith)
                requires
                    w4 <= 4 * 0xffff_ffffu128,
                    h <= 0xffff_ffffu32,
            ;
            let need: u128 = w4 * (h as u128);
            if p.len() as u128 == need {
                Some(RgbaPixels { width: w, height: h, pixels: p })
            } else {
                None
            }
        },
    }
}

/// The banner shown while the shortcut is paused.
pub fn pause_banner(secs: u64) -> (r: String)
    ensures
        r@ == "Shortcut paused — apps own it for "@ + countdown_text(secs),
{
    let mut r = String::new();
    push_str(&mut r, "Shortcut paused — apps own it for ");
    push_countdown(&mut r, secs);
    r
}

} // verus!
