//! Reading the Wayland clipboard through `wl-paste`: which types are asked
//! for, in which order, and which answer is taken.
use vstd::prelude::*;
use crate::text::{chars_eq, chars_of, starts_with, starts_with_chars};

verus! {

broadcast use vstd::string::group_string_axioms;

/// How many types are asked for.
pub const PROBE_COUNT: usize = 5;

/// The `wl-paste --type` asked for at step `step`: text first, then the image types.
pub open spec fn probe_type_at(step: int) -> Seq<char> {
    if step == 0 {
        "text"@
    } else if step == 1 {
        "image/png"@
    } else if step == 2 {
        "image/jpeg"@
    } else if step == 3 {
        "image/bmp"@
    } else {
        "image/webp"@
    }
}

/// The MIME type recorded for an answer at step `step` (text is recorded as `text/plain`).
pub open spec fn recorded_type_at(step: int) -> Seq<char> {
    if step == 0 {
        "text/plain"@
    } else {
        probe_type_at(step)
    }
}

/// The type to ask `wl-paste` for at step `step`.
pub fn probe_type(step: usize) -> (r: &'static str)
    requires
        step < PROBE_COUNT,
    ensures
        r@ == probe_type_at(step as int),
{
    if step == 0 {
        "text"
    } else if step == 1 {
        "image/png"
    } else if step == 2 {
        "image/jpeg"
    } else if step == 3 {
        "image/bmp"
    } else {
        "image/webp"
    }
}

/// What to do after the answer of step `step`.
pub enum ClipboardStep {
    /// Record these bytes under this MIME type.
    Found(String, Vec<u8>),
    /// Ask for the type of the given step next.
    Next(usize),
    /// Nothing usable is on the clipboard.
    Empty,
}

/// Takes the answer `data` of `wl-paste --type probe_type(step)` (`None` when it
/// failed): the first non-empty answer wins, otherwise the next type is tried.
pub fn read_clipboard(step: usize, data: Option<Vec<u8>>) -> (r: ClipboardStep)
    requires
        step < PROBE_COUNT,
    ensures
        match data {
            Some(d) if d@.len() > 0 => r matches ClipboardStep::Found(m, v) && m@
                == recorded_type_at(step as int) && v@ == d@,
            _ => if step + 1 < PROBE_COUNT {
                r matches ClipboardStep::Next(n) && n == step + 1
            } else {
                r is Empty
            },
        },
{
    match data {
        Some(d) => {
            if d.len() > 0 {
                let mime = if step == 0 {
                    "text/plain".to_owned()
                } else {
                    probe_type(step).to_owned()
                };
                return ClipboardStep::Found(mime, d);
            }
        },
        None => {},
    }
    if step + 1 < PROBE_COUNT {
        ClipboardStep::Next(step + 1)
    } else {
        ClipboardStep::Empty
    }
}

/// Whether `wl-paste` gets `--no-newline` for `mime`: only for text, since on
/// binary data it would cut a final newline byte.
pub fn wants_no_newline(mime: &str) -> (r: bool)
    ensures
        r == (mime@ == "text"@ || starts_with(mime@, "text/"@)),
{
    let m = chars_of(mime);
    let text = chars_of("text");
    let prefix = chars_of("text/");
    chars_eq(&m, &text) || starts_with_chars(&m, &prefix)
}

} // verus!
