//! The daemon's decisions: which clipboard contents to record, what a status
//! request is answered with, how a pause request and a settings change are read.
use vstd::prelude::*;
use crate::ipc::StatusMsg;
use crate::state::{secs_left, DaemonState, MAX_INSTANT, NANOS_PER_SEC};
use crate::store::Kind;
use crate::text::{chars_of, starts_with, starts_with_chars, string_of, trim, trim_chars};

verus! {

broadcast use vstd::string::group_string_axioms;

/// Largest clipboard content recorded (32 MiB); bigger contents are skipped.
pub const MAX_CLIP_BYTES: usize = 32 * 1024 * 1024;

/// How a clipboard content of MIME type `mime` and `len` bytes is recorded:
/// `image/…` types as images, everything else as text, nothing over 32 MiB.
pub fn ingest_kind(mime: &str, len: usize) -> (r: Option<Kind>)
    ensures
        len > MAX_CLIP_BYTES ==> r is None,
        len <= MAX_CLIP_BYTES ==> r == Some(
            if starts_with(mime@, "image/"@) {
                Kind::Image
            } else {
                Kind::Text
            },
        ),
{
    if len > MAX_CLIP_BYTES {
        return None;
    }
    let m = chars_of(mime);
    let prefix = chars_of("image/");
    if starts_with_chars(&m, &prefix) {
        Some(Kind::Image)
    } else {
        Some(Kind::Text)
    }
}

/// The daemon's answer to `status`, from its state at `now` and the number of
/// stored entries.
pub fn status_reply(state: &DaemonState, items: usize, now: u128) -> (m: StatusMsg)
    ensures
        m.ok,
        m.items == items,
        m.watching == state.spec_watching(),
        m.max_items == state.spec_max_items(),
        m.shortcut@ == state.spec_shortcut(),
        state.spec_pause_until() is None ==> m.pause_remaining_secs is None,
        state.spec_pause_until() matches Some(d) ==> m.pause_remaining_secs == Some(
            secs_left(d, now) as u64,
        ),
{
    StatusMsg {
        ok: true,
        items,
        watching: state.watching(),
        pause_remaining_secs: state.pause_remaining_secs(now),
        max_items: state.max_items(),
        shortcut: state.shortcut().clone(),
    }
}

/// Nanoseconds in a minute.
pub const NANOS_PER_MINUTE: u128 = 60 * NANOS_PER_SEC;

/// How long a `pause` request of `minutes` pauses the shortcut; `None` (zero
/// minutes) means resume.
pub fn pause_duration(minutes: u32) -> (r: Option<u128>)
    ensures
        minutes == 0 ==> r is None,
        minutes > 0 ==> r == Some((minutes as int * NANOS_PER_MINUTE) as u128),
        r matches Some(d) ==> d <= MAX_INSTANT,
{
    if minutes == 0 {
        None
    } else {
        Some(minutes as u128 * NANOS_PER_MINUTE)
    }
}

/// A settings change as the daemon applies it.
pub struct ConfigUpdate {
    /// New history limit (at least one), if one was sent.
    pub max_items: Option<usize>,
    /// New chord (trimmed), if a non-blank one was sent.
    pub shortcut: Option<String>,
}

/// Reads a `set_config` request: a limit is raised to at least one; a chord
/// is trimmed and ignored when blank.
pub fn config_update(max_items: Option<usize>, shortcut: Option<String>) -> (u: ConfigUpdate)
    ensures
        u.max_items == match max_items {
            Some(n) => Some(if n < 1 { 1 } else { n }),
            None => None,
        },
        match shortcut {
            Some(s) => if trim(s@).len() > 0 {
                u.shortcut matches Some(t) && t@ == trim(s@)
            } else {
                u.shortcut is None
            },
            None => u.shortcut is None,
        },
{
    let max_items = match max_items {
        Some(n) => Some(if n < 1 { 1 } else { n }),
        None => None,
    };
    let shortcut = match shortcut {
        Some(s) => {
            let t = trim_chars(&chars_of(s.as_str()));
            if t.len() > 0 {
                Some(string_of(&t))
            } else {
                None
            }
        },
        None => None,
    };
    ConfigUpdate { max_items, shortcut }
}

} // verus!
