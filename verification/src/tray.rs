//! What the tray icon shows.
use vstd::prelude::*;
use crate::text::{decimal, push_decimal, push_str, push_two_digits, two_digits};

verus! {

broadcast use vstd::string::group_string_axioms;

/// The pause lengths the tray menu offers, in minutes.
pub const PAUSE_MINUTES: [u64; 4] = [5, 15, 30, 60];

/// The icon: a pause sign while the shortcut is paused.
pub fn icon_name(paused: bool) -> (r: &'static str)
    ensures
        r@ == if paused {
            "media-playback-pause"@
        } else {
            "edit-paste"@
        },
{
    if paused {
        "media-playback-pause"
    } else {
        "edit-paste"
    }
}

/// `<m>m <ss>s`: whole minutes and the remaining seconds on two digits.
pub open spec fn countdown_text(secs: u64) -> Seq<char> {
    decimal((secs / 60) as nat) + seq!['m', ' '] + two_digits((secs % 60) as nat) + seq!['s']
}

/// Appends `<m>m <ss>s` for `secs` seconds.
pub fn push_countdown(s: &mut String, secs: u64)
    ensures
        final(s)@ == old(s)@ + countdown_text(secs),
{
    let ghost start = s@;
    push_decimal(s, secs / 60);
    let ghost a = s@;
    push_str(s, "m ");
    proof {
        reveal_strlit("m ");
    }
    push_two_digits(s, secs % 60);
    push_str(s, "s");
    proof {
        reveal_strlit("s");
    }
    assert(s@ =~= start + countdown_text(secs));
}

/// The tooltip's description: the chord, and while paused the time left.
pub open spec fn tooltip_text(shortcut: Seq<char>, remaining: Option<u64>) -> Seq<char> {
    match remaining {
        Some(secs) => "Shortcut paused: "@ + shortcut + " ("@ + countdown_text(secs)
            + " remaining)"@,
        None => "History shortcut: "@ + shortcut,
    }
}

/// The tooltip's description.
pub fn tooltip_description(shortcut: &str, remaining: Option<u64>) -> (r: String)
    ensures
        r@ == tooltip_text(shortcut@, remaining),
{
    let mut r = String::new();
    match remaining {
        Some(secs) => {
            push_str(&mut r, "Shortcut paused: ");
            push_str(&mut r, shortcut);
            push_str(&mut r, " (");
            push_countdown(&mut r, secs);
            push_str(&mut r, " remaining)");
        },
        None => {
            push_str(&mut r, "History shortcut: ");
            push_str(&mut r, shortcut);
        },
    }
    assert(r@ =~= tooltip_text(shortcut@, remaining));
    r
}

/// The menu entry that pauses the shortcut for `minutes`.
pub fn pause_menu_label(minutes: u64) -> (r: String)
    ensures
        r@ == "Pause shortcut for "@ + decimal(minutes as nat) + "m"@,
{
    let mut r = String::new();
    push_str(&mut r, "Pause shortcut for ");
    push_decimal(&mut r, minutes);
    push_str(&mut r, "m");
    r
}

} // verus!
