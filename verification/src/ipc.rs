//! The line-based JSON protocol between `clipd show`/`clipd status` and the
//! daemon: the messages, and what a client makes of a reply.
use vstd::prelude::*;
use crate::store::ItemMeta;
use crate::text::{decimal, push_decimal, push_str};

verus! {

broadcast use vstd::string::group_string_axioms;

/// The daemon's answer to `status`.
#[derive(Clone, Debug)]
pub struct StatusMsg {
    pub ok: bool,
    pub items: usize,
    pub watching: bool,
    pub pause_remaining_secs: Option<u64>,
    pub max_items: usize,
    pub shortcut: String,
}

/// The daemon's answer to `list`.
#[derive(Clone, Debug)]
pub struct ListMsg {
    pub ok: bool,
    pub items: Vec<ItemMeta>,
}

/// The daemon's answer to a command that only succeeds or fails.
#[derive(Clone, Debug)]
pub struct OkMsg {
    pub ok: bool,
    pub error: Option<String>,
}

pub open spec fn bool_text(b: bool) -> Seq<char> {
    if b {
        "true"@
    } else {
        "false"@
    }
}

/// The one-line summary `clipd status` prints.
pub open spec fn status_text(s: StatusMsg) -> Seq<char> {
    "ok="@ + bool_text(s.ok) + " items="@ + decimal(s.items as nat) + " watching="@ + bool_text(
        s.watching,
    ) + " max_items="@ + decimal(s.max_items as nat) + " shortcut="@ + s.shortcut@ + match s.pause_remaining_secs {
        Some(secs) => " paused="@ + decimal(secs as nat) + "s"@,
        None => Seq::empty(),
    }
}

fn push_bool(m: &mut String, b: bool)
    ensures
        final(m)@ == old(m)@ + bool_text(b),
{
    if b {
        push_str(m, "true");
    } else {
        push_str(m, "false");
    }
}

/// The one-line summary of a status reply.
pub fn status(s: &StatusMsg) -> (r: String)
    ensures
        r@ == status_text(*s),
{
    let mut r = String::new();
    push_str(&mut r, "ok=");
    push_bool(&mut r, s.ok);
    push_str(&mut r, " items=");
    push_decimal(&mut r, s.items as u64);
    push_str(&mut r, " watching=");
    push_bool(&mut r, s.watching);
    push_str(&mut r, " max_items=");
    push_decimal(&mut r, s.max_items as u64);
    push_str(&mut r, " shortcut=");
    push_str(&mut r, s.shortcut.as_str());
    match s.pause_remaining_secs {
        Some(secs) => {
            push_str(&mut r, " paused=");
            push_decimal(&mut r, secs);
            push_str(&mut r, "s");
        },
        None => {},
    }
    assert(r@ =~= status_text(*s));
    r
}

/// The entries of a `list` reply, or "list failed" when the daemon refused.
pub fn list(reply: ListMsg) -> (r: Result<Vec<ItemMeta>, String>)
    ensures
        reply.ok ==> r == Ok::<Vec<ItemMeta>, String>(reply.items),
        !reply.ok ==> (r matches Err(e) && e@ == "list failed"@),
{
    if !reply.ok {
        return Err("list failed".to_owned());
    }
    Ok(reply.items)
}

/// The outcome an `OkMsg` reports: the daemon's error text, or `fallback`
/// when it gave none.
pub open spec fn reply_outcome(reply: OkMsg, fallback: Seq<char>) -> Result<(), Seq<char>> {
    if reply.ok {
        Ok(())
    } else {
        match reply.error {
            Some(e) => Err(e@),
            None => Err(fallback),
        }
    }
}

pub open spec fn outcome_view(r: Result<(), String>) -> Result<(), Seq<char>> {
    match r {
        Ok(()) => Ok(()),
        Err(e) => Err(e@),
    }
}

fn reply_result(reply: OkMsg, fallback: &str) -> (r: Result<(), String>)
    ensures
        outcome_view(r) == reply_outcome(reply, fallback@),
{
    if reply.ok {
        return Ok(());
    }
    match reply.error {
        Some(e) => Err(e),
        None => Err(fallback.to_owned()),
    }
}

/// The outcome of a `select` reply.
pub fn select(reply: OkMsg) -> (r: Result<(), String>)
    ensures
        outcome_view(r) == reply_outcome(reply, "select failed"@),
{
    reply_result(reply, "select failed")
}

/// The outcome of a `pause` reply.
pub fn pause(reply: OkMsg) -> (r: Result<(), String>)
    ensures
        outcome_view(r) == reply_outcome(reply, "pause failed"@),
{
    reply_result(reply, "pause failed")
}

/// The outcome of a `set_config` reply.
pub fn set_config(reply: OkMsg) -> (r: Result<(), String>)
    ensures
        outcome_view(r) == reply_outcome(reply, "set_config failed"@),
{
    reply_result(reply, "set_config failed")
}

/// The outcome of a `set_window_size` reply.
pub fn set_window_size(reply: OkMsg) -> (r: Result<(), String>)
    ensures
        outcome_view(r) == reply_outcome(reply, "set_window_size failed"@),
{
    reply_result(reply, "set_window_size failed")
}

/// The reply the daemon sends for a command's outcome.
pub fn ok_reply(result: Result<(), String>) -> (m: OkMsg)
    ensures
        m.ok == result is Ok,
        result is Ok ==> m.error is None,
        result matches Err(e) ==> m.error == Some(e),
        forall|fallback: Seq<char>| #[trigger] reply_outcome(m, fallback) == outcome_view(result),
{
    match result {
        Ok(()) => OkMsg { ok: true, error: None },
        Err(e) => OkMsg { ok: false, error: Some(e) },
    }
}

} // verus!
