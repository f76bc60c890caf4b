//! Pasting after a selection: which key injector's result counts.
use vstd::prelude::*;
use crate::text::push_str;

verus! {

broadcast use vstd::string::group_string_axioms;

/// What running one key injector (`wtype`, `ydotool`) did.
pub enum ToolOutcome {
    /// The tool is not installed.
    Missing,
    /// Ctrl+V was sent.
    Pasted,
    /// The tool failed with this message.
    Failed(String),
}

/// The message for a failed tool, after the tool's label.
pub open spec fn failure_text(label: Seq<char>, o: ToolOutcome) -> Seq<char> {
    match o {
        ToolOutcome::Failed(e) => label + e@,
        _ => Seq::empty(),
    }
}

/// The outcome of pasting with `wtype` first and `ydotool` second: success when
/// either pasted (`ydotool` is only consulted when `wtype` did not); otherwise
/// the failures joined by "; ", or a hint when neither tool is installed.
pub open spec fn paste_outcome(wtype: ToolOutcome, ydotool: ToolOutcome) -> Result<(), Seq<char>> {
    if wtype is Pasted || ydotool is Pasted {
        Ok(())
    } else {
        match (wtype, ydotool) {
            (ToolOutcome::Failed(_), ToolOutcome::Failed(_)) => Err(
                failure_text("wtype: "@, wtype) + "; "@ + failure_text("ydotool: "@, ydotool),
            ),
            (ToolOutcome::Failed(_), _) => Err(failure_text("wtype: "@, wtype)),
            (_, ToolOutcome::Failed(_)) => Err(failure_text("ydotool: "@, ydotool)),
            _ => Err("neither wtype nor ydotool found — install one to paste on select"@),
        }
    }
}

/// The result of injecting Ctrl+V given what `wtype` and, when it did not
/// paste, `ydotool` did.
pub fn inject_paste(wtype: ToolOutcome, ydotool: ToolOutcome) -> (r: Result<(), String>)
    ensures
        match (r, paste_outcome(wtype, ydotool)) {
            (Ok(()), Ok(())) => true,
            (Err(e), Err(f)) => e@ == f,
            _ => false,
        },
{
    if let ToolOutcome::Pasted = wtype {
        return Ok(());
    }
    if let ToolOutcome::Pasted = ydotool {
        return Ok(());
    }
    let mut msg = String::new();
    let mut any = false;
    if let ToolOutcome::Failed(e) = &wtype {
        push_str(&mut msg, "wtype: ");
        push_str(&mut msg, e.as_str());
        any = true;
    }
    if let ToolOutcome::Failed(e) = &ydotool {
        if any {
            push_str(&mut msg, "; ");
        }
        push_str(&mut msg, "ydotool: ");
        push_str(&mut msg, e.as_str());
        any = true;
    }
    if !any {
        push_str(&mut msg, "neither wtype nor ydotool found — install one to paste on select");
    }
    assert(msg@ =~= match paste_outcome(wtype, ydotool) {
        Err(f) => f,
        Ok(_) => Seq::empty(),
    });
    Err(msg)
}

} // verus!
