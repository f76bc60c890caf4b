//! `clipd install`: which binary ends up in `~/.local/bin`, and the systemd
//! user unit that starts the daemon.
use vstd::prelude::*;
use crate::text::push_str;

verus! {

broadcast use vstd::string::group_string_axioms;

/// The refusal when the running binary is older than the one `cargo install` wrote.
pub open spec fn stale_text(running: Seq<char>, cargo: Seq<char>) -> Seq<char> {
    "refusing install from stale binary.\nRan:    "@ + running + "\nNewer:  "@ + cargo
        + "\nFix:    "@ + cargo + " install"@
}

/// Refuses to install from `running` when `cargo` (the binary `cargo install`
/// wrote, if there is one and it is not `running` itself) is newer; modification
/// times are nanoseconds from the Unix epoch, `None` when unknown.
pub fn ensure_not_stale_shadow(
    running: &str,
    cargo: Option<&str>,
    cargo_is_running: bool,
    running_mtime: Option<i128>,
    cargo_mtime: Option<i128>,
) -> (r: Result<(), String>)
    ensures
        r is Err <==> (cargo is Some && !cargo_is_running && running_mtime is Some
            && cargo_mtime is Some && cargo_mtime->0 > running_mtime->0),
        r matches Err(e) ==> e@ == stale_text(running@, cargo->0@),
{
    let cargo = match cargo {
        None => return Ok(()),
        Some(c) => c,
    };
    if cargo_is_running {
        return Ok(());
    }
    match (running_mtime, cargo_mtime) {
        (Some(r), Some(c)) => {
            if c > r {
                let mut m = String::new();
                push_str(&mut m, "refusing install from stale binary.\nRan:    ");
                push_str(&mut m, running);
                push_str(&mut m, "\nNewer:  ");
                push_str(&mut m, cargo);
                push_str(&mut m, "\nFix:    ");
                push_str(&mut m, cargo);
                push_str(&mut m, " install");
                assert(m@ =~= stale_text(running@, cargo@));
                return Err(m);
            }
            Ok(())
        },
        _ => Ok(()),
    }
}

/// Which binary `install` copies to `~/.local/bin/clipd`.
#[derive(Clone, Copy, Debug, PartialEq, Eq, Structural)]
pub enum BinaryCopy {
    /// Copy the running binary (it is not the destination).
    FromRunning,
    /// The destination is running; refresh it from the newer cargo build.
    FromCargo,
    /// Leave the destination as it is.
    Keep,
}

/// Chooses the copy: the running binary unless it already is the destination;
/// then the cargo build only when both times are known and it is newer.
pub fn binary_copy(running_is_dest: bool, dest_mtime: Option<i128>, cargo_mtime: Option<i128>) -> (r:
    BinaryCopy)
    ensures
        !running_is_dest ==> r == BinaryCopy::FromRunning,
        running_is_dest ==> (r == BinaryCopy::FromCargo <==> (dest_mtime is Some && cargo_mtime is Some
            && cargo_mtime->0 > dest_mtime->0)),
        running_is_dest ==> r != BinaryCopy::FromRunning,
{
    if !running_is_dest {
        return BinaryCopy::FromRunning;
    }
    match (dest_mtime, cargo_mtime) {
        (Some(d), Some(c)) => if c > d {
            BinaryCopy::FromCargo
        } else {
            BinaryCopy::Keep
        },
        _ => BinaryCopy::Keep,
    }
}

/// The systemd user unit that runs `<exe> daemon` with the graphical session.
pub open spec fn unit_text(exe: Seq<char>) -> Seq<char> {
    "[Unit]\nDescription=clipd clipboard history daemon\nAfter=graphical-session.target\nPartOf=graphical-session.target\n\n[Service]\nExecStart="@
        + exe
        + " daemon\nRestart=on-failure\nRestartSec=2\n\n[Install]\nWantedBy=graphical-session.target\n"@
}

/// The systemd user unit for the daemon.
pub fn service_unit(exe: &str) -> (r: String)
    ensures
        r@ == unit_text(exe@),
{
    let mut r = String::new();
    push_str(
        &mut r,
        "[Unit]\nDescription=clipd clipboard history daemon\nAfter=graphical-session.target\nPartOf=graphical-session.target\n\n[Service]\nExecStart=",
    );
    push_str(&mut r, exe);
    push_str(
        &mut r,
        " daemon\nRestart=on-failure\nRestartSec=2\n\n[Install]\nWantedBy=graphical-session.target\n",
    );
    assert(r@ =~= unit_text(exe@));
    r
}

} // verus!
