//! Shared daemon state: the configured chord, the history limit, whether the
//! clipboard watcher runs, and the pause of the Plasma shortcut.
//!
//! Instants are nanoseconds on the daemon's monotonic clock.
use vstd::prelude::*;

verus! {

/// Nanoseconds in a second.
pub const NANOS_PER_SEC: u128 = 1_000_000_000;

/// The latest instant the clock can represent (`i64::MAX` seconds and the
/// largest sub-second part); adding past it overflows, as `Instant + Duration` does.
pub const MAX_INSTANT: u128 = 9_223_372_036_854_775_807_999_999_999;

/// Whether a pause that ends at `pause_until` is over at `now`: only once the
/// deadline is reached, and never when there is no pause.
pub open spec fn pause_is_over(pause_until: Option<u128>, now: u128) -> bool {
    match pause_until {
        Some(until) => until <= now,
        None => false,
    }
}

/// Whole seconds left until `until`, rounded up, and zero once it has passed.
pub open spec fn secs_left(until: u128, now: u128) -> int {
    let rem: int = if until > now {
        until - now
    } else {
        0
    };
    rem / (NANOS_PER_SEC as int) + if rem % (NANOS_PER_SEC as int) != 0 {
        1int
    } else {
        0int
    }
}

/// A pause set at `now` for `duration` nanoseconds is over exactly from its
/// deadline on.
pub proof fn lemma_pause_ends_at_deadline(now: u128, duration: u128, t: u128)
    requires
        now + duration <= MAX_INSTANT,
    ensures
        pause_is_over(Some((now + duration) as u128), t) <==> t >= now + duration,
{
}

/// The countdown of a pause reads zero exactly when the pause is over.
pub proof fn lemma_countdown_zero_iff_over(until: u128, now: u128)
    ensures
        secs_left(until, now) == 0 <==> pause_is_over(Some(until), now),
{
    let n = NANOS_PER_SEC as int;
    if until > now {
        let rem: int = until - now;
        vstd::arithmetic::div_mod::lemma_fundamental_div_mod(rem, n);
        assert(rem / n >= 0) by (nonlinear_arith)
            requires
                rem > 0,
                n > 0,
        ;
        if rem % n == 0 {
            assert(rem / n != 0) by (nonlinear_arith)
                requires
                    rem == n * (rem / n) + rem % n,
                    rem % n == 0,
                    rem > 0,
            ;
        }
    }
}

/// The countdown of a pause never goes up as time passes.
pub proof fn lemma_countdown_never_rises(until: u128, now1: u128, now2: u128)
    requires
        now1 <= now2,
    ensures
        secs_left(until, now2) <= secs_left(until, now1),
{
    let n = NANOS_PER_SEC as int;
    let rem1: int = if until > now1 {
        until - now1
    } else {
        0
    };
    let rem2: int = if until > now2 {
        until - now2
    } else {
        0
    };
    assert(0 <= rem2 <= rem1);
    vstd::arithmetic::div_mod::lemma_div_is_ordered(rem2, rem1, n);
    vstd::arithmetic::div_mod::lemma_fundamental_div_mod(rem1, n);
    vstd::arithmetic::div_mod::lemma_fundamental_div_mod(rem2, n);
    if rem2 / n == rem1 / n && rem2 % n != 0 {
        assert(rem1 % n != 0) by (nonlinear_arith)
            requires
                rem1 == n * (rem1 / n) + rem1 % n,
                rem2 == n * (rem2 / n) + rem2 % n,
                rem2 / n == rem1 / n,
                rem2 <= rem1,
                rem2 % n > 0,
                rem1 % n >= 0,
        ;
    }
}

/// Whether the pause ending at `pause_until` is over at `now`.
pub fn pause_expired(pause_until: Option<u128>, now: u128) -> (r: bool)
    ensures
        r == pause_is_over(pause_until, now),
{
    match pause_until {
        Some(until) => until <= now,
        None => false,
    }
}

/// A call on the daemon state, as far as the pause of the shortcut goes.
pub enum PauseCall {
    /// `pause_for` with deadline `until`; `ok` when Plasma released the chord.
    PauseFor { until: u128, ok: bool },
    /// `resume`; `ok` when Plasma bound the chord again.
    Resume { ok: bool },
    /// `resume_if_expired` at `now`; `resumed` when it answered `Ok(true)`.
    ResumeIfExpired { now: u128, resumed: bool },
    /// `set_shortcut`, whatever its outcome.
    SetShortcut,
    /// `set_watching` or `set_max_items`.
    Other,
}

/// The pause deadline after one call.
pub open spec fn pause_after(pause_until: Option<u128>, call: PauseCall) -> Option<u128> {
    match call {
        PauseCall::PauseFor { until, ok } => if ok {
            Some(until)
        } else {
            pause_until
        },
        PauseCall::Resume { ok } => if ok {
            None
        } else {
            pause_until
        },
        PauseCall::ResumeIfExpired { now, resumed } => if resumed && pause_is_over(
            pause_until,
            now,
        ) {
            None
        } else {
            pause_until
        },
        _ => pause_until,
    }
}

/// The pause deadline after a sequence of calls, first to last.
pub open spec fn pause_trace(pause_until: Option<u128>, calls: Seq<PauseCall>) -> Option<u128>
    decreases calls.len(),
{
    if calls.len() == 0 {
        pause_until
    } else {
        pause_after(pause_trace(pause_until, calls.drop_last()), calls.last())
    }
}

/// A call that ends a pause: a `resume` or an expired-pause check that
/// succeeded.
pub open spec fn ends_pause(call: PauseCall) -> bool {
    ||| call matches PauseCall::Resume { ok: true }
    ||| call matches PauseCall::ResumeIfExpired { resumed: true, .. }
}

/// A call that starts (or moves) a pause: a `pause_for` that succeeded.
pub open spec fn starts_pause(call: PauseCall) -> bool {
    call matches PauseCall::PauseFor { ok: true, .. }
}

/// Once paused, the shortcut stays paused through any calls until one of them
/// ends the pause; changing the chord, the limit or the watcher never does.
pub proof fn lemma_pause_lasts_until_resumed(pause_until: Option<u128>, calls: Seq<PauseCall>)
    requires
        pause_until is Some,
        forall|i: int| 0 <= i < calls.len() ==> !ends_pause(#[trigger] calls[i]),
    ensures
        pause_trace(pause_until, calls) is Some,
    decreases calls.len(),
{
    if calls.len() > 0 {
        let init = calls.drop_last();
        assert forall|i: int| 0 <= i < init.len() implies !ends_pause(#[trigger] init[i]) by {
            assert(init[i] == calls[i]);
        }
        lemma_pause_lasts_until_resumed(pause_until, init);
        assert(!ends_pause(calls[calls.len() - 1]));
    }
}

/// The expiry check never ends a pause before its deadline: a pause ending at
/// `until` stays as it is through calls that neither pause again nor resume,
/// whatever expiry checks made before `until` answer.
pub proof fn lemma_no_resume_before_deadline(until: u128, calls: Seq<PauseCall>)
    requires
        forall|i: int|
            0 <= i < calls.len() ==> !starts_pause(#[trigger] calls[i]) && !(calls[i] matches PauseCall::Resume {
                ok: true,
            }) && (calls[i] matches PauseCall::ResumeIfExpired { now, .. } ==> now < until),
    ensures
        pause_trace(Some(until), calls) == Some(until),
    decreases calls.len(),
{
    if calls.len() > 0 {
        let init = calls.drop_last();
        assert forall|i: int|
            0 <= i < init.len() implies !starts_pause(#[trigger] init[i]) && !(init[i] matches PauseCall::Resume {
                ok: true,
            }) && (init[i] matches PauseCall::ResumeIfExpired { now, .. } ==> now < until) by {
            assert(init[i] == calls[i]);
        }
        lemma_no_resume_before_deadline(until, init);
        let last = calls[calls.len() - 1];
        assert(!starts_pause(last));
    }
}

/// An unpaused shortcut stays unpaused through any calls until a pause succeeds.
pub proof fn lemma_unpaused_until_paused(calls: Seq<PauseCall>)
    requires
        forall|i: int| 0 <= i < calls.len() ==> !starts_pause(#[trigger] calls[i]),
    ensures
        pause_trace(None, calls) is None,
    decreases calls.len(),
{
    if calls.len() > 0 {
        let init = calls.drop_last();
        assert forall|i: int| 0 <= i < init.len() implies !starts_pause(#[trigger] init[i]) by {
            assert(init[i] == calls[i]);
        }
        lemma_unpaused_until_paused(init);
        assert(!starts_pause(calls[calls.len() - 1]));
    }
}

/// Daemon state shared by the watcher, the IPC handler and the tray.
pub struct DaemonState {
    watching: bool,
    max_items: usize,
    shortcut: String,
    pause_until: Option<u128>,
}

impl DaemonState {
    #[verifier::type_invariant]
    spec fn deadline_in_range(self) -> bool {
        self.pause_until matches Some(d) ==> d <= MAX_INSTANT
    }

    /// Whether the clipboard watcher is running.
    pub closed spec fn spec_watching(&self) -> bool {
        self.watching
    }

    /// The history limit announced to clients.
    pub closed spec fn spec_max_items(&self) -> usize {
        self.max_items
    }

    /// The configured chord.
    pub closed spec fn spec_shortcut(&self) -> Seq<char> {
        self.shortcut@
    }

    /// When the current pause of the shortcut ends, if it is paused.
    pub closed spec fn spec_pause_until(&self) -> Option<u128> {
        self.pause_until
    }

    /// A fresh state: watcher not running, shortcut not paused.
    pub fn new(max_items: usize, shortcut: String) -> (s: DaemonState)
        ensures
            !s.spec_watching(),
            s.spec_max_items() == max_items,
            s.spec_shortcut() == shortcut@,
            s.spec_pause_until() is None,
    {
        DaemonState { watching: false, max_items, shortcut, pause_until: None }
    }

    pub fn watching(&self) -> (r: bool)
        ensures
            r == self.spec_watching(),
    {
        self.watching
    }

    pub fn set_watching(&mut self, watching: bool)
        ensures
            final(self).spec_watching() == watching,
            final(self).spec_max_items() == old(self).spec_max_items(),
            final(self).spec_shortcut() == old(self).spec_shortcut(),
            final(self).spec_pause_until() == pause_after(
                old(self).spec_pause_until(),
                PauseCall::Other,
            ),
    {
        proof {
            use_type_invariant(&*self);
        }
        self.watching = watching;
    }

    pub fn max_items(&self) -> (r: usize)
        ensures
            r == self.spec_max_items(),
    {
        self.max_items
    }

    pub fn set_max_items(&mut self, max_items: usize)
        ensures
            final(self).spec_max_items() == max_items,
            final(self).spec_watching() == old(self).spec_watching(),
            final(self).spec_shortcut() == old(self).spec_shortcut(),
            final(self).spec_pause_until() == pause_after(
                old(self).spec_pause_until(),
                PauseCall::Other,
            ),
    {
        proof {
            use_type_invariant(&*self);
        }
        self.max_items = max_items;
    }

    pub fn shortcut(&self) -> (r: &String)
        ensures
            r@ == self.spec_shortcut(),
    {
        &self.shortcut
    }

    /// Whether the shortcut is paused.
    pub fn is_paused(&self) -> (r: bool)
        ensures
            r == (self.spec_pause_until() is Some),
    {
        self.pause_until.is_some()
    }

    /// Whole seconds left in the pause at `now`, rounded up; `None` when not paused.
    pub fn pause_remaining_secs(&self, now: u128) -> (r: Option<u64>)
        ensures
            self.spec_pause_until() is None ==> r is None,
            self.spec_pause_until() matches Some(d) ==> r == Some(secs_left(d, now) as u64),
            self.spec_pause_until() matches Some(d) ==> secs_left(d, now) <= u64::MAX,
    {
        proof {
            use_type_invariant(self);
        }
        match self.pause_until {
            None => None,
            Some(until) => {
                let rem: u128 = if until > now {
                    until - now
                } else {
                    0
                };
                let whole = rem / NANOS_PER_SEC;
                let part: u128 = if rem % NANOS_PER_SEC != 0 {
                    1
                } else {
                    0
                };
                assert(whole <= 9_223_372_036_854_775_807u128);
                Some((whole + part) as u64)
            },
        }
    }

    /// Binds `shortcut` in Plasma through `apply(enabled, shortcut)` (enabled unless
    /// paused) and records it when Plasma accepted it; the error is passed on.
    pub fn set_shortcut<F: FnOnce(bool, String) -> Result<(), String>>(
        &mut self,
        shortcut: &str,
        apply: F,
    ) -> (r: Result<(), String>)
        requires
            forall|e: bool, s: String| apply.requires((e, s)),
        ensures
            exists|s: String|
                #![trigger apply.ensures((old(self).spec_pause_until() is None, s), r)]
                s@ == shortcut@ && apply.ensures((old(self).spec_pause_until() is None, s), r),
            r is Ok ==> final(self).spec_shortcut() == shortcut@,
            r is Err ==> final(self).spec_shortcut() == old(self).spec_shortcut(),
            final(self).spec_pause_until() == pause_after(
                old(self).spec_pause_until(),
                PauseCall::SetShortcut,
            ),
            final(self).spec_watching() == old(self).spec_watching(),
            final(self).spec_max_items() == old(self).spec_max_items(),
    {
        proof {
            use_type_invariant(&*self);
        }
        let enabled = self.pause_until.is_none();
        let s = shortcut.to_owned();
        let r = apply(enabled, s);
        if r.is_ok() {
            self.shortcut = shortcut.to_owned();
        }
        r
    }

    /// Pauses the shortcut for `duration` nanoseconds from `now`: releases the
    /// chord through `apply(false, shortcut)` and, when that succeeds, records the
    /// deadline.
    pub fn pause_for<F: FnOnce(bool, String) -> Result<(), String>>(
        &mut self,
        duration: u128,
        now: u128,
        apply: F,
    ) -> (r: Result<(), String>)
        requires
            now + duration <= MAX_INSTANT,
            forall|e: bool, s: String| apply.requires((e, s)),
        ensures
            exists|s: String|
                #![trigger apply.ensures((false, s), r)]
                s@ == old(self).spec_shortcut() && apply.ensures((false, s), r),
            r is Ok ==> final(self).spec_pause_until() == Some((now + duration) as u128),
            r is Err ==> final(self).spec_pause_until() == old(self).spec_pause_until(),
            final(self).spec_pause_until() == pause_after(
                old(self).spec_pause_until(),
                PauseCall::PauseFor { until: (now + duration) as u128, ok: r is Ok },
            ),
            final(self).spec_shortcut() == old(self).spec_shortcut(),
            final(self).spec_watching() == old(self).spec_watching(),
            final(self).spec_max_items() == old(self).spec_max_items(),
    {
        let s = self.shortcut.clone();
        let r = apply(false, s);
        if r.is_ok() {
            self.pause_until = Some(now + duration);
        }
        r
    }

    /// Ends the pause: binds the chord again through `apply(true, shortcut)` and,
    /// when that succeeds, clears the deadline.
    pub fn resume<F: FnOnce(bool, String) -> Result<(), String>>(&mut self, apply: F) -> (r:
        Result<(), String>)
        requires
            forall|e: bool, s: String| apply.requires((e, s)),
        ensures
            exists|s: String|
                #![trigger apply.ensures((true, s), r)]
                s@ == old(self).spec_shortcut() && apply.ensures((true, s), r),
            r is Ok ==> final(self).spec_pause_until() is None,
            r is Err ==> final(self).spec_pause_until() == old(self).spec_pause_until(),
            final(self).spec_pause_until() == pause_after(
                old(self).spec_pause_until(),
                PauseCall::Resume { ok: r is Ok },
            ),
            final(self).spec_shortcut() == old(self).spec_shortcut(),
            final(self).spec_watching() == old(self).spec_watching(),
            final(self).spec_max_items() == old(self).spec_max_items(),
    {
        let s = self.shortcut.clone();
        let r = apply(true, s);
        if r.is_ok() {
            self.pause_until = None;
        }
        r
    }

    /// Ends a pause whose deadline has passed at `now`, binding the chord again
    /// through `apply(true, shortcut)`; `Ok(true)` when it did, `Ok(false)` (and
    /// nothing done) when there is no expired pause.
    pub fn resume_if_expired<F: FnOnce(bool, String) -> Result<(), String>>(
        &mut self,
        now: u128,
        apply: F,
    ) -> (r: Result<bool, String>)
        requires
            forall|e: bool, s: String| apply.requires((e, s)),
        ensures
            !pause_is_over(old(self).spec_pause_until(), now) ==> r == Ok::<bool, String>(false)
                && final(self).spec_pause_until() == old(self).spec_pause_until(),
            pause_is_over(old(self).spec_pause_until(), now) ==> exists|s: String, o: Result<
                (),
                String,
            >|
                #![trigger apply.ensures((true, s), o)]
                s@ == old(self).spec_shortcut() && apply.ensures((true, s), o) && match o {
                    Ok(_) => r == Ok::<bool, String>(true) && final(self).spec_pause_until() is None,
                    Err(e) => r == Err::<bool, String>(e) && final(self).spec_pause_until()
                        == old(self).spec_pause_until(),
                },
            final(self).spec_pause_until() == pause_after(
                old(self).spec_pause_until(),
                PauseCall::ResumeIfExpired { now, resumed: r == Ok::<bool, String>(true) },
            ),
            final(self).spec_shortcut() == old(self).spec_shortcut(),
            final(self).spec_watching() == old(self).spec_watching(),
            final(self).spec_max_items() == old(self).spec_max_items(),
    {
        if !pause_expired(self.pause_until, now) {
            return Ok(false);
        }
        let s = self.shortcut.clone();
        let o = apply(true, s);
        match o {
            Ok(()) => {
                self.pause_until = None;
                Ok(true)
            },
            Err(e) => Err(e),
        }
    }
}

} // verus!
