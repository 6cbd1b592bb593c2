//! Timers that coalesce values: debounce and throttle.
use vstd::prelude::*;

verus! {

/// Why a timer refuses a value or fails to stop.
#[derive(Clone, Debug, PartialEq, Eq)]
pub enum TimerError {
    ContextDisposed,
    Cleanup(String),
}

/// The message a timer error is shown with.
pub open spec fn timer_error_text(e: TimerError) -> Seq<char> {
    match e {
        TimerError::ContextDisposed => "timer context was disposed"@,
        TimerError::Cleanup(message) => "timer cleanup failed: "@ + message@,
    }
}

impl TimerError {
    pub fn message(&self) -> (r: String)
        ensures
            r@ == timer_error_text(*self),
    {
        match self {
            TimerError::ContextDisposed => "timer context was disposed".to_owned(),
            TimerError::Cleanup(message) => {
                let mut out = "timer cleanup failed: ".to_owned();
                out.append(message.as_str());
                out
            },
        }
    }
}

/// Replaces the pending value, unless the owner is being disposed.
pub fn schedule_latest<T>(armed: bool, pending: &mut Option<T>, value: T) -> (r: Result<
    (),
    TimerError,
>)
    ensures
        armed ==> r is Ok && *final(pending) == Some(value),
        !armed ==> r == Err::<(), TimerError>(TimerError::ContextDisposed) && *final(pending)
            == *old(pending),
{
    if !armed {
        return Err(TimerError::ContextDisposed);
    }
    *pending = Some(value);
    Ok(())
}

/// What the owner of a timer does next.
#[derive(Debug)]
pub enum TimerAction<T> {
    /// Wait until a value is scheduled.
    Wait,
    /// Sleep for the configured time, or until another value is scheduled.
    Sleep,
    /// Deliver the value, then ask again.
    Deliver(T),
}

/// Trailing-edge timer: delivers the latest value once no value has come for a while.
#[derive(Debug)]
pub struct Debouncer<T> {
    pub pending: Option<T>,
    pub quiet: bool,
}

impl<T> Debouncer<T> {
    pub fn new() -> (r: Debouncer<T>)
        ensures
            r.pending is None,
            !r.quiet,
    {
        Debouncer { pending: None, quiet: false }
    }

    /// Replaces the pending value and restarts the quiet period.
    pub fn call(&mut self, armed: bool, value: T) -> (r: Result<(), TimerError>)
        ensures
            armed ==> r is Ok && final(self).pending == Some(value) && final(self).quiet,
            !armed ==> r == Err::<(), TimerError>(TimerError::ContextDisposed) && *final(self)
                == *old(self),
    {
        match schedule_latest(armed, &mut self.pending, value) {
            Err(error) => Err(error),
            Ok(_) => {
                self.quiet = true;
                Ok(())
            },
        }
    }

    /// The quiet period has passed undisturbed.
    pub fn elapsed(&mut self) -> (r: TimerAction<T>)
        ensures
            final(self).pending is None,
            !final(self).quiet,
            match old(self).pending {
                Some(value) => r == TimerAction::Deliver(value),
                None => r is Wait,
            },
    {
        self.quiet = false;
        match self.pending.take() {
            Some(value) => TimerAction::Deliver(value),
            None => TimerAction::Wait,
        }
    }

    /// What to do now: sleep out the quiet period, or wait for a value.
    pub fn next(&self) -> (r: TimerAction<T>)
        ensures
            self.quiet ==> r is Sleep,
            !self.quiet ==> r is Wait,
    {
        if self.quiet {
            TimerAction::Sleep
        } else {
            TimerAction::Wait
        }
    }
}

/// Leading-edge timer: delivers the first value at once and then at most the latest one per
/// period.
#[derive(Debug)]
pub struct Throttler<T> {
    pub pending: Option<T>,
    /// A value was scheduled since the timer last woke up from waiting.
    pub signalled: bool,
    /// A period has passed with a value pending.
    pub due: bool,
    pub resting: bool,
}

impl<T> Throttler<T> {
    pub fn new() -> (r: Throttler<T>)
        ensures
            r == (Throttler { pending: None::<T>, signalled: false, due: false, resting: false }),
    {
        Throttler { pending: None, signalled: false, due: false, resting: false }
    }

    /// Schedules a value, replacing one that is still pending.
    pub fn call(&mut self, armed: bool, value: T) -> (r: Result<(), TimerError>)
        ensures
            armed ==> r is Ok && *final(self) == (Throttler {
                pending: Some(value),
                signalled: true,
                ..*old(self)
            }),
            !armed ==> r == Err::<(), TimerError>(TimerError::ContextDisposed) && *final(self)
                == *old(self),
    {
        match schedule_latest(armed, &mut self.pending, value) {
            Err(error) => Err(error),
            Ok(_) => {
                self.signalled = true;
                Ok(())
            },
        }
    }

    /// What to do now. Waking up starts a period, with a delivery if a value is pending. A signal
    /// that came while resting wakes the timer once more, even if its value is already delivered.
    pub fn next(&mut self) -> (r: TimerAction<T>)
        ensures
            if old(self).resting {
                r is Sleep && *final(self) == *old(self)
            } else if !old(self).due && !old(self).signalled {
                r is Wait && *final(self) == *old(self)
            } else {
                &&& *final(self) == (Throttler {
                    pending: None::<T>,
                    signalled: old(self).signalled && old(self).due,
                    due: false,
                    resting: true,
                })
                &&& match old(self).pending {
                    Some(value) => r == TimerAction::Deliver(value),
                    None => r is Sleep,
                }
            },
    {
        if self.resting {
            return TimerAction::Sleep;
        }
        if !self.due && !self.signalled {
            return TimerAction::Wait;
        }
        if self.due {
            self.due = false;
        } else {
            self.signalled = false;
        }
        self.resting = true;
        match self.pending.take() {
            Some(value) => TimerAction::Deliver(value),
            None => TimerAction::Sleep,
        }
    }

    /// The period has passed.
    pub fn rested(&mut self)
        ensures
            *final(self) == (Throttler {
                resting: false,
                due: old(self).pending is Some,
                ..*old(self)
            }),
    {
        self.resting = false;
        self.due = self.pending.is_some();
    }
}

} // verus!
