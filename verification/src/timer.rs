//! A labelled stopwatch for timing log lines.
use vstd::prelude::*;
use crate::text;

verus! {

#[verifier::external_type_specification]
#[verifier::external_body]
pub struct ExInstant(std::time::Instant);

/// The current instant (`Instant::now`).
#[verifier::external_body]
fn instant_now() -> std::time::Instant {
    std::time::Instant::now()
}

/// The time since `start` (`Instant::elapsed`).
#[verifier::external_body]
fn since(start: &std::time::Instant) -> core::time::Duration {
    start.elapsed()
}

/// Whole milliseconds of a duration (`Duration::as_millis`).
#[verifier::external_body]
fn whole_millis(d: &core::time::Duration) -> u128 {
    d.as_millis()
}

/// A stopwatch started under a label.
pub struct Timer {
    label: String,
    start: std::time::Instant,
}

impl Timer {
    /// The label the stopwatch was started under.
    pub closed spec fn label_view(&self) -> Seq<char> {
        self.label@
    }

    /// Starts a stopwatch now.
    pub fn start(label: &str) -> (t: Timer)
        ensures
            t.label_view() == label@,
    {
        Timer { label: text::owned(label), start: instant_now() }
    }

    /// The label the stopwatch was started under.
    pub fn label(&self) -> (l: &str)
        ensures
            l@ == self.label_view(),
    {
        self.label.as_str()
    }

    /// The milliseconds since the start, when the timed work is done.
    pub fn stop(&self) -> u128 {
        let d = since(&self.start);
        whole_millis(&d)
    }

    /// The milliseconds since the start, at an intermediate point.
    pub fn lap(&self) -> u128 {
        let d = since(&self.start);
        whole_millis(&d)
    }
}

} // verus!
