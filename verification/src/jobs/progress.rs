//! Progress reporting: monotonic, and never past the total.
//!
//! A progress bar that goes backwards or sits at 100 % while work continues is
//! a lie. The total is optional because some work does not know its size until
//! it finishes, and a made-up total would be worse than none.

use vstd::prelude::*;

verus! {

/// How far along a job is.
#[derive(Debug, Clone, Copy, PartialEq, Eq)]
pub struct Progress {
    completed: u64,
    total: Option<u64>,
}

impl Progress {
    /// Units completed, for specifications.
    pub closed spec fn spec_completed(self) -> u64 {
        self.completed
    }

    /// The total, for specifications.
    pub closed spec fn spec_total(self) -> Option<u64> {
        self.total
    }

    /// Completed never exceeds a known total.
    pub open spec fn wf(self) -> bool {
        self.spec_total() is Some ==> self.spec_completed() <= self.spec_total()->0
    }

    /// What [`Progress::set_completed`] returns.
    pub closed spec fn set_completed_spec(self, completed: u64) -> Progress {
        let clamped = match self.total {
            Some(t) => min_u(completed, t),
            None => completed,
        };
        Progress { completed: max_u(self.completed, clamped), total: self.total }
    }

    /// Progress with an unknown total.
    pub fn indeterminate() -> (r: Self)
        ensures
            r.spec_completed() == 0,
            r.spec_total() is None,
            r.wf(),
    {
        Self { completed: 0, total: None }
    }

    /// Progress with a known total.
    pub fn with_total(total: u64) -> (r: Self)
        ensures
            r.spec_completed() == 0,
            r.spec_total() == Some(total),
            r.wf(),
    {
        Self { completed: 0, total: Some(total) }
    }

    /// Units completed so far.
    pub fn completed(self) -> (r: u64)
        ensures
            r == self.spec_completed(),
    {
        self.completed
    }

    /// Total units, where known.
    pub fn total(self) -> (r: Option<u64>)
        ensures
            r == self.spec_total(),
    {
        self.total
    }

    /// Whether the total is unknown.
    pub fn is_indeterminate(self) -> (r: bool)
        ensures
            r == self.spec_total() is None,
    {
        self.total.is_none()
    }

    /// Advance by `units`, saturating at the total (and at `u64::MAX`) rather
    /// than passing it.
    pub fn advance(self, units: u64) -> (r: Self)
        ensures
            r.spec_total() == self.spec_total(),
            r.spec_completed() == (match self.spec_total() {
                Some(t) => min_u(sat_add(self.spec_completed(), units), t),
                None => sat_add(self.spec_completed(), units),
            }),
            r.wf(),
    {
        let sum = self.completed.saturating_add(units);
        let completed = match self.total {
            Some(total) => if sum < total { sum } else { total },
            None => sum,
        };
        Self { completed, total: self.total }
    }

    /// Jump to an absolute position. Never moves backwards: a smaller report
    /// than what is already completed is ignored.
    pub fn set_completed(self, completed: u64) -> (r: Self)
        ensures
            r.spec_total() == self.spec_total(),
            r.spec_completed() == max_u(
                self.spec_completed(),
                match self.spec_total() {
                    Some(t) => min_u(completed, t),
                    None => completed,
                },
            ),
            self.wf() ==> r.wf(),
            r == self.set_completed_spec(completed),
    {
        let clamped = match self.total {
            Some(total) => if completed < total { completed } else { total },
            None => completed,
        };
        let next = if self.completed < clamped { clamped } else { self.completed };
        Self { completed: next, total: self.total }
    }

    /// Learn the total part-way through. Never set below what is already
    /// completed.
    pub fn set_total(self, total: u64) -> (r: Self)
        ensures
            r.spec_completed() == self.spec_completed(),
            r.spec_total() == Some(max_u(total, self.spec_completed())),
            r.wf(),
    {
        let t = if total < self.completed { self.completed } else { total };
        Self { completed: self.completed, total: Some(t) }
    }

    /// Whether every known unit is done. Never true for an unknown total,
    /// and not the same as the job being complete.
    pub fn is_full(self) -> (r: bool)
        ensures
            r == (self.spec_total() is Some && self.spec_completed() >= self.spec_total()->0),
    {
        match self.total {
            Some(total) => self.completed >= total,
            None => false,
        }
    }
}

impl Default for Progress {
    fn default() -> (r: Self)
        ensures
            r.spec_completed() == 0,
            r.spec_total() is None,
    {
        Self::indeterminate()
    }
}

/// Saturating addition.
pub open spec fn sat_add(a: u64, b: u64) -> u64 {
    if a + b > u64::MAX { u64::MAX } else { (a + b) as u64 }
}

/// The smaller of two.
pub open spec fn min_u(a: u64, b: u64) -> u64 {
    if a < b { a } else { b }
}

/// The larger of two.
pub open spec fn max_u(a: u64, b: u64) -> u64 {
    if a < b { b } else { a }
}

/// Advancing never moves backwards and never passes a known total.
pub proof fn law_advance_is_monotonic_and_bounded(p: Progress, units: u64, r: Progress)
    requires
        p.wf(),
        r.spec_total() == p.spec_total(),
        r.spec_completed() == (match p.spec_total() {
            Some(t) => min_u(sat_add(p.spec_completed(), units), t),
            None => sat_add(p.spec_completed(), units),
        }),
    ensures
        r.spec_completed() >= p.spec_completed(),
        r.wf(),
{
}

/// A later, smaller report does not make the bar retreat.
pub proof fn law_set_completed_never_retreats(p: Progress, n: u64)
    requires
        p.wf(),
    ensures
        max_u(
            p.spec_completed(),
            match p.spec_total() {
                Some(t) => min_u(n, t),
                None => n,
            },
        ) >= p.spec_completed(),
        p.spec_total() is Some ==> max_u(
            p.spec_completed(),
            match p.spec_total() {
                Some(t) => min_u(n, t),
                None => n,
            },
        ) <= p.spec_total()->0,
{
}

} // verus!
