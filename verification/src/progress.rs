//! Progress of a bulk load: how many logical entries went in, and when the
//! next report is due.

use vstd::prelude::*;

verus! {

/// The least number of seconds between two reports.
pub const REPORT_INTERVAL_SECS: u64 = 5;

/// Counts the entries written under a label and tells when to report.
#[derive(Debug)]
pub struct ProgressTracker {
    label: String,
    total: u64,
    inserted: u64,
    last_report: u64,
}

/// What a report says: the entries written so far and the entries expected.
#[derive(Clone, Copy, Debug, PartialEq, Eq)]
pub struct ProgressReport {
    pub inserted: u64,
    pub total: u64,
}

impl ProgressTracker {
    /// The label under which reports are made.
    pub closed spec fn spec_label(&self) -> Seq<char> {
        self.label@
    }

    /// The number of entries expected.
    pub closed spec fn spec_total(&self) -> u64 {
        self.total
    }

    /// The number of entries recorded so far.
    pub closed spec fn spec_inserted(&self) -> u64 {
        self.inserted
    }

    /// The time of the last report, in seconds since the tracker was made.
    pub closed spec fn spec_last_report(&self) -> u64 {
        self.last_report
    }

    /// A tracker that has recorded nothing and has never reported.
    pub fn new(label: String, total: u64) -> (p: Self)
        ensures
            p.spec_label() == label@,
            p.spec_total() == total,
            p.spec_inserted() == 0,
            p.spec_last_report() == 0,
    {
        ProgressTracker { label, total, inserted: 0, last_report: 0 }
    }

    /// Adds `delta` entries to the count, which stops at `u64::MAX`.
    pub fn record(&mut self, delta: u64)
        ensures
            final(self).spec_inserted() == (if old(self).spec_inserted() + delta > u64::MAX {
                u64::MAX as int
            } else {
                old(self).spec_inserted() + delta
            }),
            final(self).spec_label() == old(self).spec_label(),
            final(self).spec_total() == old(self).spec_total(),
            final(self).spec_last_report() == old(self).spec_last_report(),
    {
        self.inserted = self.inserted.saturating_add(delta);
    }

    /// Tells whether a report is due `now` seconds after the tracker was
    /// made: it is once five seconds have passed since the last one. A report
    /// that is due is handed out and `now` becomes the time of the last report.
    pub fn poll(&mut self, now: u64) -> (res: Option<ProgressReport>)
        ensures
            final(self).spec_inserted() == old(self).spec_inserted(),
            final(self).spec_label() == old(self).spec_label(),
            final(self).spec_total() == old(self).spec_total(),
            res is Some <==> now >= old(self).spec_last_report() + REPORT_INTERVAL_SECS,
            res matches Some(r) ==> r.inserted == old(self).spec_inserted() && r.total == old(self).spec_total()
                && final(self).spec_last_report() == now,
            res is None ==> final(self).spec_last_report() == old(self).spec_last_report(),
    {
        if now >= self.last_report && now - self.last_report >= REPORT_INTERVAL_SECS {
            self.last_report = now;
            Some(ProgressReport { inserted: self.inserted, total: self.total })
        } else {
            None
        }
    }

    /// The label under which reports are made.
    pub fn label(&self) -> (l: &String)
        ensures
            l@ == self.spec_label(),
    {
        &self.label
    }

    /// The number of entries expected.
    pub fn total(&self) -> (n: u64)
        ensures
            n == self.spec_total(),
    {
        self.total
    }

    /// The number of entries recorded so far.
    pub fn inserted(&self) -> (n: u64)
        ensures
            n == self.spec_inserted(),
    {
        self.inserted
    }
}

} // verus!
