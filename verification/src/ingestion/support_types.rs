//! Progress reporting while a data file is unpacked.
use vstd::prelude::*;

verus! {

/// Reports progress through a data file whenever more than ten million bytes
/// have been processed since the last report.
pub struct ProgressTracker {
    total_bytes: u64,
    bytes_so_far: u64,
    last_notification: u64,
}

/// The number of bytes that must pass before the next report.
pub const REPORT_INTERVAL: u64 = 10_000_000;

impl ProgressTracker {
    #[verifier::type_invariant]
    spec fn counted(self) -> bool {
        self.last_notification <= self.bytes_so_far
    }

    /// The total number of bytes of the file.
    pub closed spec fn total(self) -> u64 {
        self.total_bytes
    }

    /// The number of bytes processed so far.
    pub closed spec fn so_far(self) -> u64 {
        self.bytes_so_far
    }

    /// The byte count at the last report.
    pub closed spec fn last(self) -> u64 {
        self.last_notification
    }

    /// A tracker for a file of `total_bytes` bytes, none of them processed.
    pub fn new(total_bytes: u64) -> (r: Self)
        ensures
            r.total() == total_bytes,
            r.so_far() == 0,
            r.last() == 0,
    {
        ProgressTracker { total_bytes, bytes_so_far: 0, last_notification: 0 }
    }

    /// Counts `amount` more bytes and returns the progress to report, the
    /// bytes so far and the total, when more than ten million bytes have
    /// passed since the last report.
    pub fn step(&mut self, amount: u64) -> (r: Option<(u64, u64)>)
        requires
            old(self).so_far() + amount <= u64::MAX,
        ensures
            final(self).total() == old(self).total(),
            final(self).so_far() == old(self).so_far() + amount,
            if final(self).so_far() - old(self).last() > REPORT_INTERVAL {
                &&& r == Some((final(self).so_far(), final(self).total()))
                &&& final(self).last() == final(self).so_far()
            } else {
                &&& r is None
                &&& final(self).last() == old(self).last()
            },
    {
        proof {
            use_type_invariant(&*self);
        }
        let bytes_so_far = self.bytes_so_far + amount;
        self.bytes_so_far = bytes_so_far;
        if bytes_so_far - self.last_notification > REPORT_INTERVAL {
            self.last_notification = bytes_so_far;
            Some((bytes_so_far, self.total_bytes))
        } else {
            None
        }
    }

    /// Counts `amount` more bytes and calls `progress_callback` with the bytes
    /// so far and the total when more than ten million bytes have passed since
    /// the last call.
    pub fn advance(&mut self, amount: u64, progress_callback: &mut impl FnMut(u64, u64))
        requires
            old(self).so_far() + amount <= u64::MAX,
            forall|a: u64, b: u64| call_requires(*old(progress_callback), (a, b)),
        ensures
            final(self).total() == old(self).total(),
            final(self).so_far() == old(self).so_far() + amount,
            if final(self).so_far() - old(self).last() > REPORT_INTERVAL {
                &&& call_ensures(*old(progress_callback), (final(self).so_far(), final(self).total()), ())
                &&& final(self).last() == final(self).so_far()
            } else {
                &&& *final(progress_callback) == *old(progress_callback)
                &&& final(self).last() == old(self).last()
            },
    {
        if let Some((so_far, total)) = self.step(amount) {
            progress_callback(so_far, total);
        }
    }
}

} // verus!
