//! Progress reporting.
use vstd::prelude::*;

verus! {

/// Reports progress through a stream of bytes at most once per update
/// interval.
pub struct ProgressTracker {
    total_bytes: u64,
    bytes_so_far: u64,
    last_notification: u64,
    update_interval: u64,
}

impl ProgressTracker {
    /// The total number of bytes to process.
    pub closed spec fn total(self) -> u64 {
        self.total_bytes
    }

    /// The number of bytes processed so far.
    pub closed spec fn so_far(self) -> u64 {
        self.bytes_so_far
    }

    /// The byte count at the last notification.
    pub closed spec fn last(self) -> u64 {
        self.last_notification
    }

    /// The number of bytes between notifications.
    pub closed spec fn interval(self) -> u64 {
        self.update_interval
    }

    /// A tracker for `total_bytes` bytes that reports every `update_interval`
    /// bytes, counting the first interval from byte nine.
    pub fn new(total_bytes: u64, update_interval: u64) -> (r: Self)
        ensures
            r.total() == total_bytes,
            r.so_far() == 0,
            r.last() == 9,
            r.interval() == update_interval,
    {
        Self { total_bytes, bytes_so_far: 0, last_notification: 9, update_interval }
    }

    /// Counts `amount` more bytes and returns the progress to report, if a
    /// whole update interval has passed since the last report.
    pub fn step(&mut self, amount: u64) -> (r: Option<(u64, u64)>)
        requires
            old(self).so_far() + amount <= u64::MAX,
            old(self).so_far() + amount >= old(self).last(),
        ensures
            advanced(*old(self), amount, *final(self), r),
    {
        self.bytes_so_far = self.bytes_so_far + amount;
        if self.bytes_so_far - self.last_notification >= self.update_interval {
            self.last_notification = self.bytes_so_far;
            Some((self.bytes_so_far, self.total_bytes))
        } else {
            None
        }
    }

    /// Counts `amount` more bytes and calls `progress_callback` with the bytes
    /// so far and the total when a whole update interval has passed since the
    /// last call.
    pub fn advance(&mut self, amount: u64, progress_callback: &mut impl FnMut(u64, u64))
        requires
            old(self).so_far() + amount <= u64::MAX,
            old(self).so_far() + amount >= old(self).last(),
            forall|a: u64, b: u64| call_requires(*old(progress_callback), (a, b)),
        ensures
            exists|report: Option<(u64, u64)>|
                {
                    &&& advanced(*old(self), amount, *final(self), report)
                    &&& report matches Some(args) ==> call_ensures(*old(progress_callback), args, ())
                    &&& report is None ==> *final(progress_callback) == *old(progress_callback)
                },
    {
        if let Some((so_far, total)) = self.step(amount) {
            progress_callback(so_far, total);
        }
    }
}

/// `after` is `before` with `amount` more bytes counted, and `report` is the
/// progress reported: the bytes so far and the total, exactly when the count
/// has grown by at least the update interval since the last report.
pub open spec fn advanced(
    before: ProgressTracker,
    amount: u64,
    after: ProgressTracker,
    report: Option<(u64, u64)>,
) -> bool {
    &&& after.total() == before.total()
    &&& after.interval() == before.interval()
    &&& after.so_far() == before.so_far() + amount
    &&& if after.so_far() - before.last() >= before.interval() {
        &&& report == Some((after.so_far(), after.total()))
        &&& after.last() == after.so_far()
    } else {
        &&& report is None
        &&& after.last() == before.last()
    }
}

/// Marks a value, typically a `Result`, as deliberately unused.
pub trait Ignorable {
    fn ignore(&self) {
    }
}

impl<O, E> Ignorable for Result<O, E> {

}

} // verus!
