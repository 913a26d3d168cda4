//! The storage quota.

use vstd::prelude::*;

use crate::errors::Errno;
use crate::tree::{delta_bytes, delta_size, DirEntry};

verus! {

/// Two's complement: the signed 64-bit number that is congruent to `x`.
pub open spec fn wrapped(x: int) -> int {
    (x + 0x8000_0000_0000_0000) % 0x1_0000_0000_0000_0000 - 0x8000_0000_0000_0000
}

/// Tracks storage usage across all branches and enforces an optional quota.
/// Only counts delta files (the actual disk cost of branching).
pub struct StorageQuota {
    /// Current total bytes used in the storage directory (all branches' deltas).
    used_bytes: i64,
    /// Maximum allowed bytes. `None` means unlimited.
    max_bytes: Option<u64>,
}

pub struct QuotaView {
    pub used: int,
    pub max: Option<u64>,
}

impl View for StorageQuota {
    type V = QuotaView;

    closed spec fn view(&self) -> QuotaView {
        QuotaView { used: self.used_bytes as int, max: self.max_bytes }
    }
}

impl QuotaView {
    /// What a balance outside the signed range is stored as.
    pub open spec fn after(self, change: int) -> QuotaView {
        QuotaView { used: wrapped(self.used + change), max: self.max }
    }

    /// The bytes in use: a balance below zero counts as nothing.
    pub open spec fn in_use(self) -> int {
        if self.used < 0 {
            0
        } else {
            self.used
        }
    }

    /// Whether `additional` bytes fit under the limit.
    pub open spec fn fits(self, additional: int) -> bool {
        match self.max {
            Some(max) => self.in_use() + additional <= max,
            None => true,
        }
    }
}

/// `x` reinterpreted as a signed number.
fn to_signed(x: u64) -> (r: i64)
    ensures
        r == wrapped(x as int),
{
    proof {
        assert(x < 0x8000_0000_0000_0000 ==> x as i64 == x) by (bit_vector);
        assert(x >= 0x8000_0000_0000_0000 ==> x as i64 == x - 0x1_0000_0000_0000_0000)
            by (bit_vector);
    }
    #[verifier::truncate]
    (x as i64)
}

impl StorageQuota {
    pub fn new(max_bytes: Option<u64>) -> (r: StorageQuota)
        ensures
            r@ == (QuotaView { used: 0, max: max_bytes }),
    {
        StorageQuota { used_bytes: 0, max_bytes }
    }

    /// The quota of a storage directory whose `branches` directory holds these entries, or that
    /// has no such directory yet. Only the deltas count, not what is recorded beside them.
    pub fn scan_usage(branches_dir: Option<&Vec<DirEntry>>, max_bytes: Option<u64>) -> (r:
        StorageQuota)
        requires
            branches_dir matches Some(entries) ==> delta_bytes(entries@) <= u64::MAX,
        ensures
            r@.max == max_bytes,
            r@.used == (match branches_dir {
                Some(entries) => wrapped(delta_bytes(entries@) as int),
                None => 0,
            }),
    {
        let mut quota = StorageQuota::new(max_bytes);
        if let Some(entries) = branches_dir {
            quota.used_bytes = to_signed(delta_size(entries));
        }
        quota
    }

    /// Check if `additional` bytes can be allocated.
    pub fn check(&self, additional: u64) -> (r: Result<(), Errno>)
        ensures
            r is Ok <==> self@.fits(additional as int),
            r matches Err(e) ==> e == Errno::Enospc,
    {
        if let Some(max) = self.max_bytes {
            match self.used().checked_add(additional) {
                Some(total) => {
                    if total > max {
                        return Err(Errno::Enospc);
                    }
                },
                None => {
                    return Err(Errno::Enospc);
                },
            }
        }
        Ok(())
    }

    /// Record that `bytes` were added to storage.
    pub fn add(&mut self, bytes: u64)
        ensures
            final(self)@ == old(self)@.after(bytes as int),
    {
        self.used_bytes = self.used_bytes.wrapping_add(to_signed(bytes));
    }

    /// Record that `bytes` were removed from storage.
    pub fn sub(&mut self, bytes: u64)
        ensures
            final(self)@ == old(self)@.after(-(bytes as int)),
    {
        self.used_bytes = self.used_bytes.wrapping_sub(to_signed(bytes));
    }

    /// The bytes in use, never below zero.
    pub fn used(&self) -> (r: u64)
        ensures
            r == self@.in_use(),
    {
        if self.used_bytes < 0 {
            0
        } else {
            self.used_bytes as u64
        }
    }

    pub fn max(&self) -> (r: Option<u64>)
        ensures
            r == self@.max,
    {
        self.max_bytes
    }
}

/// Removing what was added leaves the balance as it was.
pub proof fn law_sub_undoes_add(q: QuotaView, bytes: u64)
    requires
        i64::MIN <= q.used <= i64::MAX,
    ensures
        q.after(bytes as int).after(-(bytes as int)) == q,
{
}

/// A balance that stays in the signed range is the plain sum, so usage counts exactly what was
/// added less what was removed.
pub proof fn law_balance_is_exact(q: QuotaView, change: int)
    requires
        i64::MIN <= q.used + change <= i64::MAX,
    ensures
        q.after(change).used == q.used + change,
{
}

/// With a limit, an allocation that is allowed keeps usage within the limit.
pub proof fn law_limit_is_kept(q: QuotaView, bytes: u64)
    requires
        i64::MIN <= q.used,
        q.used + bytes <= i64::MAX,
        q.max is Some,
        q.fits(bytes as int),
    ensures
        q.after(bytes as int).in_use() <= q.max->0,
{
}

/// With a limit, an allocation is allowed exactly if usage and the allocation together stay within
/// the limit; without one, every allocation is. Usage is the balance, and nothing while that is
/// below zero.
pub proof fn law_allocations_fit_under_the_limit(q: QuotaView, bytes: u64)
    ensures
        q.max is None ==> q.fits(bytes as int),
        q.max is Some && q.used >= 0 ==> (q.fits(bytes as int) <==> q.used + bytes <= q.max->0),
        q.max is Some && q.used < 0 ==> (q.fits(bytes as int) <==> bytes <= q.max->0),
        q.used >= 0 ==> q.in_use() == q.used,
        q.used < 0 ==> q.in_use() == 0,
{
}

/// Recording a change of usage leaves the limit as it is.
pub proof fn law_limit_does_not_change(q: QuotaView, change: int)
    ensures
        q.after(change).max == q.max,
{
}

} // verus!
