use vstd::prelude::*;

verus! {

/// The completion percentage, rounded down, of `done` bytes out of `total`,
/// clamped to 100. An empty file counts as complete.
pub open spec fn percent_of(done: nat, total: nat) -> nat {
    if total == 0 || done >= total {
        100
    } else {
        (100 * done / total) as nat
    }
}

/// More bytes done never gives a lower percentage.
pub proof fn lemma_percent_monotone(a: nat, b: nat, total: nat)
    requires
        a <= b,
    ensures
        percent_of(a, total) <= percent_of(b, total),
        percent_of(b, total) <= 100,
{
    if total > 0 && b < total {
        assert(100 * a <= 100 * b) by (nonlinear_arith)
            requires a <= b;
        assert(100 * a / total <= 100 * b / total) by (nonlinear_arith)
            requires 100 * a <= 100 * b, total > 0;
        assert(100 * b / total <= 100) by (nonlinear_arith)
            requires b < total, total > 0;
    } else if total > 0 && a < total {
        assert(100 * a / total <= 100) by (nonlinear_arith)
            requires a < total, total > 0;
    }
}

/// Computes `percent_of(done, total)` without overflow.
pub fn percent(done: u64, total: u64) -> (r: u64)
    ensures
        r == percent_of(done as nat, total as nat),
        r <= 100,
{
    if total == 0 || done >= total {
        100
    } else {
        let wide: u128 = (done as u128) * 100;
        let q: u128 = wide / (total as u128);
        proof {
            assert(q <= 100) by (nonlinear_arith)
                requires q == wide / (total as u128), wide == (done as u128) * 100, done < total;
        }
        q as u64
    }
}

/// Cumulative bytes of one task against its size, with the last percentage
/// that was reported.
pub struct ProgressTracker {
    total: u64,
    done: u64,
    last: u64,
}

impl ProgressTracker {
    pub closed spec fn total_spec(&self) -> nat {
        self.total as nat
    }

    pub closed spec fn done_spec(&self) -> nat {
        self.done as nat
    }

    pub closed spec fn last_spec(&self) -> nat {
        self.last as nat
    }

    /// The bytes counted so far.
    pub fn done(&self) -> (r: u64)
        ensures
            r == self.done_spec(),
    {
        self.done
    }

    /// Bytes never run past the total, and the last report is the current percentage.
    pub closed spec fn wf(&self) -> bool {
        &&& self.done <= self.total
        &&& self.last == percent_of(self.done as nat, self.total as nat)
    }

    /// A tracker for a task of `total` bytes, none of them done. Its starting
    /// report is 0 for a non-empty task and 100 for an empty one.
    pub fn new(total: u64) -> (r: ProgressTracker)
        ensures
            r.wf(),
            r.total_spec() == total,
            r.done_spec() == 0,
            r.last_spec() == percent_of(0, total as nat),
    {
        proof {
            if total > 0 {
                assert(100 * 0nat / (total as nat) == 0) by (nonlinear_arith)
                    requires total > 0;
            }
        }
        ProgressTracker { total, done: 0, last: percent(0, total) }
    }

    /// Counts `n` more bytes done. Returns the new percentage when it is
    /// strictly above the last one reported, and nothing otherwise.
    pub fn advance(&mut self, n: u64) -> (r: Option<u64>)
        requires
            old(self).wf(),
            old(self).done_spec() + n <= old(self).total_spec(),
        ensures
            final(self).wf(),
            final(self).total_spec() == old(self).total_spec(),
            final(self).done_spec() == old(self).done_spec() + n,
            final(self).last_spec() == percent_of(final(self).done_spec(), final(self).total_spec()),
            old(self).last_spec() == percent_of(old(self).done_spec(), old(self).total_spec()),
            old(self).last_spec() <= final(self).last_spec() <= 100,
            r == (if final(self).last_spec() > old(self).last_spec() {
                Some(final(self).last_spec() as u64)
            } else {
                None::<u64>
            }),
    {
        proof {
            lemma_percent_monotone(self.done as nat, (self.done + n) as nat, self.total as nat);
        }
        self.done = self.done + n;
        let p = percent(self.done, self.total);
        if p > self.last {
            self.last = p;
            Some(p)
        } else {
            None
        }
    }
}

} // verus!
