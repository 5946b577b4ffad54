use vstd::prelude::*;

verus! {

/// Progress in percent after `received` of `total` chunks; nothing to do
/// counts as done.
pub open spec fn percent_of(received: int, total: int) -> int {
    if total == 0 {
        100
    } else {
        received * 100 / total
    }
}

/// Counts completed chunks against the number planned.
#[derive(Clone, Copy, Debug, PartialEq, Eq, Structural)]
pub struct Progress {
    pub received: u64,
    pub total: u64,
}

/// Progress never falls while chunks complete, and is 100 once every planned
/// chunk has reported.
pub proof fn lemma_progress_monotone(a: Progress, b: Progress)
    requires
        a.total == b.total,
        a.received <= b.received <= b.total,
    ensures
        percent_of(a.received as int, a.total as int) <= percent_of(b.received as int, b.total as int),
        b.received == b.total ==> percent_of(b.received as int, b.total as int) == 100,
{
    if b.total > 0 {
        assert(a.received * 100 <= b.received * 100) by (nonlinear_arith)
            requires
                a.received <= b.received,
        ;
        vstd::arithmetic::div_mod::lemma_div_is_ordered(
            a.received * 100,
            b.received * 100,
            b.total as int,
        );
        if b.received == b.total {
            vstd::arithmetic::div_mod::lemma_div_multiples_vanish(100, b.total as int);
            assert(b.total * 100 == 100 * b.total) by (nonlinear_arith);
        }
    }
}

impl Progress {
    pub fn new(total: u64) -> (r: Progress)
        ensures
            r.received == 0,
            r.total == total,
    {
        Progress { received: 0, total }
    }

    /// One more chunk has completed; the percentage does not fall.
    pub fn record(&mut self)
        requires
            old(self).received < old(self).total,
        ensures
            final(self).received == old(self).received + 1,
            final(self).total == old(self).total,
            percent_of(old(self).received as int, old(self).total as int) <= percent_of(
                final(self).received as int,
                final(self).total as int,
            ),
    {
        let ghost before = *self;
        self.received = self.received + 1;
        proof {
            lemma_progress_monotone(before, *self);
        }
    }

    pub fn is_complete(&self) -> (r: bool)
        ensures
            r == (self.received >= self.total),
    {
        self.received >= self.total
    }
}

} // verus!
