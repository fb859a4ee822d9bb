//! Counters kept by the workers and the dispatcher.

use vstd::prelude::*;

verus! {

/// Four counters: matches emitted, lines examined, idle polls, kilobytes
/// dispatched.
#[derive(Clone, Copy, Debug, PartialEq, Eq, Structural)]
pub struct Stats {
    pub cracked: usize,
    pub hashed: usize,
    pub waits: usize,
    pub kbs: usize,
}

/// The counters as unbounded numbers.
pub struct Totals {
    pub cracked: nat,
    pub hashed: nat,
    pub waits: nat,
    pub kbs: nat,
}

impl Totals {
    /// Counter-wise sum.
    pub open spec fn plus(self, other: Totals) -> Totals {
        Totals {
            cracked: self.cracked + other.cracked,
            hashed: self.hashed + other.hashed,
            waits: self.waits + other.waits,
            kbs: self.kbs + other.kbs,
        }
    }

    /// These totals after a worker's report has been taken in: matches, lines
    /// and waits add up; the kilobytes are the dispatcher's own count and stay.
    pub open spec fn joined(self, report: Totals) -> Totals {
        Totals {
            cracked: self.cracked + report.cracked,
            hashed: self.hashed + report.hashed,
            waits: self.waits + report.waits,
            kbs: self.kbs,
        }
    }

    /// All four counters fit in a machine word.
    pub open spec fn fits(self) -> bool {
        &&& self.cracked <= usize::MAX
        &&& self.hashed <= usize::MAX
        &&& self.waits <= usize::MAX
        &&& self.kbs <= usize::MAX
    }

    /// Summing is commutative.
    pub proof fn lemma_plus_commutes(self, other: Totals)
        ensures
            self.plus(other) == other.plus(self),
    {
    }

    /// The order in which two reports are taken in does not matter.
    pub proof fn lemma_joined_in_any_order(self, first: Totals, second: Totals)
        ensures
            self.joined(first).joined(second) == self.joined(second).joined(first),
            self.joined(first).joined(second) == self.joined(first.plus(second)),
    {
    }

    /// Summing is associative.
    pub proof fn lemma_plus_associates(self, second: Totals, third: Totals)
        ensures
            self.plus(second).plus(third) == self.plus(second.plus(third)),
    {
    }
}

impl View for Stats {
    type V = Totals;

    open spec fn view(&self) -> Totals {
        Totals {
            cracked: self.cracked as nat,
            hashed: self.hashed as nat,
            waits: self.waits as nat,
            kbs: self.kbs as nat,
        }
    }
}

impl Stats {
    /// All counters at zero.
    pub fn new() -> (s: Stats)
        ensures
            s == (Stats { cracked: 0, hashed: 0, waits: 0, kbs: 0 }),
    {
        Stats { cracked: 0, hashed: 0, waits: 0, kbs: 0 }
    }

    /// Takes in a worker's report: adds its matches, lines and waits.
    pub fn absorb(&mut self, report: &Stats)
        requires
            old(self)@.joined(report@).fits(),
        ensures
            final(self)@ == old(self)@.joined(report@),
    {
        self.cracked = self.cracked + report.cracked;
        self.hashed = self.hashed + report.hashed;
        self.waits = self.waits + report.waits;
    }

    /// Says whether `report` can be taken in without a counter running over.
    pub fn can_absorb(&self, report: &Stats) -> (ok: bool)
        ensures
            ok == self@.joined(report@).fits(),
    {
        report.cracked <= usize::MAX - self.cracked && report.hashed <= usize::MAX - self.hashed
            && report.waits <= usize::MAX - self.waits
    }
}

} // verus!
