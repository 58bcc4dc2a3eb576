//! The search for a quantile of a distribution on the counts 0, 1, 2, ...

use vstd::prelude::*;

verus! {

/// The count that a search between `low` and `high` asks about next.
pub open spec fn midpoint(low: int, high: int) -> int {
    low + (high - low) / 2
}

/// `below` holds of every count under a count of which it holds. The
/// question "is the cumulative probability of `k` less than `p`" is of this
/// kind, since a cumulative distribution never falls.
pub open spec fn downward_closed(below: spec_fn(int) -> bool) -> bool {
    forall|j: int, k: int| 0 <= j <= k && #[trigger] below(k) ==> #[trigger] below(j)
}

/// The answers agree with `below` wherever an answer was given.
pub open spec fn answers_follow(answers: Map<int, bool>, below: spec_fn(int) -> bool) -> bool {
    forall|k: int| #[trigger] answers.dom().contains(k) ==> answers[k] == below(k)
}

/// A binary search for the quantile of a distribution on the counts
/// `0, 1, 2, ...`: the smallest count `k` whose cumulative probability is at
/// least `p`, looked for among the counts up to a given bound.
///
/// The search holds no probabilities. It names a count to ask about, and is
/// told whether the cumulative probability of that count is less than `p`.
pub struct QuantileSearch {
    low: u64,
    high: u64,
    bound: Ghost<int>,
    answers: Ghost<Map<int, bool>>,
}

impl QuantileSearch {
    /// The smallest count not yet ruled out.
    pub closed spec fn spec_low(&self) -> u64 {
        self.low
    }

    /// The largest count still possible.
    pub closed spec fn spec_high(&self) -> u64 {
        self.high
    }

    /// The bound that the search started with.
    pub closed spec fn bound(&self) -> int {
        self.bound@
    }

    /// What the search was told so far: for each count asked about, whether
    /// its cumulative probability was less than `p`.
    pub closed spec fn answers(&self) -> Map<int, bool> {
        self.answers@
    }

    /// The bracket lies within the bound, the count just under it was
    /// answered with "less", and its upper end, where the search moved it,
    /// was answered with "not less".
    pub open spec fn wf(&self) -> bool {
        &&& self.spec_low() <= self.spec_high() <= self.bound()
        &&& self.spec_low() > 0 ==> self.answers().dom().contains(self.spec_low() - 1)
            && self.answers()[self.spec_low() - 1]
        &&& self.spec_high() < self.bound() ==> self.answers().dom().contains(
            self.spec_high() as int,
        ) && !self.answers()[self.spec_high() as int]
    }

    /// Nothing is left to ask.
    pub open spec fn finished(&self) -> bool {
        self.spec_low() == self.spec_high()
    }

    /// A search among the counts `0..=upper`.
    pub fn new(upper: u64) -> (search: QuantileSearch)
        ensures
            search.wf(),
            search.spec_low() == 0,
            search.spec_high() == upper,
            search.bound() == upper,
            search.answers() == Map::<int, bool>::empty(),
    {
        QuantileSearch { low: 0, high: upper, bound: Ghost(upper as int), answers: Ghost(Map::empty()) }
    }

    /// The count to ask about next, or `None` when the search has finished.
    pub fn probe(&self) -> (next: Option<u64>)
        requires
            self.wf(),
        ensures
            match next {
                Some(count) => !self.finished() && count == midpoint(
                    self.spec_low() as int,
                    self.spec_high() as int,
                ) && self.spec_low() <= count < self.spec_high(),
                None => self.finished(),
            },
    {
        if self.low < self.high {
            Some(self.low + (self.high - self.low) / 2)
        } else {
            None
        }
    }

    /// Takes the answer for the count that `probe` named: `below` says that
    /// the cumulative probability of that count is less than `p`. Then the
    /// quantile lies above the count; otherwise it is the count or lies under it.
    pub fn narrow(&mut self, below: bool)
        requires
            old(self).wf(),
            !old(self).finished(),
        ensures
            final(self).wf(),
            final(self).bound() == old(self).bound(),
            final(self).answers() == old(self).answers().insert(
                midpoint(old(self).spec_low() as int, old(self).spec_high() as int),
                below,
            ),
            below ==> final(self).spec_low() == midpoint(
                old(self).spec_low() as int,
                old(self).spec_high() as int,
            ) + 1 && final(self).spec_high() == old(self).spec_high(),
            !below ==> final(self).spec_high() == midpoint(
                old(self).spec_low() as int,
                old(self).spec_high() as int,
            ) && final(self).spec_low() == old(self).spec_low(),
            final(self).spec_high() - final(self).spec_low() < old(self).spec_high() - old(
                self,
            ).spec_low(),
    {
        let mid = self.low + (self.high - self.low) / 2;
        self.answers = Ghost(self.answers@.insert(mid as int, below));
        if below {
            self.low = mid + 1;
        } else {
            self.high = mid;
        }
    }

    /// The count that the search has settled on. It is meant to be read
    /// when the search has finished.
    pub fn result(&self) -> (count: u64)
        ensures
            count == self.spec_low(),
    {
        self.low
    }

    /// Whatever the answers were, a finished search stands where they
    /// change: the count under the result was answered with "less", and the
    /// result itself, unless it is the bound, with "not less".
    pub proof fn lemma_result_is_a_crossing(&self)
        requires
            self.wf(),
            self.finished(),
        ensures
            0 <= self.spec_low() <= self.bound(),
            self.spec_low() > 0 ==> self.answers().dom().contains(self.spec_low() - 1)
                && self.answers()[self.spec_low() - 1],
            self.spec_low() < self.bound() ==> self.answers().dom().contains(
                self.spec_low() as int,
            ) && !self.answers()[self.spec_low() as int],
    {
    }

    /// With answers about a cumulative distribution, a finished search has
    /// found the quantile: "less" holds of every count under the result, and
    /// the result is the smallest count of which it does not hold, or the
    /// bound where it holds of every count under the bound.
    pub proof fn lemma_result_is_least(&self, below: spec_fn(int) -> bool)
        requires
            self.wf(),
            self.finished(),
            downward_closed(below),
            answers_follow(self.answers(), below),
        ensures
            forall|k: int| 0 <= k < self.spec_low() ==> #[trigger] below(k),
            self.spec_low() < self.bound() ==> !below(self.spec_low() as int),
    {
        if self.spec_low() > 0 {
            // The count just under the result was answered with "less",
            // and so "less" holds of every count under it.
            let under = self.spec_low() - 1;
            assert(below(under));
            assert forall|k: int| 0 <= k < self.spec_low() implies #[trigger] below(k) by {
                assert(k <= under);
            }
        }
    }
}

} // verus!
