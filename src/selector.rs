use vstd::prelude::*;
use crate::text::chars_of;

verus! {

/// Why a configuration was rejected.
#[derive(Debug, Clone, Copy, PartialEq, Eq, Structural)]
pub enum ConfigError {
    /// No pattern was given.
    MissingPattern,
    /// The pattern is the empty string.
    EmptyPattern,
    /// A weight is zero or the weights do not add up to exactly 100.
    WeightsNotNormalized,
    /// The pattern does not fit in the read buffer.
    PatternTooLong,
}

/// Sum of the weights of the first `n` rules.
pub open spec fn prefix_weight(rules: Seq<(String, u8)>, n: int) -> int
    decreases n,
{
    if n <= 0 || n > rules.len() {
        0
    } else {
        prefix_weight(rules, n - 1) + rules[n - 1].1 as int
    }
}

/// Every weight is at least one and together they make exactly 100.
pub open spec fn weights_normalized(rules: Seq<(String, u8)>) -> bool {
    &&& forall|i: int| 0 <= i < rules.len() ==> rules[i].1 >= 1
    &&& prefix_weight(rules, rules.len() as int) == 100
}

/// A replacement text with the closed range `low..=high` of draws that select it.
#[derive(Debug, Clone)]
pub struct RuleRange {
    pub text: Vec<char>,
    pub low: u8,
    pub high: u8,
}

/// Rules with cumulative ranges over the draws `1..=100`, in declaration order.
#[derive(Debug, Clone)]
pub struct WeightedSelector {
    pub ranges: Vec<RuleRange>,
}

impl WeightedSelector {
    /// Draw `d` falls in the range of rule `i`.
    pub open spec fn covers(&self, i: int, d: int) -> bool {
        0 <= i < self.ranges@.len() && self.ranges@[i].low <= d <= self.ranges@[i].high
    }

    /// The ranges are non-empty, adjacent, start at 1 and end at 100.
    pub open spec fn wf(&self) -> bool {
        let r = self.ranges@;
        &&& r.len() > 0
        &&& r[0].low == 1
        &&& r[r.len() - 1].high == 100
        &&& forall|i: int| 0 <= i < r.len() ==> r[i].low <= r[i].high
        &&& forall|i: int| 0 <= i < r.len() - 1 ==> r[i + 1].low == r[i].high + 1
    }

    /// The rule that draw `d` selects.
    pub open spec fn pick(&self, d: int) -> int {
        choose|i: int| self.covers(i, d)
    }

    /// The replacement text that draw `d` selects.
    pub open spec fn text_for(&self, d: int) -> Seq<char> {
        self.ranges@[self.pick(d)].text@
    }

    /// The rules that a sequence of draws selects, one per draw.
    pub open spec fn picks(&self, ds: Seq<u8>) -> Seq<int> {
        ds.map_values(|d: u8| self.pick(d as int))
    }

    /// The replacement texts that a sequence of draws selects, one per draw.
    pub open spec fn texts_for(&self, ds: Seq<u8>) -> Seq<Seq<char>> {
        ds.map_values(|d: u8| self.text_for(d as int))
    }

    /// The replacement texts of the rules with indices `picks`.
    pub open spec fn texts_of(&self, picks: Seq<int>) -> Seq<Seq<char>> {
        picks.map_values(|i: int| self.ranges@[i].text@)
    }

    /// Assigns each rule the range `1 + prefix_weight(i) ..= prefix_weight(i + 1)`;
    /// fails unless the weights are normalized.
    pub fn new(rules: &Vec<(String, u8)>) -> (r: Result<WeightedSelector, ConfigError>)
        ensures
            r is Ok <==> weights_normalized(rules@),
            r is Err ==> r == Err::<WeightedSelector, ConfigError>(ConfigError::WeightsNotNormalized),
            r matches Ok(s) ==> {
                &&& s.wf()
                &&& s.ranges@.len() == rules@.len()
                &&& forall|i: int|
                    0 <= i < rules@.len() ==> {
                        &&& (#[trigger] s.ranges@[i]).text@ == rules@[i].0@
                        &&& s.ranges@[i].low == 1 + prefix_weight(rules@, i)
                        &&& s.ranges@[i].high == prefix_weight(rules@, i + 1)
                    }
            },
    {
        let mut ranges: Vec<RuleRange> = Vec::new();
        let mut acc: u8 = 0;
        let mut i: usize = 0;
        while i < rules.len()
            invariant
                i <= rules@.len(),
                acc as int == prefix_weight(rules@, i as int),
                acc <= 100,
                forall|j: int| 0 <= j < i ==> rules@[j].1 >= 1,
                ranges@.len() == i,
                forall|j: int|
                    0 <= j < i ==> {
                        &&& (#[trigger] ranges@[j]).text@ == rules@[j].0@
                        &&& ranges@[j].low == 1 + prefix_weight(rules@, j)
                        &&& ranges@[j].high == prefix_weight(rules@, j + 1)
                    },
            decreases rules@.len() - i,
        {
            let w = rules[i].1;
            if w == 0 || w > 100 - acc {
                proof {
                    if w != 0 {
                        lemma_prefix_weight_grows(rules@, i as int + 1, rules@.len() as int);
                    }
                }
                return Err(ConfigError::WeightsNotNormalized);
            }
            let text = chars_of(&rules[i].0);
            ranges.push(RuleRange { text, low: acc + 1, high: acc + w });
            acc = acc + w;
            i = i + 1;
        }
        if acc != 100 {
            return Err(ConfigError::WeightsNotNormalized);
        }
        let s = WeightedSelector { ranges };
        assert(s.wf()) by {
            assert(ranges@.len() > 0) by {
                if rules@.len() == 0 {
                    assert(prefix_weight(rules@, 0) == 0);
                }
            }
        }
        Ok(s)
    }

    /// The index of the rule whose range holds `draw`.
    pub fn select(&self, draw: u8) -> (r: usize)
        requires
            self.wf(),
            1 <= draw <= 100,
        ensures
            self.covers(r as int, draw as int),
            r as int == self.pick(draw as int),
    {
        let n = self.ranges.len();
        let mut i: usize = 0;
        while self.ranges[i].high < draw
            invariant
                n == self.ranges@.len(),
                self.wf(),
                i < self.ranges@.len(),
                self.ranges@[i as int].low <= draw,
                1 <= draw <= 100,
            decreases self.ranges@.len() - i,
        {
            assert(i + 1 < self.ranges@.len());
            assert(self.ranges@[i + 1].low == self.ranges@[i as int].high + 1);
            i = i + 1;
        }
        proof {
            self.lemma_unique(i as int, self.pick(draw as int), draw as int);
        }
        i
    }

    /// Ranges of distinct rules are disjoint, and lie in increasing order.
    pub proof fn lemma_ordered(&self, i: int, j: int)
        requires
            self.wf(),
            0 <= i < j < self.ranges@.len(),
        ensures
            self.ranges@[i].high < self.ranges@[j].low,
        decreases j - i,
    {
        if j > i + 1 {
            self.lemma_ordered(i, j - 1);
        }
    }

    /// At most one rule covers a draw.
    pub proof fn lemma_unique(&self, i: int, j: int, d: int)
        requires
            self.wf(),
            self.covers(i, d),
        ensures
            self.covers(j, d) ==> i == j,
            self.pick(d) == i,
    {
        if self.covers(j, d) && i != j {
            if i < j {
                self.lemma_ordered(i, j);
            } else {
                self.lemma_ordered(j, i);
            }
        }
        let k = self.pick(d);
        if k != i {
            if i < k {
                self.lemma_ordered(i, k);
            } else {
                self.lemma_ordered(k, i);
            }
        }
    }

    /// Some rule covers every draw in `low(0)..=d`.
    proof fn lemma_covered_upto(&self, n: int, d: int)
        requires
            self.wf(),
            0 <= n < self.ranges@.len(),
            1 <= d <= self.ranges@[n].high,
        ensures
            exists|i: int| self.covers(i, d),
        decreases n,
    {
        if d >= self.ranges@[n].low {
            assert(self.covers(n, d));
        } else {
            self.lemma_covered_upto(n - 1, d);
        }
    }

    /// The ranges of a well-formed selector partition `1..=100`: every draw is
    /// covered by exactly one rule, and that rule is the one `pick` names.
    pub proof fn lemma_partition(&self, d: int)
        requires
            self.wf(),
            1 <= d <= 100,
        ensures
            self.covers(self.pick(d), d),
            forall|j: int| self.covers(j, d) ==> j == self.pick(d),
    {
        self.lemma_covered_upto(self.ranges@.len() - 1, d);
        let i = choose|i: int| self.covers(i, d);
        self.lemma_unique(i, i, d);
        assert forall|j: int| self.covers(j, d) implies j == self.pick(d) by {
            self.lemma_unique(i, j, d);
        }
    }
}

/// Weights add up to at least as much over a longer prefix.
pub proof fn lemma_prefix_weight_grows(rules: Seq<(String, u8)>, m: int, n: int)
    requires
        0 <= m <= n <= rules.len(),
    ensures
        prefix_weight(rules, m) <= prefix_weight(rules, n),
    decreases n - m,
{
    if m < n {
        lemma_prefix_weight_grows(rules, m, n - 1);
    }
}

} // verus!
