use vstd::prelude::*;
use crate::selector::WeightedSelector;

verus! {

/// Sum of a sequence of counts.
pub open spec fn seq_sum(s: Seq<u64>) -> int
    decreases s.len(),
{
    if s.len() == 0 {
        0
    } else {
        seq_sum(s.drop_last()) + s.last() as int
    }
}

/// How many entries of `s` equal `i`.
pub open spec fn tally(s: Seq<int>, i: int) -> nat
    decreases s.len(),
{
    if s.len() == 0 {
        0
    } else {
        tally(s.drop_last(), i) + if s.last() == i { 1nat } else { 0nat }
    }
}

/// Sum of the first `n` counts whose text is `t`.
pub open spec fn text_count(texts: Seq<String>, counts: Seq<u64>, t: Seq<char>, n: int) -> int
    decreases n,
{
    if n <= 0 {
        0
    } else {
        text_count(texts, counts, t, n - 1) + if texts[n - 1]@ == t { counts[n - 1] as int } else { 0int }
    }
}

/// How many replacements were credited to each rule, with their sum.
///
/// Entry `i` belongs to rule `i` of the selector.
#[derive(Debug, Clone)]
pub struct ReplacementLog {
    pub texts: Vec<String>,
    pub counts: Vec<u64>,
    pub total: u64,
}

impl ReplacementLog {
    /// A log with no entries.
    pub fn empty() -> (r: ReplacementLog)
        ensures
            r.wf(),
            r.total == 0,
            r.texts@.len() == 0,
    {
        ReplacementLog { texts: Vec::new(), counts: Vec::new(), total: 0 }
    }

    /// One count per text, and `total` is their sum.
    pub open spec fn wf(&self) -> bool {
        &&& self.texts@.len() == self.counts@.len()
        &&& self.total as int == seq_sum(self.counts@)
    }

    /// The entries are the rules of `sel`, in order.
    pub open spec fn fits(&self, sel: &WeightedSelector) -> bool {
        &&& self.texts@.len() == sel.ranges@.len()
        &&& forall|i: int| 0 <= i < self.texts@.len() ==> #[trigger] self.texts@[i]@ == sel.ranges@[i].text@
    }

    /// A log with the text of every rule at zero.
    pub fn zeroed(rules: &Vec<(String, u8)>) -> (r: ReplacementLog)
        ensures
            r.wf(),
            r.total == 0,
            r.texts@.len() == rules@.len(),
            forall|i: int| 0 <= i < rules@.len() ==> #[trigger] r.texts@[i]@ == rules@[i].0@ && r.counts@[i] == 0,
    {
        let texts = rules;
        let mut out: Vec<String> = Vec::new();
        let mut counts: Vec<u64> = Vec::new();
        let mut i: usize = 0;
        while i < texts.len()
            invariant
                i <= texts@.len(),
                out@.len() == i,
                counts@ == Seq::new(i as nat, |j: int| 0u64),
                forall|j: int| 0 <= j < i ==> #[trigger] out@[j]@ == texts@[j].0@,
            decreases texts@.len() - i,
        {
            out.push(texts[i].0.clone());
            counts.push(0);
            i = i + 1;
            assert(counts@ =~= Seq::new(i as nat, |j: int| 0u64));
        }
        proof {
            lemma_sum_zeros(i as nat);
        }
        ReplacementLog { texts: out, counts, total: 0 }
    }

    /// Credits one replacement to entry `i`.
    pub fn record(&mut self, i: usize)
        requires
            old(self).wf(),
            i < old(self).counts@.len(),
            old(self).total < u64::MAX,
        ensures
            final(self).wf(),
            final(self).texts == old(self).texts,
            final(self).counts@ == old(self).counts@.update(i as int, (old(self).counts@[i as int] + 1) as u64),
            final(self).total == old(self).total + 1,
    {
        proof {
            lemma_entry_le_sum(self.counts@, i as int);
            lemma_sum_bump(self.counts@, i as int);
        }
        self.counts.set(i, self.counts[i] + 1);
        self.total = self.total + 1;
    }

    /// Number of replacements made with `text`, over all rules that have it.
    pub fn count_for(&self, text: &String) -> (r: u64)
        requires
            self.wf(),
        ensures
            r as int == text_count(self.texts@, self.counts@, text@, self.texts@.len() as int),
    {
        let n = self.texts.len();
        let mut acc: u64 = 0;
        let mut i: usize = 0;
        while i < n
            invariant
                self.wf(),
                n == self.texts@.len(),
                i <= n,
                acc as int == text_count(self.texts@, self.counts@, text@, i as int),
                acc <= seq_sum(self.counts@.take(i as int)),
            decreases n - i,
        {
            proof {
                lemma_prefix_sum_le(self.counts@, i + 1);
                assert(self.counts@.take(i + 1).drop_last() =~= self.counts@.take(i as int));
            }
            if self.texts[i] == *text {
                acc = acc + self.counts[i];
            }
            i = i + 1;
        }
        acc
    }
}

proof fn lemma_sum_zeros(n: nat)
    ensures
        seq_sum(Seq::new(n, |j: int| 0u64)) == 0,
    decreases n,
{
    if n > 0 {
        assert(Seq::new(n, |j: int| 0u64).drop_last() =~= Seq::new((n - 1) as nat, |j: int| 0u64));
        lemma_sum_zeros((n - 1) as nat);
    }
}

/// The counts of a prefix add up to at most the sum of all.
pub proof fn lemma_prefix_sum_le(s: Seq<u64>, i: int)
    requires
        0 <= i <= s.len(),
    ensures
        seq_sum(s.take(i)) <= seq_sum(s),
    decreases s.len(),
{
    if i == s.len() {
        assert(s.take(i) =~= s);
    } else {
        assert(s.take(i) =~= s.drop_last().take(i));
        lemma_prefix_sum_le(s.drop_last(), i);
    }
}

/// Tallies of two sequences add up to the tally of their concatenation.
pub proof fn lemma_tally_concat(a: Seq<int>, b: Seq<int>, i: int)
    ensures
        tally(a + b, i) == tally(a, i) + tally(b, i),
    decreases b.len(),
{
    if b.len() > 0 {
        assert((a + b).drop_last() =~= a + b.drop_last());
        lemma_tally_concat(a, b.drop_last(), i);
    } else {
        assert(a + b =~= a);
    }
}

/// A single count is at most the sum.
pub proof fn lemma_entry_le_sum(s: Seq<u64>, i: int)
    requires
        0 <= i < s.len(),
    ensures
        s[i] <= seq_sum(s),
    decreases s.len(),
{
    if i < s.len() - 1 {
        lemma_entry_le_sum(s.drop_last(), i);
    }
    lemma_sum_nonneg(s.drop_last());
}

/// A sum of counts is never negative.
pub proof fn lemma_sum_nonneg(s: Seq<u64>)
    ensures
        seq_sum(s) >= 0,
    decreases s.len(),
{
    if s.len() > 0 {
        lemma_sum_nonneg(s.drop_last());
    }
}

/// Raising one count by one raises the sum by one.
pub proof fn lemma_sum_bump(s: Seq<u64>, i: int)
    requires
        0 <= i < s.len(),
        s[i] < u64::MAX,
    ensures
        seq_sum(s.update(i, (s[i] + 1) as u64)) == seq_sum(s) + 1,
    decreases s.len(),
{
    let t = s.update(i, (s[i] + 1) as u64);
    if i < s.len() - 1 {
        assert(t.drop_last() =~= s.drop_last().update(i, (s[i] + 1) as u64));
        lemma_sum_bump(s.drop_last(), i);
    } else {
        assert(t.drop_last() =~= s.drop_last());
    }
}

} // verus!
