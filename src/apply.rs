use vstd::prelude::*;
use crate::log::{tally, ReplacementLog};
use crate::selector::WeightedSelector;
use crate::text::{matches_at, occurrence_count, occurs_at, pattern_free, push_all, rewrite, scan_stop};

verus! {

/// One step of the left-to-right scan at offset `i` of `s`.
pub proof fn lemma_scan_step(s: Seq<char>, p: Seq<char>, i: int, reps: Seq<Seq<char>>)
    requires
        p.len() > 0,
        0 <= i < s.len(),
    ensures
        occurs_at(s, p, i) ==> {
            &&& scan_stop(s.skip(i), p) == p.len() + scan_stop(s.skip(i + p.len()), p)
            &&& rewrite(s.skip(i), p, reps) == reps[0] + rewrite(s.skip(i + p.len()), p, reps.skip(1))
            &&& occurrence_count(s.skip(i), p) == 1 + occurrence_count(s.skip(i + p.len()), p)
        },
        !occurs_at(s, p, i) && s.len() - i >= p.len() ==> scan_stop(s.skip(i), p) == 1 + scan_stop(
            s.skip(i + 1),
            p,
        ),
        !occurs_at(s, p, i) ==> {
            &&& rewrite(s.skip(i), p, reps) == seq![s[i]] + rewrite(s.skip(i + 1), p, reps)
            &&& occurrence_count(s.skip(i), p) == occurrence_count(s.skip(i + 1), p)
        },
{
    let t = s.skip(i);
    if t.len() >= p.len() {
        assert(t.subrange(0, p.len() as int) =~= s.subrange(i, i + p.len()));
        assert(t.skip(p.len() as int) =~= s.skip(i + p.len()));
    }
    assert(t.skip(1) =~= s.skip(i + 1));
    if t.len() < p.len() {
        lemma_short_unchanged(s.skip(i + 1), p, reps);
        assert(t =~= seq![s[i]] + s.skip(i + 1));
    }
}

/// A text shorter than the pattern is left as it is.
pub proof fn lemma_short_unchanged(s: Seq<char>, p: Seq<char>, reps: Seq<Seq<char>>)
    requires
        s.len() < p.len(),
    ensures
        rewrite(s, p, reps) == s,
        occurrence_count(s, p) == 0,
{
}

/// A scan never replaces more occurrences than the text has characters.
pub proof fn lemma_count_le_len(s: Seq<char>, p: Seq<char>)
    ensures
        occurrence_count(s, p) <= s.len(),
    decreases s.len(),
{
    if p.len() > 0 && s.len() >= p.len() {
        if occurs_at(s, p, 0) {
            lemma_count_le_len(s.skip(p.len() as int), p);
        } else {
            lemma_count_le_len(s.skip(1), p);
        }
    }
}

/// Number of occurrences that the left-to-right scan replaces in `seg`.
pub fn count_occurrences(seg: &Vec<char>, pat: &Vec<char>) -> (r: usize)
    requires
        pat@.len() > 0,
    ensures
        r == occurrence_count(seg@, pat@),
{
    let n = seg.len();
    let mut i: usize = 0;
    let mut c: usize = 0;
    assert(seg@.skip(0) =~= seg@);
    while i < n
        invariant
            n == seg@.len(),
            pat@.len() > 0,
            i <= n,
            c <= i,
            c + occurrence_count(seg@.skip(i as int), pat@) == occurrence_count(seg@, pat@),
        decreases n - i,
    {
        proof {
            lemma_scan_step(seg@, pat@, i as int, seq![]);
        }
        if matches_at(seg, pat, i) {
            c = c + 1;
            i = i + pat.len();
        } else {
            i = i + 1;
        }
    }
    assert(seg@.skip(0) =~= seg@);
    c
}

/// Offset at which the left-to-right scan of `seg` stops for want of text.
pub fn scan_stop_of(seg: &Vec<char>, pat: &Vec<char>) -> (r: usize)
    requires
        pat@.len() > 0,
    ensures
        r == scan_stop(seg@, pat@),
{
    let n = seg.len();
    let m = pat.len();
    let mut i: usize = 0;
    assert(seg@.skip(0) =~= seg@);
    while i < n && n - i >= m
        invariant
            n == seg@.len(),
            m == pat@.len(),
            m > 0,
            i <= n,
            i + scan_stop(seg@.skip(i as int), pat@) == scan_stop(seg@, pat@),
        decreases n - i,
    {
        proof {
            lemma_scan_step(seg@, pat@, i as int, seq![]);
        }
        if matches_at(seg, pat, i) {
            i = i + m;
        } else {
            i = i + 1;
        }
    }
    assert(seg@.skip(i as int).len() < m);
    i
}

/// Replaces the occurrences that a left-to-right scan of `seg` finds, the
/// `k`-th by the rule that `draws[k]` selects, and credits each rule in `log`.
/// The scan resumes after each replaced occurrence, so a replacement text is
/// never searched again and the work always ends.
pub fn apply_draws(
    seg: &Vec<char>,
    pat: &Vec<char>,
    sel: &WeightedSelector,
    draws: &Vec<u8>,
    log: &mut ReplacementLog,
) -> (r: Vec<char>)
    requires
        pat@.len() > 0,
        sel.wf(),
        old(log).wf(),
        old(log).fits(sel),
        draws@.len() == occurrence_count(seg@, pat@),
        forall|k: int| 0 <= k < draws@.len() ==> 1 <= #[trigger] draws@[k] <= 100,
        old(log).total + draws@.len() <= u64::MAX,
    ensures
        r@ == rewrite(seg@, pat@, sel.texts_for(draws@)),
        final(log).wf(),
        final(log).texts == old(log).texts,
        final(log).total == old(log).total + draws@.len(),
        forall|i: int|
            0 <= i < final(log).counts@.len() ==> #[trigger] final(log).counts@[i] == old(log).counts@[i]
                + tally(sel.picks(draws@), i),
{
    let ghost reps = sel.texts_for(draws@);
    let ghost picks = sel.picks(draws@);
    let n = seg.len();
    let dn = draws.len();
    let mut out: Vec<char> = Vec::new();
    let mut i: usize = 0;
    let mut k: usize = 0;
    assert(seg@.skip(0) =~= seg@);
    assert(reps.skip(0) =~= reps);
    while i < n
        invariant
            n == seg@.len(),
            dn == draws@.len(),
            pat@.len() > 0,
            sel.wf(),
            reps == sel.texts_for(draws@),
            picks == sel.picks(draws@),
            forall|k: int| 0 <= k < draws@.len() ==> 1 <= #[trigger] draws@[k] <= 100,
            i <= n,
            k + occurrence_count(seg@.skip(i as int), pat@) == draws@.len(),
            out@ + rewrite(seg@.skip(i as int), pat@, reps.skip(k as int)) == rewrite(seg@, pat@, reps),
            log.wf(),
            log.fits(sel),
            log.texts == old(log).texts,
            log.total == old(log).total + k,
            old(log).total + draws@.len() <= u64::MAX,
            log.counts@.len() == old(log).counts@.len(),
            forall|j: int|
                0 <= j < log.counts@.len() ==> #[trigger] log.counts@[j] == old(log).counts@[j] + tally(
                    picks.take(k as int),
                    j,
                ),
        decreases n - i,
    {
        proof {
            lemma_scan_step(seg@, pat@, i as int, reps.skip(k as int));
        }
        if matches_at(seg, pat, i) {
            let ri = sel.select(draws[k]);
            push_all(&mut out, &sel.ranges[ri].text);
            let ghost before = log.counts@;
            proof {
                crate::log::lemma_entry_le_sum(before, ri as int);
            }
            log.record(ri);
            proof {
                assert(reps.skip(k as int)[0] == reps[k as int]);
                assert(reps.skip(k as int).skip(1) =~= reps.skip(k + 1));
                assert(picks.take(k + 1).drop_last() =~= picks.take(k as int));
                assert(picks[k as int] == ri as int);
                assert(log.counts@ == before.update(ri as int, (before[ri as int] + 1) as u64));
                assert(picks.take(k + 1).last() == picks[k as int]);
                assert forall|j: int| 0 <= j < log.counts@.len() implies #[trigger] log.counts@[j]
                    == old(log).counts@[j] + tally(picks.take(k + 1), j) by {
                    assert(log.counts@[j] == before[j] + if j == ri as int { 1int } else { 0int });
                }
                assert(out@ + rewrite(seg@.skip(i + pat@.len()), pat@, reps.skip(k + 1)) =~= rewrite(
                    seg@,
                    pat@,
                    reps,
                ));
            }
            i = i + pat.len();
            k = k + 1;
        } else {
            out.push(seg[i]);
            i = i + 1;
            assert(out@ + rewrite(seg@.skip(i as int), pat@, reps.skip(k as int)) =~= rewrite(
                seg@,
                pat@,
                reps,
            ));
        }
    }
    proof {
        assert(seg@.skip(n as int) =~= Seq::<char>::empty());
        assert(picks.take(k as int) =~= picks);
        assert(out@ =~= out@ + Seq::<char>::empty());
    }
    out
}

/// `out` and `after` are what `apply_draws` gives on `seg` and `before` for
/// the draws `ds`: one valid draw per occurrence.
pub open spec fn applied_with(
    sel: WeightedSelector,
    seg: Seq<char>,
    p: Seq<char>,
    ds: Seq<u8>,
    out: Seq<char>,
    before: ReplacementLog,
    after: ReplacementLog,
) -> bool {
    &&& ds.len() == occurrence_count(seg, p)
    &&& forall|k: int| 0 <= k < ds.len() ==> 1 <= #[trigger] ds[k] <= 100
    &&& out == rewrite(seg, p, sel.texts_for(ds))
    &&& after.total == before.total + ds.len()
    &&& after.counts@.len() == before.counts@.len()
    &&& forall|i: int|
        0 <= i < after.counts@.len() ==> #[trigger] after.counts@[i] == before.counts@[i] + tally(sel.picks(ds), i)
}

/// Relies on `rand::thread_rng` and `Rng::gen_range` over `1..=100`: a draw
/// from that non-empty range, which therefore does not panic.
#[verifier::external_body]
fn draw_percent() -> (r: u8)
    ensures
        1 <= r <= 100,
{
    rand::Rng::gen_range(&mut rand::thread_rng(), 1..=100u8)
}

/// Replaces the occurrences that a left-to-right scan of `seg` finds, each by
/// the rule that a fresh uniform draw in `1..=100` selects, and credits the
/// chosen rules in `log`. Whatever the draws, the result is that of
/// `apply_draws` on some valid draws, one per occurrence.
pub fn apply(seg: &Vec<char>, pat: &Vec<char>, sel: &WeightedSelector, log: &mut ReplacementLog) -> (r: Vec<char>)
    requires
        pat@.len() > 0,
        sel.wf(),
        old(log).wf(),
        old(log).fits(sel),
        old(log).total + seg@.len() <= u64::MAX,
    ensures
        final(log).wf(),
        final(log).texts == old(log).texts,
        exists|ds: Seq<u8>| #[trigger] applied_with(*sel, seg@, pat@, ds, r@, *old(log), *final(log)),
{
    let n = count_occurrences(seg, pat);
    proof {
        lemma_count_le_len(seg@, pat@);
    }
    let mut draws: Vec<u8> = Vec::new();
    while draws.len() < n
        invariant
            draws@.len() <= n,
            forall|k: int| 0 <= k < draws@.len() ==> 1 <= #[trigger] draws@[k] <= 100,
        decreases n - draws@.len(),
    {
        let d = draw_percent();
        draws.push(d);
    }
    let r = apply_draws(seg, pat, sel, &draws, log);
    assert(applied_with(*sel, seg@, pat@, draws@, r@, *old(log), *log));
    r
}

/// A text in which the pattern does not occur is left as it is by the scan.
pub proof fn lemma_free_unchanged(s: Seq<char>, p: Seq<char>, reps: Seq<Seq<char>>)
    requires
        p.len() > 0,
        pattern_free(s, p),
    ensures
        rewrite(s, p, reps) == s,
        occurrence_count(s, p) == 0,
    decreases s.len(),
{
    if s.len() >= p.len() {
        assert(!occurs_at(s, p, 0));
        assert forall|i: int| !#[trigger] occurs_at(s.skip(1), p, i) by {
            if occurs_at(s.skip(1), p, i) {
                assert(s.subrange(i + 1, i + 1 + p.len()) =~= s.skip(1).subrange(i, i + p.len()));
                assert(occurs_at(s, p, i + 1));
            }
        }
        lemma_free_unchanged(s.skip(1), p, reps);
        assert(s =~= seq![s[0]] + s.skip(1));
    }
}

/// Applying the rules to a segment in which the pattern does not occur leaves
/// the segment and every count of the log as they were.
pub proof fn lemma_apply_idempotent(
    sel: WeightedSelector,
    seg: Seq<char>,
    p: Seq<char>,
    ds: Seq<u8>,
    out: Seq<char>,
    before: ReplacementLog,
    after: ReplacementLog,
)
    requires
        p.len() > 0,
        pattern_free(seg, p),
        applied_with(sel, seg, p, ds, out, before, after),
    ensures
        out == seg,
        after.counts@ == before.counts@,
        after.total == before.total,
{
    lemma_free_unchanged(seg, p, sel.texts_for(ds));
    assert(sel.picks(ds).len() == 0);
    assert(after.counts@ =~= before.counts@);
}

} // verus!
