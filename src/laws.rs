use vstd::prelude::*;
use crate::text::{occurrence_count, occurs_at, rewrite, scan_stop};

verus! {

/// `out` is `src` with some non-overlapping occurrences of `p` replaced, in
/// order, by the texts `reps`, and every other character kept as it is.
pub open spec fn replaced_by(src: Seq<char>, out: Seq<char>, p: Seq<char>, reps: Seq<Seq<char>>) -> bool
    decreases src.len(),
{
    if src.len() == 0 {
        out.len() == 0 && reps.len() == 0
    } else {
        ||| (p.len() > 0 && occurs_at(src, p, 0) && reps.len() > 0 && out.len() >= reps[0].len()
            && out.take(reps[0].len() as int) == reps[0] && replaced_by(
            src.skip(p.len() as int),
            out.skip(reps[0].len() as int),
            p,
            reps.skip(1),
        ))
        ||| (out.len() > 0 && out[0] == src[0] && replaced_by(src.skip(1), out.skip(1), p, reps))
    }
}

/// A text stands for itself with nothing replaced.
pub proof fn lemma_replaced_identity(s: Seq<char>, p: Seq<char>)
    ensures
        replaced_by(s, s, p, seq![]),
    decreases s.len(),
{
    if s.len() > 0 {
        lemma_replaced_identity(s.skip(1), p);
    }
}

/// The left-to-right scan replaces occurrences and keeps everything else.
pub proof fn lemma_rewrite_replaced(s: Seq<char>, p: Seq<char>, reps: Seq<Seq<char>>)
    requires
        p.len() > 0,
        reps.len() == occurrence_count(s, p),
    ensures
        replaced_by(s, rewrite(s, p, reps), p, reps),
    decreases s.len(),
{
    let out = rewrite(s, p, reps);
    if s.len() < p.len() {
        lemma_replaced_identity(s, p);
        assert(reps =~= seq![]);
    } else if occurs_at(s, p, 0) {
        let rest = rewrite(s.skip(p.len() as int), p, reps.skip(1));
        lemma_rewrite_replaced(s.skip(p.len() as int), p, reps.skip(1));
        assert(out.take(reps[0].len() as int) =~= reps[0]);
        assert(out.skip(reps[0].len() as int) =~= rest);
    } else {
        lemma_rewrite_replaced(s.skip(1), p, reps);
        assert(out.skip(1) =~= rewrite(s.skip(1), p, reps));
    }
}

/// Replacing in two texts one after the other replaces in their concatenation.
pub proof fn lemma_replaced_concat(
    a: Seq<char>,
    x: Seq<char>,
    r1: Seq<Seq<char>>,
    b: Seq<char>,
    y: Seq<char>,
    r2: Seq<Seq<char>>,
    p: Seq<char>,
)
    requires
        replaced_by(a, x, p, r1),
        replaced_by(b, y, p, r2),
    ensures
        replaced_by(a + b, x + y, p, r1 + r2),
    decreases a.len(),
{
    if a.len() == 0 {
        assert(a + b =~= b);
        assert(x + y =~= y);
        assert(r1 + r2 =~= r2);
    } else {
        let ab = a + b;
        let xy = x + y;
        let rr = r1 + r2;
        if p.len() > 0 && occurs_at(a, p, 0) && r1.len() > 0 && x.len() >= r1[0].len() && x.take(
            r1[0].len() as int,
        ) == r1[0] && replaced_by(a.skip(p.len() as int), x.skip(r1[0].len() as int), p, r1.skip(1)) {
            let m = p.len() as int;
            let k = r1[0].len() as int;
            lemma_replaced_concat(a.skip(m), x.skip(k), r1.skip(1), b, y, r2, p);
            assert(ab.subrange(0, m) =~= a.subrange(0, m));
            assert(rr[0] == r1[0]);
            assert(xy.take(k) =~= x.take(k));
            assert(ab.skip(m) =~= a.skip(m) + b);
            assert(xy.skip(k) =~= x.skip(k) + y);
            assert(rr.skip(1) =~= r1.skip(1) + r2);
        } else {
            lemma_replaced_concat(a.skip(1), x.skip(1), r1, b, y, r2, p);
            assert(ab.skip(1) =~= a.skip(1) + b);
            assert(xy.skip(1) =~= x.skip(1) + y);
        }
    }
}

/// The scan stops within the text, fewer than `p.len()` characters from its end.
pub proof fn lemma_scan_stop_bounds(s: Seq<char>, p: Seq<char>)
    requires
        p.len() > 0,
    ensures
        0 <= scan_stop(s, p) <= s.len(),
        s.len() - scan_stop(s, p) < p.len(),
    decreases s.len(),
{
    if s.len() >= p.len() {
        if occurs_at(s, p, 0) {
            lemma_scan_stop_bounds(s.skip(p.len() as int), p);
        } else {
            lemma_scan_stop_bounds(s.skip(1), p);
        }
    }
}

/// Replacement texts beyond those the scan of `s` uses do not matter.
pub proof fn lemma_reps_prefix(s: Seq<char>, p: Seq<char>, r1: Seq<Seq<char>>, r2: Seq<Seq<char>>)
    requires
        p.len() > 0,
        r1.len() >= occurrence_count(s, p),
    ensures
        rewrite(s, p, r1 + r2) == rewrite(s, p, r1),
    decreases s.len(),
{
    if s.len() >= p.len() {
        if occurs_at(s, p, 0) {
            assert((r1 + r2)[0] == r1[0]);
            assert((r1 + r2).skip(1) =~= r1.skip(1) + r2);
            lemma_reps_prefix(s.skip(p.len() as int), p, r1.skip(1), r2);
        } else {
            lemma_reps_prefix(s.skip(1), p, r1, r2);
        }
    }
}

/// Whatever follows `s`, the scan of the longer text passes through the
/// offset `k` where the scan of `s` stops, and agrees with it up to there.
pub proof fn lemma_scan_split(s: Seq<char>, t: Seq<char>, p: Seq<char>, reps: Seq<Seq<char>>)
    requires
        p.len() > 0,
        reps.len() >= occurrence_count(s + t, p),
    ensures
        ({
            let k = scan_stop(s, p);
            let c = occurrence_count(s.take(k), p) as int;
            &&& rewrite(s + t, p, reps) == rewrite(s.take(k), p, reps) + rewrite(s.skip(k) + t, p, reps.skip(c))
            &&& occurrence_count(s + t, p) == c + occurrence_count(s.skip(k) + t, p)
            &&& scan_stop(s + t, p) == k + scan_stop(s.skip(k) + t, p)
        }),
    decreases s.len(),
{
    let m = p.len() as int;
    let k = scan_stop(s, p);
    let st = s + t;
    if s.len() < m {
        assert(s.take(0) =~= Seq::<char>::empty());
        assert(s.skip(0) =~= s);
        assert(reps.skip(0) =~= reps);
        assert(rewrite(s.take(0), p, reps) =~= Seq::<char>::empty());
    } else {
        assert(st.subrange(0, m) =~= s.subrange(0, m));
        if occurs_at(s, p, 0) {
            let s2 = s.skip(m);
            let k2 = scan_stop(s2, p);
            assert(st.skip(m) =~= s2 + t);
            assert(occurs_at(st, p, 0));
            lemma_scan_split(s2, t, p, reps.skip(1));
            lemma_scan_stop_bounds(s2, p);
            let h = s.take(k);
            assert(h.subrange(0, m) =~= s.subrange(0, m));
            assert(h.skip(m) =~= s2.take(k2));
            assert(s.skip(k) =~= s2.skip(k2));
            let c2 = occurrence_count(s2.take(k2), p) as int;
            assert(reps.skip(1).skip(c2) =~= reps.skip(1 + c2));
        } else {
            let s2 = s.skip(1);
            let k2 = scan_stop(s2, p);
            assert(st.skip(1) =~= s2 + t);
            assert(!occurs_at(st, p, 0));
            lemma_scan_split(s2, t, p, reps);
            lemma_scan_stop_bounds(s2, p);
            let h = s.take(k);
            assert(s.skip(k) =~= s2.skip(k2));
            if k >= m {
                assert(h.subrange(0, m) =~= s.subrange(0, m));
                assert(h.skip(1) =~= s2.take(k2));
            } else {
                assert(h =~= seq![s[0]] + s2.take(k2));
                assert(rewrite(h, p, reps) == h);
                assert(rewrite(s2.take(k2), p, reps) == s2.take(k2));
            }
        }
    }
}

/// The counting half of `lemma_scan_split`, for any following text.
pub proof fn lemma_scan_split_count(s: Seq<char>, t: Seq<char>, p: Seq<char>)
    requires
        p.len() > 0,
    ensures
        ({
            let k = scan_stop(s, p);
            &&& occurrence_count(s + t, p) == occurrence_count(s.take(k), p) + occurrence_count(s.skip(k) + t, p)
            &&& scan_stop(s + t, p) == k + scan_stop(s.skip(k) + t, p)
        }),
{
    let n = occurrence_count(s + t, p);
    lemma_scan_split(s, t, p, Seq::new(n, |i: int| Seq::<char>::empty()));
}

} // verus!
