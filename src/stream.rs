use vstd::prelude::*;
use vstd::utf8::{decode_utf8, length_of_first_scalar, pop_first_scalar, valid_utf8};
use crate::apply::{applied_with, apply, scan_stop_of};
use crate::config::ReplaceConfig;
use crate::laws::{
    lemma_replaced_concat, lemma_replaced_identity, lemma_reps_prefix, lemma_rewrite_replaced, lemma_scan_split,
    lemma_scan_split_count, lemma_scan_stop_bounds, replaced_by,
};
use crate::log::{lemma_entry_le_sum, lemma_tally_concat, tally, ReplacementLog};
use crate::selector::{ConfigError, WeightedSelector};
use crate::text::{chars_of, occurrence_count, push_all, rewrite, scan_stop, slice_of, string_of};

verus! {

/// Why a run stopped before the end of its source.
#[derive(Debug, Clone, Copy, PartialEq, Eq, Structural)]
pub enum StreamError {
    /// The bytes of a read are not valid UTF-8.
    DecodeError,
    /// The replacement counts would no longer fit in 64 bits.
    CounterOverflow,
}

/// Relies on `String::from_utf8`: it succeeds exactly on well-formed UTF-8,
/// whose characters it holds, decoded scalar by scalar.
#[verifier::external_body]
fn decode_text(b: &Vec<u8>) -> (r: Option<String>)
    ensures
        r is Some <==> valid_utf8(b@),
        r matches Some(t) ==> t@ == decode_utf8(b@),
{
    String::from_utf8(b.clone()).ok()
}

/// Decoding UTF-8 never gives more characters than there are bytes.
pub proof fn lemma_decode_len(b: Seq<u8>)
    requires
        valid_utf8(b),
    ensures
        decode_utf8(b).len() <= b.len(),
    decreases b.len(),
{
    if b.len() > 0 {
        let k = length_of_first_scalar(b);
        assert(1 <= k <= 4);
        assert(pop_first_scalar(b).len() == b.len() - k);
        lemma_decode_len(pop_first_scalar(b));
    }
}

/// The boundary-safe chunker: the decisions of one streaming run.
///
/// The caller reads at most `read_size()` bytes at a time and hands them to
/// `on_read`, pushes each segment it returns, in order, and at the end of the
/// source calls `finish`. The ghost fields record all text decoded so far,
/// all text handed out, the replacement texts used, in order, and the rules
/// they came from.
pub struct Chunker {
    pub config: ReplaceConfig,
    pub carry: Vec<char>,
    pub capacity: usize,
    pub seen: Ghost<Seq<char>>,
    pub emitted: Ghost<Seq<char>>,
    pub used: Ghost<Seq<Seq<char>>>,
    pub picked: Ghost<Seq<int>>,
}

impl Chunker {
    /// Offset in `seen` where the carry begins.
    pub open spec fn cut(&self) -> int {
        self.seen@.len() - self.carry@.len()
    }

    /// The carry is the tail of what was read, from the offset where a
    /// left-to-right scan of all that was read stops for want of text; what
    /// came before it has been handed out with some occurrences replaced, one
    /// count per replacement; and, with rules given, exactly as one scan of
    /// that text replaces them.
    pub open spec fn wf(&self) -> bool {
        let p = self.config.pattern@;
        &&& self.config.wf()
        &&& p.len() <= self.capacity
        &&& self.carry@.len() <= self.seen@.len()
        &&& self.seen@.skip(self.cut()) == self.carry@
        &&& self.cut() == scan_stop(self.seen@, p)
        &&& replaced_by(self.seen@.take(self.cut()), self.emitted@, p, self.used@)
        &&& self.used@.len() == self.config.log.total
        &&& self.config.selector is Some ==> {
            &&& self.emitted@ == rewrite(self.seen@.take(self.cut()), p, self.used@)
            &&& self.used@.len() == occurrence_count(self.seen@.take(self.cut()), p)
        }
        &&& self.config.selector matches Some(sel) ==> self.credited(sel)
    }

    /// Each replacement text used is that of the rule picked for it, and the
    /// log counts for each rule how often it was picked.
    pub open spec fn credited(&self, sel: WeightedSelector) -> bool {
        &&& self.used@ == sel.texts_of(self.picked@)
        &&& forall|i: int|
            0 <= i < self.config.log.counts@.len() ==> #[trigger] self.config.log.counts@[i] == tally(
                self.picked@,
                i,
            )
    }

    /// A chunker at the start of a run; the pattern must fit in `capacity`.
    pub fn new(config: ReplaceConfig, capacity: usize) -> (r: Result<Chunker, ConfigError>)
        requires
            config.wf(),
            config.log.total == 0,
        ensures
            r is Err <==> config.pattern@.len() > capacity,
            r is Err ==> r == Err::<Chunker, ConfigError>(ConfigError::PatternTooLong),
            r matches Ok(c) ==> (c.wf() && c.config == config && c.capacity == capacity && c.carry@.len() == 0
                && c.seen@.len() == 0 && c.emitted@.len() == 0 && c.used@.len() == 0),
    {
        if config.pattern.len() > capacity {
            return Err(ConfigError::PatternTooLong);
        }
        let c = Chunker {
            config,
            carry: Vec::new(),
            capacity,
            seen: Ghost(Seq::empty()),
            emitted: Ghost(Seq::empty()),
            used: Ghost(Seq::empty()),
            picked: Ghost(Seq::empty()),
        };
        proof {
            assert forall|i: int| 0 <= i < c.config.log.counts@.len() implies #[trigger] c.config.log.counts@[i]
                == tally(c.picked@, i) by {
                lemma_entry_le_sum(c.config.log.counts@, i);
            }
            if c.config.selector is Some {
                let sel = c.config.selector->0;
                assert(c.used@ =~= sel.texts_of(c.picked@));
            }
        }
        assert(c.seen@.take(0) =~= Seq::<char>::empty());
        assert(c.seen@.skip(0) =~= c.carry@);
        Ok(c)
    }

    /// How many bytes the next read may take: what keeps carry and read within
    /// `capacity`, and never less than the pattern's length.
    pub fn read_size(&self) -> (r: usize)
        requires
            self.wf(),
        ensures
            r >= self.config.pattern@.len() >= 1,
            self.carry@.len() + self.config.pattern@.len() <= self.capacity ==> r == self.capacity
                - self.carry@.len(),
    {
        let m = self.config.pattern.len();
        if self.carry.len() <= self.capacity - m {
            self.capacity - self.carry.len()
        } else {
            m
        }
    }

    /// Takes the bytes of one read. Decodes them, joins them to the carry,
    /// cuts the result where its left-to-right scan stops for want of text,
    /// keeps the tail (shorter than the pattern) as the new carry, and returns
    /// the head as the segment to push: with its occurrences replaced where
    /// rules exist, else unchanged. The head is the text between the old cut
    /// and the new one, which never moves back, so segments follow the source
    /// in order, none dropped or repeated. `None` when
    /// the head is empty. On an error nothing changes. Where the buffer holds
    /// the pattern about twice and the read took at most `read_size()` bytes,
    /// carry and pattern still fit in the buffer afterwards.
    pub fn on_read(&mut self, bytes: &Vec<u8>) -> (r: Result<Option<String>, StreamError>)
        requires
            old(self).wf(),
        ensures
            final(self).wf(),
            final(self).config.pattern == old(self).config.pattern,
            final(self).config.selector == old(self).config.selector,
            final(self).capacity == old(self).capacity,
            r == Err::<Option<String>, StreamError>(StreamError::DecodeError) <==> !valid_utf8(bytes@),
            r == Err::<Option<String>, StreamError>(StreamError::CounterOverflow) <==> (valid_utf8(bytes@)
                && old(self).config.log.total + old(self).carry@.len() + decode_utf8(bytes@).len() > u64::MAX),
            r is Err ==> *final(self) == *old(self),
            2 * old(self).config.pattern@.len() <= old(self).capacity + 1 && old(self).carry@.len()
                + old(self).config.pattern@.len() <= old(self).capacity && bytes@.len() <= old(self).capacity
                - old(self).carry@.len() ==> final(self).carry@.len()
                + final(self).config.pattern@.len() <= final(self).capacity,
            r is Ok ==> ({
                let p = old(self).config.pattern@;
                let combined = old(self).carry@ + decode_utf8(bytes@);
                let k = scan_stop(combined, p);
                let head = combined.take(k);
                let seg = final(self).emitted@.skip(old(self).emitted@.len() as int);
                &&& final(self).seen@ == old(self).seen@ + decode_utf8(bytes@)
                &&& final(self).carry@ == combined.skip(k)
                &&& old(self).cut() <= final(self).cut()
                &&& head == final(self).seen@.subrange(old(self).cut(), final(self).cut())
                &&& final(self).emitted@ == old(self).emitted@ + seg
                &&& (r matches Ok(Some(t)) ==> t@ == seg && seg.len() > 0)
                &&& (r == Ok::<Option<String>, StreamError>(None) ==> seg.len() == 0)
                &&& if old(self).config.selector is Some {
                    exists|ds: Seq<u8>|
                        #[trigger] applied_with(
                            old(self).config.selector->0,
                            head,
                            p,
                            ds,
                            seg,
                            old(self).config.log,
                            final(self).config.log,
                        )
                } else {
                    seg == head && final(self).config.log == old(self).config.log
                }
            }),
    {
        let decoded = match decode_text(bytes) {
            Some(t) => chars_of(&t),
            None => return Err(StreamError::DecodeError),
        };
        let room: u64 = u64::MAX - self.config.log.total;
        if (self.carry.len() as u128) + (decoded.len() as u128) > (room as u128) {
            return Err(StreamError::CounterOverflow);
        }
        let ghost old_self = *self;
        proof {
            lemma_decode_len(bytes@);
        }
        let ghost p = self.config.pattern@;
        let mut combined: Vec<char> = Vec::new();
        push_all(&mut combined, &self.carry);
        push_all(&mut combined, &decoded);
        let split = scan_stop_of(&combined, &self.config.pattern);
        proof {
            lemma_scan_stop_bounds(combined@, p);
        }
        let head = slice_of(&combined, 0, split);
        let tail = slice_of(&combined, split, combined.len());
        let ghost mut reps: Seq<Seq<char>> = seq![];
        let ghost mut picks: Seq<int> = seq![];
        let seg: Vec<char> = match &self.config.selector {
            Some(sel) => {
                let out = apply(&head, &self.config.pattern, sel, &mut self.config.log);
                proof {
                    let ds = choose|ds: Seq<u8>|
                        #[trigger] applied_with(*sel, head@, p, ds, out@, old_self.config.log, self.config.log);
                    reps = sel.texts_for(ds);
                    picks = sel.picks(ds);
                    assert(reps =~= sel.texts_of(picks));
                    lemma_rewrite_replaced(head@, p, reps);
                }
                out
            },
            None => {
                proof {
                    lemma_replaced_identity(head@, p);
                }
                head
            },
        };
        proof {
            let cut = old_self.cut();
            let new_seen = old_self.seen@ + decoded@;
            assert(old_self.seen@ =~= old_self.seen@.take(cut) + old_self.carry@);
            assert(new_seen.take(cut + split) =~= old_self.seen@.take(cut) + head@);
            assert(new_seen.skip(cut + split) =~= tail@);
            lemma_replaced_concat(
                old_self.seen@.take(cut),
                old_self.emitted@,
                old_self.used@,
                head@,
                seg@,
                reps,
                p,
            );
            let a = old_self.seen@.take(cut);
            assert(old_self.seen@.skip(cut) + decoded@ =~= combined@);
            lemma_scan_split_count(old_self.seen@, decoded@, p);
            let e = Seq::<char>::empty();
            assert(combined@ + e =~= combined@);
            assert(new_seen + e =~= new_seen);
            assert(tail@ + e =~= tail@);
            assert(combined@.take(split as int) =~= head@);
            assert(combined@.skip(split as int) =~= tail@);
            lemma_scan_split_count(combined@, e, p);
            lemma_scan_split_count(new_seen, e, p);
            lemma_scan_stop_bounds(new_seen, p);
            assert(new_seen.skip(cut + split) =~= tail@);
            assert(new_seen.subrange(cut, cut + split) =~= head@);
            if old_self.config.selector is Some {
                let w = old_self.used@ + reps;
                lemma_scan_split(old_self.seen@, decoded@, p, w);
                lemma_scan_split(combined@, e, p, reps);
                lemma_scan_split(new_seen, e, p, w);
                lemma_reps_prefix(a, p, old_self.used@, reps);
                assert(w.skip(old_self.used@.len() as int) =~= reps);
                let x = rewrite(new_seen.take(cut + split), p, w);
                let y = old_self.emitted@ + seg@;
                assert(x + tail@ == y + tail@);
                assert(x =~= (x + tail@).take(x.len() as int));
                assert(y =~= (y + tail@).take(y.len() as int));
            }
        }
        self.seen = Ghost(self.seen@ + decoded@);
        self.emitted = Ghost(self.emitted@ + seg@);
        self.used = Ghost(self.used@ + reps);
        self.picked = Ghost(self.picked@ + picks);
        proof {
            if self.config.selector is Some {
                let sel = self.config.selector->0;
                assert(self.used@ =~= sel.texts_of(self.picked@));
                assert forall|i: int| 0 <= i < self.config.log.counts@.len() implies #[trigger] self.config.log.counts@[i]
                    == tally(self.picked@, i) by {
                    lemma_tally_concat(old_self.picked@, picks, i);
                }
            }
        }
        self.carry = tail;
        assert(self.emitted@.skip(old_self.emitted@.len() as int) =~= seg@);
        if seg.len() == 0 {
            Ok(None)
        } else {
            Ok(Some(string_of(&seg)))
        }
    }

    /// Ends the run at the end of the source: the carry, where non-empty, is
    /// the last segment, pushed as it is, and the log is handed over.
    ///
    /// All that was handed out is then the whole decoded source with some
    /// non-overlapping occurrences of the pattern replaced, in order, by the
    /// texts in `used`, and every other character kept; the log counts exactly
    /// one replacement per entry of `used`. With rules given, the output is
    /// one left-to-right scan of the whole text, whatever the sizes of the
    /// reads: no occurrence that the scan replaces is missed at a boundary.
    pub fn finish(self) -> (r: (Option<String>, ReplacementLog))
        requires
            self.wf(),
        ensures
            r.0 is Some <==> self.carry@.len() > 0,
            r.0 matches Some(t) ==> t@ == self.carry@,
            r.1 == self.config.log,
            r.1.wf(),
            replaced_by(self.seen@, self.emitted@ + self.carry@, self.config.pattern@, self.used@),
            r.1.total == self.used@.len(),
            self.config.selector matches Some(sel) ==> (self.used@ == sel.texts_of(self.picked@) && forall|i: int|
                0 <= i < r.1.counts@.len() ==> #[trigger] r.1.counts@[i] == tally(self.picked@, i)),
            self.config.selector is Some ==> {
                &&& self.emitted@ + self.carry@ == rewrite(self.seen@, self.config.pattern@, self.used@)
                &&& self.used@.len() == occurrence_count(self.seen@, self.config.pattern@)
            },
    {
        proof {
            lemma_replaced_identity(self.carry@, self.config.pattern@);
            lemma_replaced_concat(
                self.seen@.take(self.cut()),
                self.emitted@,
                self.used@,
                self.carry@,
                self.carry@,
                seq![],
                self.config.pattern@,
            );
            assert(self.seen@ =~= self.seen@.take(self.cut()) + self.carry@);
            assert(self.used@ + seq![] =~= self.used@);
            let p = self.config.pattern@;
            if self.config.selector is Some {
                let e = Seq::<char>::empty();
                assert(self.seen@ + e =~= self.seen@);
                assert(self.carry@ + e =~= self.carry@);
                lemma_scan_stop_bounds(self.seen@, p);
                lemma_scan_split_count(self.seen@, e, p);
                lemma_scan_split(self.seen@, e, p, self.used@);
            }
        }
        let last = if self.carry.len() > 0 {
            Some(string_of(&self.carry))
        } else {
            None
        };
        (last, self.config.log)
    }
}

} // verus!
