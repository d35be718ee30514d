//! The virtual-time cursor of a DMA ring buffer.
//!
//! A `DmaIndex` names a point in the infinite logical stream that the engine
//! maps onto the finite buffer: the pair `(completion_count, pos)` stands for
//! the logical position `completion_count * cap + pos`. The buffer offset of
//! the point is the projection `pos % cap`.

use vstd::arithmetic::div_mod::{
    lemma_div_is_ordered, lemma_fundamental_div_mod, lemma_mod_bound, lemma_small_mod,
};
use vstd::prelude::*;

use crate::ctrl::{hw_seen, hw_wf, DmaCtrl};

verus! {

/// A cursor into the logical stream: `completion_count` laps plus `pos` words.
#[derive(Debug, Clone, Copy, PartialEq, Eq, Structural)]
pub struct DmaIndex {
    /// Completed laps since the cursor was last normalised.
    pub completion_count: usize,
    /// Position within the current lap; at most `cap`.
    pub pos: usize,
}

impl Default for DmaIndex {
    /// The cursor at the stream origin.
    fn default() -> (r: Self)
        ensures
            r.completion_count == 0,
            r.pos == 0,
    {
        DmaIndex { completion_count: 0, pos: 0 }
    }
}

/// A port that has reported `a` laps out of `t` transferred words has
/// accounted for at most `t` words: `a * cap + t % cap <= t`.
proof fn lemma_acked_within(t: int, a: int, cap: int)
    requires
        0 <= t,
        1 <= cap,
        a <= t / cap,
    ensures
        a * cap + t % cap <= t,
        a * cap <= t - t % cap,
{
    lemma_fundamental_div_mod(t, cap);
    lemma_mod_bound(t, cap);
    assert(a * cap <= (t / cap) * cap) by (nonlinear_arith)
        requires
            a <= t / cap,
            1 <= cap,
    ;
}

impl DmaIndex {
    /// The logical stream position this cursor names, for a buffer of
    /// `cap` words.
    pub open spec fn logical(self, cap: int) -> int {
        self.completion_count * cap + self.pos
    }

    /// The cursor is in range for a buffer of `cap` words. `pos == cap` is
    /// allowed transiently: a freshly constructed writable ring starts one
    /// full lap ahead.
    pub open spec fn wf(self, cap: int) -> bool {
        self.pos <= cap
    }

    /// The cursor after advancing `steps` words: overflow out of `pos` is
    /// absorbed into `completion_count`.
    pub open spec fn advanced(self, cap: int, steps: int) -> DmaIndex {
        DmaIndex {
            completion_count: (self.completion_count + (self.pos + steps) / cap) as usize,
            pos: ((self.pos + steps) % cap) as usize,
        }
    }

    /// Set the cursor back to the stream origin.
    pub fn reset(&mut self)
        ensures
            final(self).completion_count == 0,
            final(self).pos == 0,
    {
        self.pos = 0;
        self.completion_count = 0;
    }

    /// Buffer offset of the word `offset` places after this cursor.
    pub fn as_index(&self, cap: usize, offset: usize) -> (r: usize)
        requires
            1 <= cap,
            self.pos + offset <= usize::MAX,
        ensures
            r == (self.pos + offset) % (cap as int),
            r < cap,
    {
        (self.pos + offset) % cap
    }

    /// Advance the cursor by `steps` words of the logical stream.
    pub fn advance(&mut self, cap: usize, steps: usize)
        requires
            1 <= cap,
            old(self).pos + steps <= usize::MAX,
            old(self).completion_count + (old(self).pos + steps) / (cap as int) <= usize::MAX,
        ensures
            *final(self) == old(self).advanced(cap as int, steps as int),
            final(self).logical(cap as int) == old(self).logical(cap as int) + steps,
            final(self).pos < cap,
    {
        let next = self.pos + steps;
        proof {
            lemma_fundamental_div_mod(next as int, cap as int);
            lemma_mod_bound(next as int, cap as int);
            assert((self.completion_count + next as int / (cap as int)) * (cap as int)
                == self.completion_count * (cap as int)
                    + (next as int / (cap as int)) * (cap as int))
                by (nonlinear_arith);
        }
        self.completion_count = self.completion_count + next / cap;
        self.pos = next % cap;
    }

    /// Subtract the laps both cursors have in common, so that the counters
    /// stay bounded over a long run. The signed difference between the two
    /// cursors is untouched, whatever the capacity.
    pub fn normalize(lhs: &mut DmaIndex, rhs: &mut DmaIndex)
        ensures
            final(lhs).pos == old(lhs).pos,
            final(rhs).pos == old(rhs).pos,
            final(lhs).completion_count == 0 || final(rhs).completion_count == 0,
            old(lhs).completion_count <= old(rhs).completion_count ==> {
                &&& final(lhs).completion_count == 0
                &&& final(rhs).completion_count
                    == old(rhs).completion_count - old(lhs).completion_count
            },
            old(rhs).completion_count <= old(lhs).completion_count ==> {
                &&& final(rhs).completion_count == 0
                &&& final(lhs).completion_count
                    == old(lhs).completion_count - old(rhs).completion_count
            },
            forall|cap: int|
                #[trigger] final(lhs).logical(cap) - final(rhs).logical(cap)
                    == old(lhs).logical(cap) - old(rhs).logical(cap),
    {
        let min_count = if lhs.completion_count < rhs.completion_count {
            lhs.completion_count
        } else {
            rhs.completion_count
        };
        let ghost l0 = *lhs;
        let ghost r0 = *rhs;
        lhs.completion_count = lhs.completion_count - min_count;
        rhs.completion_count = rhs.completion_count - min_count;
        proof {
            assert forall|cap: int|
                #[trigger] lhs.logical(cap) - rhs.logical(cap)
                    == l0.logical(cap) - r0.logical(cap) by {
                assert((l0.completion_count - min_count) * cap
                    == l0.completion_count * cap - min_count * cap) by (nonlinear_arith);
                assert((r0.completion_count - min_count) * cap
                    == r0.completion_count * cap - min_count * cap) by (nonlinear_arith);
                assert(lhs.completion_count == l0.completion_count - min_count);
                assert(rhs.completion_count == r0.completion_count - min_count);
            }
        }
    }

    /// Fold the hardware's position registers into this cursor.
    ///
    /// Two samples of the transfers-remaining register sandwich the
    /// read-and-clear of the wrap counter; comparing the samples tells
    /// whether a wrap reported by the counter happened before or after the
    /// second sample, and a second read of the counter catches a wrap the
    /// first read could not yet see. The resulting cursor points exactly at
    /// the engine's position within the current lap, and accounts for every
    /// lap the counter has handed out so far:
    /// `logical` afterwards equals the laps this cursor had already absorbed
    /// (`completion_count - acked` of them are from earlier normalisations)
    /// plus everything the port has `seen`.
    pub fn dma_sync(&mut self, cap: usize, dma: &mut impl DmaCtrl)
        requires
            hw_wf(old(dma)),
            cap as nat == old(dma).capacity(),
            old(self).completion_count <= old(dma).acked(),
        ensures
            hw_wf(final(dma)),
            final(dma).capacity() == old(dma).capacity(),
            old(dma).transferred() <= final(dma).transferred(),
            old(dma).acked() <= final(dma).acked(),
            hw_seen(old(dma)) <= hw_seen(final(dma)),
            final(self).pos == final(dma).transferred() as int % cap as int,
            final(self).logical(cap as int)
                == old(self).completion_count * cap - old(dma).acked() * cap
                    + hw_seen(final(dma)),
            final(self).completion_count <= final(dma).acked(),
            old(dma).transferred() == final(dma).transferred()
                ==> final(dma).acked()
                    == final(dma).transferred() as int / cap as int,
            (old(dma).transferred() == final(dma).transferred()
                && hw_seen(old(dma)) == old(dma).transferred()
                && old(self).pos == old(dma).transferred() as int % cap as int)
                ==> *final(self) == *old(self),
    {
        let ghost cc0 = self.completion_count as int;
        let ghost a0 = old(dma).acked() as int;
        let ghost t0 = old(dma).transferred() as int;
        proof {
            lemma_mod_bound(t0, cap as int);
            lemma_acked_within(t0, a0, cap as int);
        }

        let fst_rem = dma.get_remaining_transfers();
        let ghost t1 = dma.transferred() as int;
        proof {
            lemma_mod_bound(t1, cap as int);
        }
        let fst_pos = cap - fst_rem;
        assert(fst_pos == t1 % (cap as int));

        let fst_count = dma.reset_complete_count();
        assert(fst_count == t1 / (cap as int) - a0);

        let snd_rem = dma.get_remaining_transfers();
        let ghost t2 = dma.transferred() as int;
        proof {
            lemma_mod_bound(t2, cap as int);
            lemma_div_is_ordered(t0, t1, cap as int);
            lemma_div_is_ordered(t1, t2, cap as int);
            lemma_acked_within(t2, t2 / (cap as int), cap as int);
        }
        let pos = cap - snd_rem;
        assert(pos == t2 % (cap as int));

        let wrap_count = if pos >= fst_pos {
            fst_count
        } else {
            let snd_count = dma.reset_complete_count();
            assert(snd_count == t2 / (cap as int) - t1 / (cap as int));
            fst_count + snd_count
        };

        proof {
            let af = dma.acked() as int;
            assert(wrap_count == af - a0);
            assert(cc0 + wrap_count <= af);
            assert((cc0 + (af - a0)) * cap == cc0 * cap - a0 * cap + af * cap)
                by (nonlinear_arith);
            // Progress the port had accounted for on entry is never lost.
            assert(hw_seen(old(dma)) == a0 * cap + t0 % (cap as int));
            assert(a0 * cap + t0 % (cap as int) <= t0);
            lemma_fundamental_div_mod(t1, cap as int);
            lemma_fundamental_div_mod(t2, cap as int);
            if pos >= fst_pos {
                assert(hw_seen(dma) == t1 / (cap as int) * cap + t2 % (cap as int));
                assert((cap as int) * (t1 / (cap as int))
                    == (t1 / (cap as int)) * (cap as int)) by (nonlinear_arith);
                assert(t1 == t1 / (cap as int) * cap + t1 % (cap as int));
                assert(t1 % (cap as int) <= t2 % (cap as int));
                assert(t1 <= hw_seen(dma));
            } else {
                assert(hw_seen(dma) == t2 / (cap as int) * cap + t2 % (cap as int));
                assert(hw_seen(dma) == t2);
            }
            assert(hw_seen(old(dma)) <= hw_seen(dma));
            // A settled, resting port hands nothing new out: the cursor is
            // reproduced unchanged.
            if t0 == t2 && hw_seen(old(dma)) == old(dma).transferred()
                && old(self).pos == t0 % (cap as int) {
                lemma_fundamental_div_mod(t0, cap as int);
                assert(a0 == t0 / (cap as int)) by (nonlinear_arith)
                    requires
                        a0 * cap + t0 % (cap as int) == t0,
                        t0 == (cap as int) * (t0 / (cap as int)) + t0 % (cap as int),
                        1 <= cap,
                ;
                assert(wrap_count == 0);
                assert(pos == old(self).pos);
            }
        }
        self.pos = pos;
        self.completion_count = self.completion_count + wrap_count;
    }

    /// Signed distance from `rhs` to this cursor, in logical-stream words.
    pub fn diff(&self, cap: usize, rhs: &DmaIndex) -> (r: isize)
        requires
            self.logical(cap as int) <= isize::MAX,
            rhs.logical(cap as int) <= isize::MAX,
        ensures
            r == self.logical(cap as int) - rhs.logical(cap as int),
    {
        proof {
            assert(self.completion_count * (cap as int) >= 0) by (nonlinear_arith);
            assert(rhs.completion_count * (cap as int) >= 0) by (nonlinear_arith);
        }
        (self.completion_count * cap + self.pos) as isize
            - (rhs.completion_count * cap + rhs.pos) as isize
    }
}

/// The sum of a sequence of step counts.
pub open spec fn total_steps(s: Seq<usize>) -> int
    decreases s.len(),
{
    if s.len() == 0 {
        0
    } else {
        total_steps(s.drop_last()) + s.last()
    }
}

/// The cursor reached by advancing through a sequence of step counts.
pub open spec fn advanced_all(idx: DmaIndex, cap: int, s: Seq<usize>) -> DmaIndex
    decreases s.len(),
{
    if s.len() == 0 {
        idx
    } else {
        advanced_all(idx, cap, s.drop_last()).advanced(cap, s.last() as int)
    }
}

/// Every step count is at least zero, so the sum only grows with the
/// sequence.
proof fn lemma_total_steps_nonneg(s: Seq<usize>)
    ensures
        0 <= total_steps(s),
    decreases s.len(),
{
    if s.len() > 0 {
        lemma_total_steps_nonneg(s.drop_last());
    }
}

/// Position algebra: advancing a zero cursor through any sequence of step
/// counts lands on the logical position `total_steps(s)`, with
/// `pos == total_steps(s) % cap` and
/// `completion_count == total_steps(s) / cap`.
pub proof fn lemma_advance_algebra(cap: int, s: Seq<usize>)
    requires
        1 <= cap,
        total_steps(s) + cap <= usize::MAX,
    ensures
        ({
            let end = advanced_all(DmaIndex { completion_count: 0, pos: 0 }, cap, s);
            &&& end.logical(cap) == total_steps(s)
            &&& end.pos == total_steps(s) % cap
            &&& end.completion_count == total_steps(s) / cap
        }),
    decreases s.len(),
{
    let zero = DmaIndex { completion_count: 0, pos: 0 };
    if s.len() == 0 {
        lemma_small_mod(0, cap as nat);
        vstd::arithmetic::div_mod::lemma_basic_div(0, cap);
        assert(zero.completion_count * cap == 0) by (nonlinear_arith)
            requires
                zero.completion_count == 0,
        ;
        assert(zero.logical(cap) == 0);
        assert(0int % cap == 0);
        assert(0int / cap == 0);
    } else {
        let pre = s.drop_last();
        let t0 = total_steps(pre);
        let last = s.last() as int;
        lemma_total_steps_nonneg(pre);
        lemma_advance_algebra(cap, pre);
        let mid = advanced_all(zero, cap, pre);
        lemma_fundamental_div_mod(t0, cap);
        lemma_fundamental_div_mod(t0 % cap + last, cap);
        lemma_mod_bound(t0, cap);
        lemma_mod_bound(t0 % cap + last, cap);
        assert(t0 + last == cap * (t0 / cap + (t0 % cap + last) / cap) + (t0 % cap + last)
            % cap) by (nonlinear_arith)
            requires
                t0 == cap * (t0 / cap) + t0 % cap,
                t0 % cap + last == cap * ((t0 % cap + last) / cap) + (t0 % cap + last) % cap,
        ;
        vstd::arithmetic::div_mod::lemma_fundamental_div_mod_converse(
            t0 + last,
            cap,
            t0 / cap + (t0 % cap + last) / cap,
            (t0 % cap + last) % cap,
        );
        let q = t0 / cap + (t0 % cap + last) / cap;
        assert(q == (t0 + last) / cap);
        assert(0 <= q && q <= t0 + last) by (nonlinear_arith)
            requires
                t0 + last == cap * q + (t0 + last) % cap,
                0 <= (t0 + last) % cap < cap,
                1 <= cap,
                0 <= t0 + last,
        ;
        assert(mid.advanced(cap, last).completion_count == q);
        assert((t0 / cap + (t0 % cap + last) / cap) * cap + (t0 + last) % cap == t0 + last)
            by (nonlinear_arith)
            requires
                t0 + last == cap * (t0 / cap + (t0 % cap + last) / cap) + (t0 + last) % cap,
        ;
        let end = advanced_all(zero, cap, s);
        assert(end == mid.advanced(cap, last));
        assert(total_steps(s) == t0 + last);
        assert(end.completion_count == q);
        assert(end.pos == (t0 + last) % cap);
        assert(end.logical(cap) == t0 + last);
    }
}

/// Sync idempotence: if the hardware does not advance between two
/// synchronisations, the second reproduces the first's cursor exactly.
///
/// The hypotheses mirror what [`DmaIndex::dma_sync`] ensures for two calls
/// made while the engine's transferred count stays at `a`: each call leaves
/// the wrap counter fully drained (`acked == a / cap`), puts the cursor's
/// `pos` at `a % cap`, and accounts for the laps handed out in between.
pub proof fn lemma_sync_idempotent(
    cap: int,
    a: int,
    i0: DmaIndex,
    i1: DmaIndex,
    i2: DmaIndex,
    k0: int,
    k1: int,
    k2: int,
)
    requires
        1 <= cap,
        0 <= a,
        0 <= k0,
        k1 == a / cap,
        i1.pos == a % cap,
        i1.logical(cap) == i0.completion_count * cap - k0 * cap + (k1 * cap + a % cap),
        k2 == a / cap,
        i2.pos == a % cap,
        i2.logical(cap) == i1.completion_count * cap - k1 * cap + (k2 * cap + a % cap),
    ensures
        i2 == i1,
{
    assert(i2.logical(cap) == i1.logical(cap));
    assert(i2.completion_count == i1.completion_count) by (nonlinear_arith)
        requires
            i2.completion_count * cap + i2.pos == i1.completion_count * cap + i1.pos,
            i2.pos == i1.pos,
            1 <= cap,
    ;
}

/// Exact reconstruction across a wrap: when the engine advances from `a0`
/// to `a1` with `a1 - a0 < cap` — wrapping at most once, at whatever moment
/// between the register samples — the synchronised cursor moves forward by
/// exactly `a1 - a0`, never by `a1 - a0 ± cap`.
///
/// The hypotheses mirror what [`DmaIndex::dma_sync`] ensures for a call
/// made from a cursor `i1` that was left settled at `a0` (its `pos` at
/// `a0 % cap`, the wrap counter drained at `k1 == a0 / cap`): the new
/// cursor `i2` accounts for `k2` handed-out laps with `k1 <= k2 <= a1 / cap`,
/// and what the port has seen never shrinks.
pub proof fn lemma_sync_exact_displacement(
    cap: int,
    a0: int,
    a1: int,
    i1: DmaIndex,
    i2: DmaIndex,
    k1: int,
    k2: int,
)
    requires
        1 <= cap,
        0 <= a0 <= a1,
        a1 - a0 < cap,
        k1 == a0 / cap,
        i1.pos == a0 % cap,
        k1 <= k2 <= a1 / cap,
        k1 * cap + a0 % cap <= k2 * cap + a1 % cap,
        i2.pos == a1 % cap,
        i2.logical(cap) == i1.completion_count * cap - k1 * cap + (k2 * cap + a1 % cap),
    ensures
        i2.logical(cap) - i1.logical(cap) == a1 - a0,
{
    lemma_fundamental_div_mod(a0, cap);
    lemma_fundamental_div_mod(a1, cap);
    lemma_mod_bound(a0, cap);
    lemma_mod_bound(a1, cap);
    // The laps not yet handed out would put `seen` a full lap short, which
    // the monotonicity of `seen` rules out here.
    assert(k2 == a1 / cap) by (nonlinear_arith)
        requires
            k1 <= k2 <= a1 / cap,
            k1 * cap + a0 % cap <= k2 * cap + a1 % cap,
            a0 == cap * (a0 / cap) + a0 % cap,
            a1 == cap * (a1 / cap) + a1 % cap,
            k1 == a0 / cap,
            a1 - a0 < cap,
            0 <= a0 % cap < cap,
            0 <= a1 % cap < cap,
            1 <= cap,
            0 <= a0,
    ;
    assert(k2 * cap + a1 % cap == a1) by (nonlinear_arith)
        requires
            k2 == a1 / cap,
            a1 == cap * (a1 / cap) + a1 % cap,
    ;
    assert(k1 * cap + a0 % cap == a0) by (nonlinear_arith)
        requires
            k1 == a0 / cap,
            a0 == cap * (a0 / cap) + a0 % cap,
    ;
}

} // verus!
