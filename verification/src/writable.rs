//! The ring the CPU fills and the DMA engine drains.
//!
//! The dual of the readable ring: the hardware drives `read_index`
//! (reconstructed from the port on every operation), the CPU drives
//! `write_index`. The ring starts logically full — the caller's first move
//! is to fill the buffer with producer data before the engine consumes it.
//! Overrun here means the engine's reader has overtaken the CPU's writer.

use vstd::arithmetic::div_mod::{
    lemma_fundamental_div_mod, lemma_mod_bound, lemma_mod_multiples_vanish, lemma_small_mod,
};
use vstd::prelude::*;

use crate::ctrl::{hw_seen, hw_wf, lemma_seen_bounds, lesser, DmaCtrl, OverrunError};
use crate::index::DmaIndex;
use crate::word::Word;

verus! {

/// For `0 <= k < cap`, the buffer slot `(wpos + k) % cap` projects back to
/// the offset `k`, and is the only slot in range that does.
proof fn lemma_offset_roundtrip(wpos: int, k: int, cap: int)
    requires
        0 <= wpos,
        0 <= k < cap,
    ensures
        ((wpos + k) % cap - wpos) % cap == k,
{
    let idx = (wpos + k) % cap;
    lemma_fundamental_div_mod(wpos + k, cap);
    let q = (wpos + k) / cap;
    assert(idx - wpos == k + cap * (-q)) by (nonlinear_arith)
        requires
            idx == wpos + k - cap * q,
    ;
    lemma_mod_multiples_vanish(-q, k, cap);
    lemma_small_mod(k as nat, cap as nat);
}

/// A buffer slot `j` is reached from the writer position `wpos` by exactly
/// the offset `(j - wpos) % cap`.
proof fn lemma_offset_unique(wpos: int, j: int, cap: int)
    requires
        0 <= wpos,
        0 <= j < cap,
    ensures
        j == (wpos + (j - wpos) % cap) % cap,
{
    let m = (j - wpos) % cap;
    lemma_fundamental_div_mod(j - wpos, cap);
    let q = (j - wpos) / cap;
    assert(wpos + m == j + cap * (-q)) by (nonlinear_arith)
        requires
            m == j - wpos - cap * q,
    ;
    lemma_mod_multiples_vanish(-q, j, cap);
    lemma_small_mod(j as nat, cap as nat);
}

/// A circular buffer the CPU writes and the DMA engine reads.
pub struct WritableDmaRingBuffer<W: Word> {
    dma_buf: Vec<W>,
    read_index: DmaIndex,
    write_index: DmaIndex,
}

impl<W: Word> WritableDmaRingBuffer<W> {
    /// The words of the underlying buffer.
    pub closed spec fn buf(self) -> Seq<W> {
        self.dma_buf@
    }

    /// The hardware-driven cursor.
    pub closed spec fn read_ix(self) -> DmaIndex {
        self.read_index
    }

    /// The CPU-driven cursor.
    pub closed spec fn write_ix(self) -> DmaIndex {
        self.write_index
    }

    /// The capacity, as the mathematical size of the buffer.
    pub open spec fn capacity(self) -> int {
        self.buf().len() as int
    }

    /// Number of words the writer stands ahead of the hardware reader: the
    /// part of the buffer the engine has not yet consumed. Negative exactly
    /// when an overrun happened.
    pub open spec fn filled(self) -> int {
        self.write_ix().logical(self.capacity()) - self.read_ix().logical(self.capacity())
    }

    /// The ring is well formed: non-empty buffer, cursors in range, writer
    /// at most one lap ahead of the reader.
    pub open spec fn wf(self) -> bool {
        &&& 1 <= self.capacity()
        &&& self.write_ix().wf(self.capacity())
        &&& self.read_ix().wf(self.capacity())
        &&& self.filled() <= self.capacity()
    }

    /// Where the reader cursor will stand right after the next
    /// synchronisation against port state `c`.
    pub open spec fn sync_target<C: DmaCtrl>(self, c: &C) -> int {
        self.read_ix().completion_count * self.capacity() - c.acked() * self.capacity()
            + hw_seen(c)
    }

    /// What the fill level will be right after the next synchronisation
    /// against port state `c`, before any further hardware progress.
    pub open spec fn sync_filled<C: DmaCtrl>(self, c: &C) -> int {
        self.write_ix().logical(self.capacity()) - self.sync_target(c)
    }

    /// The ring is tracking port `c`: same capacity, the reader cursor has
    /// absorbed no more laps than the port handed out, and the writer is at
    /// most one lap past the position the next synchronisation will compute.
    pub open spec fn linked<C: DmaCtrl>(self, c: &C) -> bool {
        &&& hw_wf(c)
        &&& c.capacity() == self.capacity()
        &&& self.read_ix().completion_count <= c.acked()
        &&& self.write_ix().logical(self.capacity()) <= self.sync_target(c) + self.capacity()
    }

    /// Construct a ring over `dma_buf` that is already logically full: the
    /// writer starts one lap ahead of the reader, so the engine may consume
    /// the caller's initial data.
    pub fn new(dma_buf: Vec<W>) -> (r: Self)
        requires
            1 <= dma_buf@.len(),
        ensures
            r.buf() == dma_buf@,
            r.wf(),
            r.read_ix() == (DmaIndex { completion_count: 0, pos: 0 }),
            r.write_ix() == (DmaIndex { completion_count: 0, pos: dma_buf@.len() as usize }),
            r.filled() == r.capacity(),
    {
        let len = dma_buf.len();
        Self {
            dma_buf,
            read_index: DmaIndex { completion_count: 0, pos: 0 },
            write_index: DmaIndex { completion_count: 0, pos: len },
        }
    }

    /// A freshly constructed or cleared ring tracks any well-formed port of
    /// the same capacity.
    pub proof fn lemma_origin_linked<C: DmaCtrl>(self, c: &C)
        requires
            self.wf(),
            hw_wf(c),
            c.capacity() == self.capacity(),
            self.read_ix().completion_count == 0,
            self.write_ix().logical(self.capacity()) <= self.capacity(),
        ensures
            self.linked(c),
    {
        lemma_seen_bounds(c.capacity() as int, c.transferred() as int, c.acked() as int);
    }

    /// A reader cursor synchronised to port state `c` stands exactly at the
    /// position the next synchronisation against `c` would compute.
    proof fn lemma_synced_at_target<C: DmaCtrl>(self, c: &C)
        requires
            c.capacity() == self.capacity(),
            self.read_ix().pos == c.transferred() as int % c.capacity() as int,
        ensures
            self.sync_target(c) == self.read_ix().logical(self.capacity()),
    {
    }

    /// Resynchronise with the hardware and mark the whole buffer as filled
    /// again: the wrap counter is cleared, the reader cursor is rebuilt from
    /// the registers, and the writer is placed one lap ahead of it. Usable
    /// from any state, including overrun.
    pub fn clear(&mut self, dma: &mut impl DmaCtrl)
        requires
            old(self).wf(),
            old(self).linked(old(dma)),
        ensures
            final(self).wf(),
            final(self).linked(final(dma)),
            final(self).buf() == old(self).buf(),
            final(dma).capacity() == old(dma).capacity(),
            old(dma).transferred() <= final(dma).transferred(),
            hw_seen(old(dma)) <= hw_seen(final(dma)),
            final(self).filled() == final(self).capacity(),
            final(self).read_ix().pos
                == final(dma).transferred() as int % final(dma).capacity() as int,
            final(self).write_ix().pos == final(self).read_ix().pos,
            old(dma).transferred() == final(dma).transferred()
                ==> hw_seen(final(dma)) == final(dma).transferred(),
    {
        let cap = self.dma_buf.len();
        proof {
            lemma_seen_bounds(
                old(dma).capacity() as int,
                old(dma).transferred() as int,
                old(dma).acked() as int,
            );
        }
        let _ = dma.reset_complete_count();
        proof {
            let t = dma.transferred() as int;
            let c = dma.capacity() as int;
            lemma_fundamental_div_mod(t, c);
            assert((t / c) * c == c * (t / c)) by (nonlinear_arith);
            assert(hw_seen(dma) == t);
        }
        self.read_index.reset();
        self.read_index.dma_sync(cap, dma);
        self.write_index = self.read_index;
        proof {
            lemma_seen_bounds(
                dma.capacity() as int,
                dma.transferred() as int,
                dma.acked() as int,
            );
            self.lemma_synced_at_target(dma);
            if old(dma).transferred() == dma.transferred() {
                let t = dma.transferred() as int;
                let c = dma.capacity() as int;
                lemma_fundamental_div_mod(t, c);
                assert((t / c) * c == c * (t / c)) by (nonlinear_arith);
                assert(hw_seen(dma) == t);
            }
            assert(self.read_index.completion_count <= self.read_index.completion_count
                * (cap as int)) by (nonlinear_arith)
                requires
                    1 <= cap,
            ;
            assert(self.read_index.logical(cap as int) <= self.sync_target(dma));
            vstd::arithmetic::div_mod::lemma_mod_bound(
                self.write_index.pos + cap,
                cap as int,
            );
            assert((self.write_index.pos + cap) / (cap as int) <= 2) by {
                vstd::arithmetic::div_mod::lemma_div_is_ordered(
                    self.write_index.pos + cap,
                    2 * (cap as int),
                    cap as int,
                );
                vstd::arithmetic::div_mod::lemma_div_is_ordered(
                    0,
                    self.write_index.pos + cap,
                    cap as int,
                );
                assert(2 * (cap as int) / (cap as int) == 2) by (nonlinear_arith)
                    requires
                        1 <= cap,
                ;
            }
        }
        self.write_index.advance(cap, cap);
        proof {
            self.lemma_synced_at_target(dma);
            let p = self.read_index.pos as int;
            lemma_mod_multiples_vanish(1, p, cap as int);
            lemma_mod_bound(dma.transferred() as int, cap as int);
            lemma_small_mod(p as nat, cap as nat);
        }
    }

    /// The number of writable words: the capacity less what the CPU has
    /// written and the freshly sampled hardware reader has not yet consumed.
    /// Both cursors are normalised on the way. Reports an overrun when the
    /// engine's reader has overtaken the writer.
    ///
    /// As with the readable ring, the contract is a conservation ledger:
    /// the fill level drops by exactly what the port has newly seen and
    /// rises by exactly the words a write accepted.
    pub fn len(&mut self, dma: &mut impl DmaCtrl) -> (r: Result<usize, OverrunError>)
        requires
            old(self).wf(),
            old(self).linked(old(dma)),
        ensures
            final(self).wf(),
            final(self).linked(final(dma)),
            final(self).buf() == old(self).buf(),
            final(dma).capacity() == old(dma).capacity(),
            old(dma).transferred() <= final(dma).transferred(),
            hw_seen(old(dma)) <= hw_seen(final(dma)),
            old(dma).transferred() == final(dma).transferred()
                ==> hw_seen(final(dma)) == final(dma).transferred(),
            final(self).write_ix().pos == old(self).write_ix().pos,
            final(self).read_ix().pos
                == final(dma).transferred() as int % final(dma).capacity() as int,
            final(self).filled()
                == old(self).sync_filled(old(dma)) - (hw_seen(final(dma)) - hw_seen(old(dma))),
            final(self).write_ix().completion_count == 0
                || final(self).read_ix().completion_count == 0,
            r == (if final(self).filled() < 0 {
                Result::<usize, OverrunError>::Err(OverrunError)
            } else {
                Result::<usize, OverrunError>::Ok((final(self).capacity()
                    - final(self).filled()) as usize)
            }),
    {
        let ghost cc0 = self.read_index.completion_count as int;
        let ghost a0 = old(dma).acked() as int;
        let cap = self.dma_buf.len();
        self.read_index.dma_sync(cap, dma);
        proof {
            lemma_seen_bounds(
                dma.capacity() as int,
                dma.transferred() as int,
                dma.acked() as int,
            );
            vstd::arithmetic::mul::lemma_mul_inequality(cc0, a0, cap as int);
            vstd::arithmetic::mul::lemma_mul_nonnegative(
                self.read_index.completion_count as int,
                cap as int,
            );
            vstd::arithmetic::mul::lemma_mul_nonnegative(
                self.write_index.completion_count as int,
                cap as int,
            );
            self.lemma_synced_at_target(dma);
            if old(dma).transferred() == dma.transferred() {
                let t = dma.transferred() as int;
                let c = dma.capacity() as int;
                lemma_fundamental_div_mod(t, c);
                assert((t / c) * c == c * (t / c)) by (nonlinear_arith);
                assert(hw_seen(dma) == t);
            }
            assert(self.read_index.logical(cap as int) <= isize::MAX);
        }
        let ghost rpre = self.read_index;
        let ghost wpre = self.write_index;
        DmaIndex::normalize(&mut self.read_index, &mut self.write_index);
        proof {
            assert(self.write_index.logical(cap as int) - self.read_index.logical(cap as int)
                == wpre.logical(cap as int) - rpre.logical(cap as int));
            vstd::arithmetic::mul::lemma_mul_inequality(
                self.read_index.completion_count as int,
                rpre.completion_count as int,
                cap as int,
            );
            vstd::arithmetic::mul::lemma_mul_inequality(
                self.write_index.completion_count as int,
                wpre.completion_count as int,
                cap as int,
            );
            vstd::arithmetic::mul::lemma_mul_nonnegative(
                self.read_index.completion_count as int,
                cap as int,
            );
            vstd::arithmetic::mul::lemma_mul_nonnegative(
                self.write_index.completion_count as int,
                cap as int,
            );
            self.lemma_synced_at_target(dma);
        }
        let diff = self.write_index.diff(cap, &self.read_index);
        if diff < 0 {
            Err(OverrunError)
        } else {
            Ok(cap - (diff as usize))
        }
    }

    /// What a successful write reports, relating the ring and port before
    /// (`pre`, `c0`) and after (`post`, `cf`) the call, the words offered
    /// `data`, the count accepted `n` and the reported leftover room `rem`.
    pub open spec fn write_outcome<C: DmaCtrl>(
        pre: Self,
        c0: &C,
        post: Self,
        cf: &C,
        data: Seq<W>,
        n: int,
        rem: int,
    ) -> bool {
        &&& 0 <= n <= data.len()
        &&& n <= pre.capacity()
        &&& post.buf().len() == pre.capacity()
        &&& forall|j: int|
            0 <= j < pre.capacity() ==> post.buf()[j] == (if (j - pre.write_ix().pos)
                % pre.capacity() < n {
                data[(j - pre.write_ix().pos) % pre.capacity()]
            } else {
                pre.buf()[j]
            })
        &&& post.filled() == pre.sync_filled(c0) - (hw_seen(cf) - hw_seen(c0)) + n
        &&& rem == pre.capacity() - post.filled()
        &&& post.write_ix().pos == (pre.write_ix().pos + n) % pre.capacity()
        &&& (c0.transferred() == cf.transferred() && hw_seen(c0) == c0.transferred() ==> n
            == if pre.capacity() - pre.sync_filled(c0) <= data.len() {
                pre.capacity() - pre.sync_filled(c0)
            } else {
                data.len() as int
            })
    }

    /// Write up to `min(len, buf.len())` words after the writer cursor,
    /// advance it past them, and report `(written, remaining)`, where
    /// `remaining` counts the room left once the hardware's progress during
    /// the copy is taken into account. On overrun the error is surfaced
    /// verbatim: the ring keeps its diverged state and the writer is not
    /// advanced.
    pub fn write_raw(&mut self, dma: &mut impl DmaCtrl, buf: &Vec<W>) -> (r: Result<
        (usize, usize),
        OverrunError,
    >)
        requires
            old(self).wf(),
            old(self).linked(old(dma)),
        ensures
            final(self).wf(),
            final(self).linked(final(dma)),
            final(self).capacity() == old(self).capacity(),
            final(dma).capacity() == old(dma).capacity(),
            old(dma).transferred() <= final(dma).transferred(),
            hw_seen(old(dma)) <= hw_seen(final(dma)),
            r matches Ok(p) ==> Self::write_outcome(
                *old(self),
                old(dma),
                *final(self),
                final(dma),
                buf@,
                p.0 as int,
                p.1 as int,
            ),
            r matches Ok(p) ==> exists|avail1: int|
                {
                    &&& old(self).capacity() - old(self).sync_filled(old(dma)) <= avail1
                        <= old(self).capacity() - old(self).sync_filled(old(dma)) + (hw_seen(
                        final(dma),
                    ) - hw_seen(old(dma)))
                    &&& 0 <= avail1 <= old(self).capacity()
                    &&& p.0 == #[trigger] lesser(avail1, buf@.len() as int)
                },
            (old(dma).transferred() == final(dma).transferred() && hw_seen(old(dma)) == old(
                dma,
            ).transferred()) ==> (r is Err <==> old(self).sync_filled(old(dma)) < 0),
            r is Err ==> {
                &&& final(self).filled() < 0
                &&& final(self).write_ix().pos == old(self).write_ix().pos
                &&& final(self).read_ix().pos
                    == final(dma).transferred() as int % final(dma).capacity() as int
                &&& (old(dma).transferred() == final(dma).transferred()
                    ==> hw_seen(final(dma)) == final(dma).transferred())
                &&& final(self).buf().len() == old(self).buf().len()
                &&& forall|j: int|
                    0 <= j < old(self).capacity() ==> final(self).buf()[j] == old(
                        self,
                    ).buf()[j] || final(self).buf()[j] == buf@[(j - old(self).write_ix().pos)
                        % old(self).capacity()]
            },
    {
        let cap = self.dma_buf.len();
        let available = match self.len(dma) {
            Ok(a) => a,
            Err(e) => {
                return Err(e);
            },
        };
        let writable = if available < buf.len() {
            available
        } else {
            buf.len()
        };
        let ghost smid = *self;
        let ghost dmid = *dma;
        let ghost avail1g = available as int;
        let ghost buf0 = self.dma_buf@;
        let ghost wpos = self.write_index.pos as int;
        let mut i: usize = 0;
        while i < writable
            invariant
                i <= writable,
                writable <= buf@.len(),
                writable <= cap,
                cap == self.capacity(),
                self.wf(),
                2 * self.capacity() <= usize::MAX,
                self.write_ix() == smid.write_ix(),
                self.read_ix() == smid.read_ix(),
                wpos == self.write_ix().pos,
                buf0.len() == cap,
                self.buf().len() == cap,
                forall|j: int|
                    0 <= j < cap ==> self.buf()[j] == (if (j - wpos) % (cap as int) < i {
                        buf@[(j - wpos) % (cap as int)]
                    } else {
                        buf0[j]
                    }),
            decreases writable - i,
        {
            let w = buf[i];
            self.write_buf(i, w);
            proof {
                lemma_offset_roundtrip(wpos, i as int, cap as int);
                assert forall|j: int| 0 <= j < cap implies self.buf()[j] == (if (j - wpos) % (
                cap as int) < i + 1 {
                    buf@[(j - wpos) % (cap as int)]
                } else {
                    buf0[j]
                }) by {
                    lemma_mod_bound(j - wpos, cap as int);
                    if (j - wpos) % (cap as int) == i {
                        lemma_offset_unique(wpos, j, cap as int);
                    }
                }
            }
            i += 1;
        }
        let available2 = match self.len(dma) {
            Ok(a) => a,
            Err(e) => {
                return Err(e);
            },
        };
        proof {
            smid.lemma_synced_at_target(&dmid);
            assert(available2 >= writable);
            assert(self.write_index.completion_count <= self.write_index.completion_count
                * (cap as int)) by (nonlinear_arith)
                requires
                    1 <= cap,
            ;
            vstd::arithmetic::mul::lemma_mul_inequality(
                self.read_index.completion_count as int,
                dma.acked() as int,
                cap as int,
            );
            lemma_seen_bounds(
                dma.capacity() as int,
                dma.transferred() as int,
                dma.acked() as int,
            );
            assert(self.write_index.logical(cap as int)
                <= self.sync_target(dma) + cap);
            assert(self.write_index.completion_count * (cap as int)
                <= self.write_index.logical(cap as int));
            lemma_mod_bound(self.write_index.pos + writable, cap as int);
            vstd::arithmetic::div_mod::lemma_div_is_ordered(
                0,
                self.write_index.pos + writable,
                cap as int,
            );
            assert((self.write_index.pos + writable) / (cap as int) <= 2) by {
                vstd::arithmetic::div_mod::lemma_div_is_ordered(
                    self.write_index.pos + writable,
                    2 * (cap as int),
                    cap as int,
                );
                assert(2 * (cap as int) / (cap as int) == 2) by (nonlinear_arith)
                    requires
                        1 <= cap,
                ;
            }
        }
        self.write_index.advance(cap, writable);
        proof {
            assert(avail1g == old(self).capacity() - old(self).sync_filled(old(dma)) + (
            hw_seen(&dmid) - hw_seen(old(dma))));
            assert(hw_seen(&dmid) <= hw_seen(dma));
            assert(writable as int == lesser(avail1g, buf@.len() as int));
            assert(exists|avail1: int|
                {
                    &&& old(self).capacity() - old(self).sync_filled(old(dma)) <= avail1
                        <= old(self).capacity() - old(self).sync_filled(old(dma)) + (hw_seen(
                        dma,
                    ) - hw_seen(old(dma)))
                    &&& 0 <= avail1 <= old(self).capacity()
                    &&& writable as int == #[trigger] lesser(avail1, buf@.len() as int)
                });
        }
        Ok((writable, available2 - writable))
    }

    /// Like [`Self::write_raw`], but on overrun the ring first clears
    /// itself, leaving a full buffer's worth of leeway between the writer
    /// and the engine before the error is reported.
    pub fn write(&mut self, dma: &mut impl DmaCtrl, buf: &Vec<W>) -> (r: Result<
        (usize, usize),
        OverrunError,
    >)
        requires
            old(self).wf(),
            old(self).linked(old(dma)),
        ensures
            final(self).wf(),
            final(self).linked(final(dma)),
            final(self).capacity() == old(self).capacity(),
            final(dma).capacity() == old(dma).capacity(),
            old(dma).transferred() <= final(dma).transferred(),
            hw_seen(old(dma)) <= hw_seen(final(dma)),
            r matches Ok(p) ==> Self::write_outcome(
                *old(self),
                old(dma),
                *final(self),
                final(dma),
                buf@,
                p.0 as int,
                p.1 as int,
            ),
            r matches Ok(p) ==> exists|avail1: int|
                {
                    &&& old(self).capacity() - old(self).sync_filled(old(dma)) <= avail1
                        <= old(self).capacity() - old(self).sync_filled(old(dma)) + (hw_seen(
                        final(dma),
                    ) - hw_seen(old(dma)))
                    &&& 0 <= avail1 <= old(self).capacity()
                    &&& p.0 == #[trigger] lesser(avail1, buf@.len() as int)
                },
            (old(dma).transferred() == final(dma).transferred() && hw_seen(old(dma)) == old(
                dma,
            ).transferred()) ==> (r is Err <==> old(self).sync_filled(old(dma)) < 0),
            r is Err ==> {
                &&& final(self).filled() == final(self).capacity()
                &&& final(self).read_ix().pos
                    == final(dma).transferred() as int % final(dma).capacity() as int
                &&& final(self).write_ix().pos == final(self).read_ix().pos
                &&& (old(dma).transferred() == final(dma).transferred()
                    ==> hw_seen(final(dma)) == final(dma).transferred())
                &&& final(self).buf().len() == old(self).buf().len()
                &&& forall|j: int|
                    0 <= j < old(self).capacity() ==> final(self).buf()[j] == old(
                        self,
                    ).buf()[j] || final(self).buf()[j] == buf@[(j - old(self).write_ix().pos)
                        % old(self).capacity()]
            },
    {
        match self.write_raw(dma, buf) {
            Ok(p) => Ok(p),
            Err(e) => {
                self.clear(dma);
                Err(e)
            },
        }
    }

    /// Write the first `min(buf.len(), cap)` words of `buf` after the writer
    /// cursor without consulting the hardware, and report
    /// `(written, remaining)` against a quiescent engine. Intended for the
    /// initial fill right after construction; the cursor is not advanced.
    pub fn write_immediate(&mut self, buf: &Vec<W>) -> (r: Result<
        (usize, usize),
        OverrunError,
    >)
        requires
            old(self).wf(),
            2 * old(self).capacity() <= usize::MAX,
        ensures
            final(self).wf(),
            final(self).capacity() == old(self).capacity(),
            final(self).read_ix() == old(self).read_ix(),
            final(self).write_ix() == old(self).write_ix(),
            final(self).buf().len() == old(self).buf().len(),
            forall|j: int|
                0 <= j < old(self).capacity() ==> final(self).buf()[j] == (if (j - old(
                    self,
                ).write_ix().pos) % old(self).capacity() < (if buf@.len()
                    <= old(self).capacity() {
                    buf@.len() as int
                } else {
                    old(self).capacity()
                }) {
                    buf@[(j - old(self).write_ix().pos) % old(self).capacity()]
                } else {
                    old(self).buf()[j]
                }),
            r == (if buf@.len() <= old(self).capacity() {
                Result::<(usize, usize), OverrunError>::Ok(
                    (buf@.len() as usize, (old(self).capacity() - buf@.len()) as usize),
                )
            } else {
                Result::<(usize, usize), OverrunError>::Ok((old(self).capacity() as usize, 0))
            }),
    {
        let cap = self.dma_buf.len();
        let written = if buf.len() < cap {
            buf.len()
        } else {
            cap
        };
        let ghost buf0 = self.dma_buf@;
        let ghost wpos = self.write_index.pos as int;
        let mut i: usize = 0;
        while i < written
            invariant
                i <= written,
                written <= buf@.len(),
                written <= cap,
                cap == self.capacity(),
                self.wf(),
                2 * self.capacity() <= usize::MAX,
                self.write_ix() == old(self).write_ix(),
                self.read_ix() == old(self).read_ix(),
                wpos == self.write_ix().pos,
                buf0.len() == cap,
                self.buf().len() == cap,
                forall|j: int|
                    0 <= j < cap ==> self.buf()[j] == (if (j - wpos) % (cap as int) < i {
                        buf@[(j - wpos) % (cap as int)]
                    } else {
                        buf0[j]
                    }),
            decreases written - i,
        {
            let w = buf[i];
            self.write_buf(i, w);
            proof {
                lemma_offset_roundtrip(wpos, i as int, cap as int);
                assert forall|j: int| 0 <= j < cap implies self.buf()[j] == (if (j - wpos) % (
                cap as int) < i + 1 {
                    buf@[(j - wpos) % (cap as int)]
                } else {
                    buf0[j]
                }) by {
                    lemma_mod_bound(j - wpos, cap as int);
                    if (j - wpos) % (cap as int) == i {
                        lemma_offset_unique(wpos, j, cap as int);
                    }
                }
            }
            i += 1;
        }
        Ok((written, cap - written))
    }

    /// The word `offset` places past the writer, set through the modular
    /// projection of the cursor.
    fn write_buf(&mut self, offset: usize, value: W)
        requires
            old(self).wf(),
            offset <= old(self).capacity(),
            2 * old(self).capacity() <= usize::MAX,
        ensures
            final(self).buf() == old(self).buf().update(
                (old(self).write_ix().pos + offset) % old(self).capacity(),
                value,
            ),
            final(self).read_ix() == old(self).read_ix(),
            final(self).write_ix() == old(self).write_ix(),
            final(self).wf(),
            final(self).capacity() == old(self).capacity(),
    {
        let idx = self.write_index.as_index(self.dma_buf.len(), offset);
        self.dma_buf[idx] = value;
    }

    /// The full capacity of the ring.
    pub fn cap(&self) -> (r: usize)
        ensures
            r == self.capacity(),
    {
        self.dma_buf.len()
    }

    /// The words of the underlying buffer, for inspection.
    pub fn buffer(&self) -> (r: &Vec<W>)
        ensures
            r@ == self.buf(),
    {
        &self.dma_buf
    }

    /// Dissolve the ring and hand the buffer back to the caller.
    pub fn into_buffer(self) -> (r: Vec<W>)
        ensures
            r@ == self.buf(),
    {
        self.dma_buf
    }
}

} // verus!
