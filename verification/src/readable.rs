//! The ring the DMA engine fills and the CPU drains.
//!
//! The hardware drives `write_index` (reconstructed from the port on every
//! operation); the CPU drives `read_index` (advanced only when words are
//! handed out). The signed difference of the two cursors is the number of
//! readable words; when it exceeds the capacity the engine has lapped the
//! reader and the data is lost — an overrun.

use vstd::prelude::*;

use crate::ctrl::{hw_seen, hw_wf, lemma_seen_bounds, lesser, DmaCtrl, OverrunError};
use crate::index::DmaIndex;
use crate::word::Word;

verus! {

/// A circular buffer the DMA engine writes and the CPU reads.
pub struct ReadableDmaRingBuffer<W: Word> {
    dma_buf: Vec<W>,
    write_index: DmaIndex,
    read_index: DmaIndex,
}

impl<W: Word> ReadableDmaRingBuffer<W> {
    /// The words of the underlying buffer.
    pub closed spec fn buf(self) -> Seq<W> {
        self.dma_buf@
    }

    /// The hardware-driven cursor.
    pub closed spec fn write_ix(self) -> DmaIndex {
        self.write_index
    }

    /// The CPU-driven cursor.
    pub closed spec fn read_ix(self) -> DmaIndex {
        self.read_index
    }

    /// The capacity, as the mathematical size of the buffer.
    pub open spec fn capacity(self) -> int {
        self.buf().len() as int
    }

    /// Number of words between the reader and the writer: what a read may
    /// still consume. Exceeds the capacity exactly when an overrun happened.
    pub open spec fn avail(self) -> int {
        self.write_ix().logical(self.capacity()) - self.read_ix().logical(self.capacity())
    }

    /// The ring is well formed: non-empty buffer, cursors in range, reader
    /// not past the writer.
    pub open spec fn wf(self) -> bool {
        &&& 1 <= self.capacity()
        &&& self.write_ix().wf(self.capacity())
        &&& self.read_ix().wf(self.capacity())
        &&& 0 <= self.avail()
    }

    /// Where the writer cursor will stand right after the next
    /// synchronisation against port state `c`: the laps this ring has not
    /// yet absorbed (`acked - completion_count` were handed out before this
    /// ring's cursor was last normalised or reset) plus everything `c` has
    /// seen.
    pub open spec fn sync_target<C: DmaCtrl>(self, c: &C) -> int {
        self.write_ix().completion_count * self.capacity() - c.acked() * self.capacity()
            + hw_seen(c)
    }

    /// What `len` would report against port state `c`, before any further
    /// hardware progress.
    pub open spec fn sync_avail<C: DmaCtrl>(self, c: &C) -> int {
        self.sync_target(c) - self.read_ix().logical(self.capacity())
    }

    /// The ring is tracking port `c`: same capacity, the writer cursor has
    /// absorbed no more laps than the port handed out, and the reader is not
    /// past the position the next synchronisation will compute.
    pub open spec fn linked<C: DmaCtrl>(self, c: &C) -> bool {
        &&& hw_wf(c)
        &&& c.capacity() == self.capacity()
        &&& self.write_ix().completion_count <= c.acked()
        &&& self.read_ix().logical(self.capacity()) <= self.sync_target(c)
    }

    /// Construct an empty ring over `dma_buf`; both cursors start at the
    /// stream origin.
    pub fn new(dma_buf: Vec<W>) -> (r: Self)
        requires
            1 <= dma_buf@.len(),
        ensures
            r.buf() == dma_buf@,
            r.wf(),
            r.write_ix() == (DmaIndex { completion_count: 0, pos: 0 }),
            r.read_ix() == (DmaIndex { completion_count: 0, pos: 0 }),
            r.avail() == 0,
    {
        Self {
            dma_buf,
            write_index: DmaIndex { completion_count: 0, pos: 0 },
            read_index: DmaIndex { completion_count: 0, pos: 0 },
        }
    }

    /// A freshly constructed or cleared ring tracks any well-formed port of
    /// the same capacity.
    pub proof fn lemma_origin_linked<C: DmaCtrl>(self, c: &C)
        requires
            self.wf(),
            hw_wf(c),
            c.capacity() == self.capacity(),
            self.write_ix().completion_count == 0,
            self.read_ix() == (DmaIndex { completion_count: 0, pos: 0 }),
        ensures
            self.linked(c),
    {
        lemma_seen_bounds(c.capacity() as int, c.transferred() as int, c.acked() as int);
    }

    /// A cursor synchronised to port state `c` stands exactly at the
    /// position the next synchronisation against `c` would compute.
    proof fn lemma_synced_at_target<C: DmaCtrl>(self, c: &C)
        requires
            c.capacity() == self.capacity(),
            self.write_ix().pos == c.transferred() as int % c.capacity() as int,
        ensures
            self.sync_target(c) == self.write_ix().logical(self.capacity()),
    {
    }

    /// Resynchronise with the hardware and drop everything unread: the wrap
    /// counter is cleared, the writer cursor is rebuilt from the registers,
    /// and the reader is placed on top of it. The ring is empty afterwards,
    /// whatever state (including overrun) it was in.
    pub fn clear(&mut self, dma: &mut impl DmaCtrl)
        requires
            old(self).wf(),
            old(self).linked(old(dma)),
        ensures
            final(self).wf(),
            final(self).linked(final(dma)),
            final(self).buf() == old(self).buf(),
            final(dma).capacity() == old(dma).capacity(),
            old(dma).transferred() <= final(dma).transferred(),
            hw_seen(old(dma)) <= hw_seen(final(dma)),
            final(self).read_ix() == final(self).write_ix(),
            final(self).avail() == 0,
            final(self).write_ix().pos
                == final(dma).transferred() as int % final(dma).capacity() as int,
            old(dma).transferred() == final(dma).transferred()
                ==> hw_seen(final(dma)) == final(dma).transferred(),
    {
        let cap = self.dma_buf.len();
        proof {
            lemma_seen_bounds(
                old(dma).capacity() as int,
                old(dma).transferred() as int,
                old(dma).acked() as int,
            );
        }
        let _ = dma.reset_complete_count();
        proof {
            let t = dma.transferred() as int;
            let c = dma.capacity() as int;
            vstd::arithmetic::div_mod::lemma_fundamental_div_mod(t, c);
            assert((t / c) * c == c * (t / c)) by (nonlinear_arith);
            assert(hw_seen(dma) == t);
        }
        self.write_index.reset();
        self.write_index.dma_sync(cap, dma);
        self.read_index = self.write_index;
        proof {
            lemma_seen_bounds(
                dma.capacity() as int,
                dma.transferred() as int,
                dma.acked() as int,
            );
            self.lemma_synced_at_target(dma);
            if old(dma).transferred() == dma.transferred() {
                let t = dma.transferred() as int;
                let c = dma.capacity() as int;
                vstd::arithmetic::div_mod::lemma_fundamental_div_mod(t, c);
                assert((t / c) * c == c * (t / c)) by (nonlinear_arith);
                assert(hw_seen(dma) == t);
            }
        }
    }

    /// The number of readable words: how far the hardware writer, freshly
    /// sampled, stands ahead of the reader. Both cursors are normalised on
    /// the way. Reports an overrun when the writer has run more than a full
    /// lap ahead.
    ///
    /// The contract is a conservation ledger: the reported count moves by
    /// exactly what the port has newly seen, and a read's contract subtracts
    /// exactly the words it handed out — so over any sequence of operations
    /// on a port whose counter is drained, the count equals words produced
    /// minus words consumed.
    pub fn len(&mut self, dma: &mut impl DmaCtrl) -> (r: Result<usize, OverrunError>)
        requires
            old(self).wf(),
            old(self).linked(old(dma)),
        ensures
            final(self).wf(),
            final(self).linked(final(dma)),
            final(self).buf() == old(self).buf(),
            final(dma).capacity() == old(dma).capacity(),
            old(dma).transferred() <= final(dma).transferred(),
            hw_seen(old(dma)) <= hw_seen(final(dma)),
            old(dma).transferred() == final(dma).transferred()
                ==> hw_seen(final(dma)) == final(dma).transferred(),
            final(self).read_ix().pos == old(self).read_ix().pos,
            final(self).write_ix().pos
                == final(dma).transferred() as int % final(dma).capacity() as int,
            final(self).avail()
                == old(self).sync_avail(old(dma)) + hw_seen(final(dma)) - hw_seen(old(dma)),
            final(self).write_ix().completion_count == 0
                || final(self).read_ix().completion_count == 0,
            r == (if final(self).avail() > final(self).capacity() {
                Result::<usize, OverrunError>::Err(OverrunError)
            } else {
                Result::<usize, OverrunError>::Ok(final(self).avail() as usize)
            }),
    {
        let ghost cc0 = self.write_index.completion_count as int;
        let ghost a0 = old(dma).acked() as int;
        let cap = self.dma_buf.len();
        self.write_index.dma_sync(cap, dma);
        proof {
            lemma_seen_bounds(
                dma.capacity() as int,
                dma.transferred() as int,
                dma.acked() as int,
            );
            vstd::arithmetic::div_mod::lemma_fundamental_div_mod(
                dma.transferred() as int,
                dma.capacity() as int,
            );
            vstd::arithmetic::mul::lemma_mul_inequality(cc0, a0, cap as int);
            vstd::arithmetic::mul::lemma_mul_nonnegative(
                self.read_index.completion_count as int,
                cap as int,
            );
            vstd::arithmetic::mul::lemma_mul_nonnegative(
                self.write_index.completion_count as int,
                cap as int,
            );
            self.lemma_synced_at_target(dma);
            if old(dma).transferred() == dma.transferred() {
                let t = dma.transferred() as int;
                let c = dma.capacity() as int;
                assert((t / c) * c == c * (t / c)) by (nonlinear_arith);
                assert(hw_seen(dma) == t);
            }
            assert(self.write_index.logical(cap as int) <= isize::MAX);
            assert(self.read_index.logical(cap as int)
                <= self.write_index.logical(cap as int));
        }
        let ghost wpre = self.write_index;
        let ghost rpre = self.read_index;
        DmaIndex::normalize(&mut self.write_index, &mut self.read_index);
        proof {
            assert(self.write_index.logical(cap as int) - self.read_index.logical(cap as int)
                == wpre.logical(cap as int) - rpre.logical(cap as int));
            vstd::arithmetic::mul::lemma_mul_inequality(
                self.write_index.completion_count as int,
                wpre.completion_count as int,
                cap as int,
            );
            vstd::arithmetic::mul::lemma_mul_inequality(
                self.read_index.completion_count as int,
                rpre.completion_count as int,
                cap as int,
            );
            vstd::arithmetic::mul::lemma_mul_nonnegative(
                self.read_index.completion_count as int,
                cap as int,
            );
            vstd::arithmetic::mul::lemma_mul_nonnegative(
                self.write_index.completion_count as int,
                cap as int,
            );
            self.lemma_synced_at_target(dma);
        }
        let diff = self.write_index.diff(cap, &self.read_index);
        let diff_u = diff as usize;
        if diff_u > cap {
            Err(OverrunError)
        } else {
            Ok(diff_u)
        }
    }

    /// What a successful read reports, relating the ring and port before
    /// (`pre`, `c0`) and after (`post`, `cf`) the call, the caller's buffer
    /// before and after (`out0`, `out1`), the count handed out `n` and the
    /// reported leftover `rem`.
    pub open spec fn read_outcome<C: DmaCtrl>(
        pre: Self,
        c0: &C,
        post: Self,
        cf: &C,
        out0: Seq<W>,
        out1: Seq<W>,
        n: int,
        rem: int,
    ) -> bool {
        &&& 0 <= n <= out0.len()
        &&& n <= pre.capacity()
        &&& out1.len() == out0.len()
        &&& forall|i: int|
            0 <= i < n ==> out1[i] == pre.buf()[(pre.read_ix().pos + i) % pre.capacity()]
        &&& forall|i: int| n <= i < out0.len() ==> out1[i] == out0[i]
        &&& post.avail() == pre.sync_avail(c0) + hw_seen(cf) - hw_seen(c0) - n
        &&& rem == post.avail()
        &&& post.read_ix().pos == (pre.read_ix().pos + n) % pre.capacity()
        &&& (c0.transferred() == cf.transferred() && hw_seen(c0) == c0.transferred() ==> n
            == if pre.sync_avail(c0) <= out0.len() {
                pre.sync_avail(c0)
            } else {
                out0.len() as int
            })
    }

    /// Read up to `min(len, buf.len())` words into the front of `buf`,
    /// advance the reader past them, and report `(read, remaining)`, where
    /// `remaining` counts what the hardware had delivered by the end of the
    /// copy and is not yet consumed. On overrun the error is surfaced
    /// verbatim: the ring keeps its diverged state and the reader is not
    /// advanced.
    pub fn read_raw(&mut self, dma: &mut impl DmaCtrl, buf: &mut Vec<W>) -> (r: Result<
        (usize, usize),
        OverrunError,
    >)
        requires
            old(self).wf(),
            old(self).linked(old(dma)),
        ensures
            final(self).wf(),
            final(self).linked(final(dma)),
            final(self).buf() == old(self).buf(),
            final(dma).capacity() == old(dma).capacity(),
            old(dma).transferred() <= final(dma).transferred(),
            hw_seen(old(dma)) <= hw_seen(final(dma)),
            r matches Ok(p) ==> Self::read_outcome(
                *old(self),
                old(dma),
                *final(self),
                final(dma),
                old(buf)@,
                final(buf)@,
                p.0 as int,
                p.1 as int,
            ),
            r matches Ok(p) ==> exists|avail1: int|
                {
                    &&& old(self).sync_avail(old(dma)) <= avail1 <= old(self).sync_avail(
                        old(dma),
                    ) + (hw_seen(final(dma)) - hw_seen(old(dma)))
                    &&& 0 <= avail1 <= old(self).capacity()
                    &&& p.0 == #[trigger] lesser(avail1, old(buf)@.len() as int)
                },
            (old(dma).transferred() == final(dma).transferred() && hw_seen(old(dma)) == old(
                dma,
            ).transferred()) ==> (r is Err <==> old(self).sync_avail(old(dma)) > old(
                self,
            ).capacity()),
            r is Err ==> {
                &&& final(self).avail() > final(self).capacity()
                &&& final(self).read_ix().pos == old(self).read_ix().pos
                &&& final(self).write_ix().pos
                    == final(dma).transferred() as int % final(dma).capacity() as int
                &&& (old(dma).transferred() == final(dma).transferred()
                    ==> hw_seen(final(dma)) == final(dma).transferred())
                &&& final(buf)@.len() == old(buf)@.len()
                &&& forall|i: int|
                    0 <= i < old(buf)@.len() ==> final(buf)@[i] == old(buf)@[i]
                        || final(buf)@[i] == old(self).buf()[(old(self).read_ix().pos + i)
                        % old(self).capacity()]
            },
    {
        let cap = self.dma_buf.len();
        let avail = match self.len(dma) {
            Ok(a) => a,
            Err(e) => {
                return Err(e);
            },
        };
        let readable = if avail < buf.len() {
            avail
        } else {
            buf.len()
        };
        let ghost smid = *self;
        let ghost dmid = *dma;
        let ghost avail1g = avail as int;
        let mut i: usize = 0;
        while i < readable
            invariant
                i <= readable,
                *self == smid,
                self.wf(),
                readable <= buf@.len(),
                readable <= self.capacity(),
                buf@.len() == old(buf)@.len(),
                2 * self.capacity() <= usize::MAX,
                forall|j: int|
                    0 <= j < i ==> buf@[j] == self.buf()[(self.read_ix().pos + j)
                        % self.capacity()],
                forall|j: int| i <= j < buf@.len() ==> buf@[j] == old(buf)@[j],
            decreases readable - i,
        {
            let w = self.read_buf(i);
            buf[i] = w;
            i += 1;
        }
        let available = match self.len(dma) {
            Ok(a) => a,
            Err(e) => {
                return Err(e);
            },
        };
        proof {
            smid.lemma_synced_at_target(&dmid);
            assert(available >= readable);
            assert(self.read_index.completion_count <= self.read_index.completion_count
                * (cap as int)) by (nonlinear_arith)
                requires
                    1 <= cap,
            ;
            vstd::arithmetic::mul::lemma_mul_inequality(
                self.write_index.completion_count as int,
                dma.acked() as int,
                cap as int,
            );
            lemma_seen_bounds(
                dma.capacity() as int,
                dma.transferred() as int,
                dma.acked() as int,
            );
            assert(self.read_index.logical(cap as int) <= self.sync_target(dma));
            assert(self.read_index.completion_count * (cap as int)
                <= self.read_index.logical(cap as int));
            vstd::arithmetic::div_mod::lemma_mod_bound(
                self.read_index.pos + readable,
                cap as int,
            );
            vstd::arithmetic::div_mod::lemma_div_is_ordered(
                0,
                self.read_index.pos + readable,
                cap as int,
            );
            assert((self.read_index.pos + readable) / (cap as int) <= 2) by {
                vstd::arithmetic::div_mod::lemma_div_is_ordered(
                    self.read_index.pos + readable,
                    2 * (cap as int),
                    cap as int,
                );
                assert(2 * (cap as int) / (cap as int) == 2) by (nonlinear_arith)
                    requires
                        1 <= cap,
                ;
            }
        }
        self.read_index.advance(cap, readable);
        proof {
            assert(avail1g == old(self).sync_avail(old(dma)) + (hw_seen(&dmid) - hw_seen(
                old(dma),
            )));
            assert(hw_seen(&dmid) <= hw_seen(dma));
            assert(readable as int == lesser(avail1g, old(buf)@.len() as int));
            assert(exists|avail1: int|
                {
                    &&& old(self).sync_avail(old(dma)) <= avail1 <= old(self).sync_avail(
                        old(dma),
                    ) + (hw_seen(dma) - hw_seen(old(dma)))
                    &&& 0 <= avail1 <= old(self).capacity()
                    &&& readable as int == #[trigger] lesser(avail1, old(buf)@.len() as int)
                });
        }
        Ok((readable, available - readable))
    }

    /// Like [`Self::read_raw`], but on overrun the ring first clears itself,
    /// so the caller may retry against fresh data at once.
    pub fn read(&mut self, dma: &mut impl DmaCtrl, buf: &mut Vec<W>) -> (r: Result<
        (usize, usize),
        OverrunError,
    >)
        requires
            old(self).wf(),
            old(self).linked(old(dma)),
        ensures
            final(self).wf(),
            final(self).linked(final(dma)),
            final(self).buf() == old(self).buf(),
            final(dma).capacity() == old(dma).capacity(),
            old(dma).transferred() <= final(dma).transferred(),
            hw_seen(old(dma)) <= hw_seen(final(dma)),
            r matches Ok(p) ==> Self::read_outcome(
                *old(self),
                old(dma),
                *final(self),
                final(dma),
                old(buf)@,
                final(buf)@,
                p.0 as int,
                p.1 as int,
            ),
            r matches Ok(p) ==> exists|avail1: int|
                {
                    &&& old(self).sync_avail(old(dma)) <= avail1 <= old(self).sync_avail(
                        old(dma),
                    ) + (hw_seen(final(dma)) - hw_seen(old(dma)))
                    &&& 0 <= avail1 <= old(self).capacity()
                    &&& p.0 == #[trigger] lesser(avail1, old(buf)@.len() as int)
                },
            (old(dma).transferred() == final(dma).transferred() && hw_seen(old(dma)) == old(
                dma,
            ).transferred()) ==> (r is Err <==> old(self).sync_avail(old(dma)) > old(
                self,
            ).capacity()),
            r is Err ==> {
                &&& final(self).avail() == 0
                &&& final(self).read_ix() == final(self).write_ix()
                &&& final(self).write_ix().pos
                    == final(dma).transferred() as int % final(dma).capacity() as int
                &&& (old(dma).transferred() == final(dma).transferred()
                    ==> hw_seen(final(dma)) == final(dma).transferred())
                &&& final(buf)@.len() == old(buf)@.len()
                &&& forall|i: int|
                    0 <= i < old(buf)@.len() ==> final(buf)@[i] == old(buf)@[i]
                        || final(buf)@[i] == old(self).buf()[(old(self).read_ix().pos + i)
                        % old(self).capacity()]
            },
    {
        match self.read_raw(dma, buf) {
            Ok(p) => Ok(p),
            Err(e) => {
                self.clear(dma);
                Err(e)
            },
        }
    }

    /// The word `offset` places past the reader, through the modular
    /// projection of the cursor.
    fn read_buf(&self, offset: usize) -> (r: W)
        requires
            self.wf(),
            offset <= self.capacity(),
            2 * self.capacity() <= usize::MAX,
        ensures
            r == self.buf()[(self.read_ix().pos + offset) % self.capacity()],
    {
        let idx = self.read_index.as_index(self.dma_buf.len(), offset);
        self.dma_buf[idx]
    }

    /// The full capacity of the ring.
    pub fn cap(&self) -> (r: usize)
        ensures
            r == self.capacity(),
    {
        self.dma_buf.len()
    }

    /// The words of the underlying buffer, for inspection.
    pub fn buffer(&self) -> (r: &Vec<W>)
        ensures
            r@ == self.buf(),
    {
        &self.dma_buf
    }

    /// Dissolve the ring and hand the buffer back to the caller.
    pub fn into_buffer(self) -> (r: Vec<W>)
        ensures
            r@ == self.buf(),
    {
        self.dma_buf
    }
}

} // verus!
