//! The cursor algebra and the synchronisation laws, exercised on concrete
//! values, and the poll step of the exact-length transfers.

use dma_ring::{exact_step, DmaCtrl, DmaIndex, OverrunError, ReadableDmaRingBuffer};

/// A programmable register set, as a second party for `dma_sync`.
struct StepCtrl {
    cap: usize,
    transferred: usize,
    acked: usize,
    queued: Vec<usize>,
}

impl StepCtrl {
    fn new(cap: usize) -> Self {
        StepCtrl { cap, transferred: 0, acked: 0, queued: Vec::new() }
    }
}

impl DmaCtrl for StepCtrl {
    fn get_remaining_transfers(&mut self) -> usize {
        if !self.queued.is_empty() {
            let n = self.queued.remove(0);
            self.transferred += n;
        }
        self.cap - self.transferred % self.cap
    }

    fn reset_complete_count(&mut self) -> usize {
        let laps = self.transferred / self.cap;
        let count = laps - self.acked;
        self.acked = laps;
        count
    }

    fn set_waker(&mut self, _waker: &core::task::Waker) {}
}

#[test]
fn advance_accumulates_position_algebra() {
    // Advancing from zero by 3, 7 and 5 with capacity 4: the logical sum is
    // 15, so pos = 15 % 4 and completion_count = 15 / 4.
    let mut idx = DmaIndex::default();
    idx.advance(4, 3);
    idx.advance(4, 7);
    idx.advance(4, 5);
    assert_eq!(idx, DmaIndex { completion_count: 3, pos: 3 });
}

#[test]
fn advance_absorbs_exact_laps() {
    let mut idx = DmaIndex::default();
    idx.advance(8, 16);
    assert_eq!(idx, DmaIndex { completion_count: 2, pos: 0 });
}

#[test]
fn normalize_preserves_difference() {
    let mut a = DmaIndex { completion_count: 5, pos: 2 };
    let mut b = DmaIndex { completion_count: 3, pos: 6 };
    let before = a.diff(8, &b);
    DmaIndex::normalize(&mut a, &mut b);
    assert_eq!(a, DmaIndex { completion_count: 2, pos: 2 });
    assert_eq!(b, DmaIndex { completion_count: 0, pos: 6 });
    assert_eq!(a.diff(8, &b), before);
    assert_eq!(before, 12);
    assert_eq!(b.diff(8, &a), -12);
}

#[test]
fn as_index_projects_modulo_capacity() {
    let idx = DmaIndex { completion_count: 4, pos: 6 };
    assert_eq!(idx.as_index(8, 0), 6);
    assert_eq!(idx.as_index(8, 1), 7);
    assert_eq!(idx.as_index(8, 2), 0);
    assert_eq!(idx.as_index(8, 5), 3);
}

#[test]
fn sync_is_idempotent_when_hardware_rests() {
    let mut dma = StepCtrl::new(8);
    dma.transferred = 13;
    let mut idx = DmaIndex::default();
    idx.dma_sync(8, &mut dma);
    let first = idx;
    idx.dma_sync(8, &mut dma);
    assert_eq!(idx, first);
    idx.dma_sync(8, &mut dma);
    assert_eq!(idx, first);
}

#[test]
fn sync_counts_wrap_between_samples_exactly() {
    // The cursor rests at position 6. The engine then moves three words —
    // across the wrap boundary — after the wrap counter was cleared but
    // before the second position sample: the reconstruction must advance by
    // exactly 3, not 3 ± 8.
    let mut dma = StepCtrl::new(8);
    dma.transferred = 6;
    let mut idx = DmaIndex::default();
    idx.dma_sync(8, &mut dma);
    assert_eq!(idx, DmaIndex { completion_count: 0, pos: 6 });
    dma.queued = vec![0, 3];
    idx.dma_sync(8, &mut dma);
    assert_eq!(idx, DmaIndex { completion_count: 1, pos: 1 });
}

#[test]
fn sync_counts_wrap_before_counter_reset_exactly() {
    // The same three words land before the first position sample instead:
    // the wrap is reported by the first counter read, and the displacement
    // is again exactly 3.
    let mut dma = StepCtrl::new(8);
    dma.transferred = 6;
    let mut idx = DmaIndex::default();
    idx.dma_sync(8, &mut dma);
    dma.queued = vec![3, 0];
    idx.dma_sync(8, &mut dma);
    assert_eq!(idx, DmaIndex { completion_count: 1, pos: 1 });
}

#[test]
fn reset_returns_to_origin() {
    let mut idx = DmaIndex { completion_count: 9, pos: 5 };
    idx.reset();
    assert_eq!(idx, DmaIndex::default());
}

#[test]
fn exact_step_resolves_and_suspends() {
    // A transfer of six words fed by two partial reads of three.
    let (progress, done) = exact_step(0, 6, Ok((3, 0)));
    assert_eq!(progress, 3);
    assert_eq!(done, None);
    let (progress, done) = exact_step(progress, 6, Ok((3, 0)));
    assert_eq!(progress, 6);
    assert_eq!(done, Some(Ok(0)));
}

#[test]
fn exact_step_propagates_overrun() {
    let (progress, done) = exact_step(2, 6, Err(OverrunError));
    assert_eq!(progress, 2);
    assert_eq!(done, Some(Err(OverrunError)));
}

#[test]
fn exact_read_in_two_polls() {
    // The awaitable read of six words, driven by hand: three words are
    // there at the first poll, three more arrive before the second.
    let mut dma = StepCtrl::new(8);
    let buffer: Vec<u32> = (0..8).collect();
    let mut ring = ReadableDmaRingBuffer::new(buffer);
    let mut out = vec![0u32; 6];
    let target = out.len();
    let mut progress: usize = 0;

    dma.transferred = 3;
    let mut tail = vec![0u32; target - progress];
    let outcome = ring.read(&mut dma, &mut tail);
    assert_eq!(outcome, Ok((3, 0)));
    if let Ok((n, _)) = outcome {
        out[progress..progress + n].copy_from_slice(&tail[..n]);
    }
    let (new_progress, done) = exact_step(progress, target, outcome);
    progress = new_progress;
    assert_eq!(progress, 3);
    assert_eq!(done, None);

    dma.transferred += 3;
    let mut tail = vec![0u32; target - progress];
    let outcome = ring.read(&mut dma, &mut tail);
    assert_eq!(outcome, Ok((3, 0)));
    if let Ok((n, _)) = outcome {
        out[progress..progress + n].copy_from_slice(&tail[..n]);
    }
    let (new_progress, done) = exact_step(progress, target, outcome);
    assert_eq!(new_progress, 6);
    assert_eq!(done, Some(Ok(0)));
    assert_eq!(out, vec![0, 1, 2, 3, 4, 5]);
}
