//! End-to-end scenarios for the two ring buffers against a programmable
//! control port.

use dma_ring::{DmaCtrl, OverrunError, ReadableDmaRingBuffer, WritableDmaRingBuffer};

/// A software stand-in for the DMA engine's registers. `transferred` counts
/// the words the simulated engine has moved; `acked` the laps already handed
/// out by `reset_complete_count`. Advancement can also be queued so that it
/// lands in the middle of a synchronisation, at a chosen register sample.
struct MockCtrl {
    cap: usize,
    transferred: usize,
    acked: usize,
    queued: Vec<usize>,
}

impl MockCtrl {
    fn new(cap: usize) -> Self {
        MockCtrl { cap, transferred: 0, acked: 0, queued: Vec::new() }
    }

    /// The engine moves `n` words while no ring operation runs.
    fn advance(&mut self, n: usize) {
        self.transferred += n;
    }

    /// Queue advancements to be applied one per upcoming register sample.
    fn queue(&mut self, steps: &[usize]) {
        self.queued.extend_from_slice(steps);
    }
}

impl DmaCtrl for MockCtrl {
    fn get_remaining_transfers(&mut self) -> usize {
        if !self.queued.is_empty() {
            let n = self.queued.remove(0);
            self.transferred += n;
        }
        self.cap - self.transferred % self.cap
    }

    fn reset_complete_count(&mut self) -> usize {
        let laps = self.transferred / self.cap;
        let count = laps - self.acked;
        self.acked = laps;
        count
    }

    fn set_waker(&mut self, _waker: &core::task::Waker) {}
}

fn filled_buffer(cap: u32) -> Vec<u32> {
    let mut v = Vec::new();
    for i in 0..cap {
        v.push(i);
    }
    v
}

#[test]
fn basic_readable_read() {
    // Eight words 0..=7 in the buffer; the engine has written four of them.
    let mut dma = MockCtrl::new(8);
    let mut ring = ReadableDmaRingBuffer::new(filled_buffer(8));
    dma.advance(4);
    assert_eq!(ring.len(&mut dma), Ok(4));
    let mut out = vec![0u32; 4];
    assert_eq!(ring.read(&mut dma, &mut out), Ok((4, 0)));
    assert_eq!(out, vec![0, 1, 2, 3]);
}

#[test]
fn read_across_wrap() {
    let mut dma = MockCtrl::new(8);
    let mut ring = ReadableDmaRingBuffer::new(filled_buffer(8));
    dma.advance(6);
    let mut out = vec![0u32; 6];
    assert_eq!(ring.read(&mut dma, &mut out), Ok((6, 0)));
    assert_eq!(out, vec![0, 1, 2, 3, 4, 5]);
    // The engine wraps: two more words land at the end of the buffer.
    dma.advance(2);
    let mut out = vec![0u32; 2];
    assert_eq!(ring.read(&mut dma, &mut out), Ok((2, 0)));
    assert_eq!(out, vec![6, 7]);
    // Two more words after the wrap, at the start of the buffer.
    dma.advance(2);
    assert_eq!(ring.len(&mut dma), Ok(2));
    let mut out = vec![9u32; 2];
    assert_eq!(ring.read(&mut dma, &mut out), Ok((2, 0)));
    assert_eq!(out, vec![0, 1]);
}

#[test]
fn overrun_on_readable() {
    // The engine laps the reader twice: sixteen words with nothing consumed.
    let mut dma = MockCtrl::new(8);
    let mut ring = ReadableDmaRingBuffer::new(filled_buffer(8));
    dma.advance(16);
    assert_eq!(ring.len(&mut dma), Err(OverrunError));
    // `read` clears the ring on overrun; afterwards it is empty again.
    let mut out = vec![0u32; 4];
    assert_eq!(ring.read(&mut dma, &mut out), Err(OverrunError));
    assert_eq!(ring.len(&mut dma), Ok(0));
}

#[test]
fn writable_initial_full() {
    let mut dma = MockCtrl::new(8);
    let mut ring = WritableDmaRingBuffer::new(vec![0u32; 8]);
    let data: Vec<u32> = (1..=8).collect();
    assert_eq!(ring.write_immediate(&data), Ok((8, 0)));
    assert_eq!(ring.buffer(), &data);
    assert_eq!(ring.len(&mut dma), Ok(0));
}

#[test]
fn writable_drain() {
    let mut dma = MockCtrl::new(8);
    let mut ring = WritableDmaRingBuffer::new(vec![0u32; 8]);
    let data: Vec<u32> = (1..=8).collect();
    assert_eq!(ring.write_immediate(&data), Ok((8, 0)));
    // The engine consumes four words; their slots become writable.
    dma.advance(4);
    assert_eq!(ring.len(&mut dma), Ok(4));
    let fresh = vec![0xA_u32, 0xB, 0xC, 0xD];
    assert_eq!(ring.write(&mut dma, &fresh), Ok((4, 0)));
    assert_eq!(&ring.buffer()[0..4], &[0xA, 0xB, 0xC, 0xD]);
    assert_eq!(&ring.buffer()[4..8], &[5, 6, 7, 8]);
}

#[test]
fn writable_overrun_autoclear() {
    let mut dma = MockCtrl::new(8);
    let mut ring = WritableDmaRingBuffer::new(vec![0u32; 8]);
    // The engine reads past everything the writer ever provided.
    dma.advance(16);
    assert_eq!(ring.len(&mut dma), Err(OverrunError));
    let data = vec![1u32, 2];
    assert_eq!(ring.write(&mut dma, &data), Err(OverrunError));
    // After the automatic clear the ring is full again: no room.
    assert_eq!(ring.len(&mut dma), Ok(0));
}

#[test]
fn read_raw_surfaces_overrun_without_recovery() {
    // The raw variant leaves the diverged state in place: a later `len`
    // still reports the overrun.
    let mut dma = MockCtrl::new(8);
    let mut ring = ReadableDmaRingBuffer::new(filled_buffer(8));
    dma.advance(9);
    let mut out = vec![0u32; 4];
    assert_eq!(ring.read_raw(&mut dma, &mut out), Err(OverrunError));
    assert_eq!(ring.len(&mut dma), Err(OverrunError));
}

#[test]
fn write_raw_surfaces_overrun_without_recovery() {
    let mut dma = MockCtrl::new(8);
    let mut ring = WritableDmaRingBuffer::new(vec![0u32; 8]);
    dma.advance(16);
    let data = vec![1u32, 2];
    assert_eq!(ring.write_raw(&mut dma, &data), Err(OverrunError));
    assert_eq!(ring.len(&mut dma), Err(OverrunError));
}

#[test]
fn len_reports_progress_minus_consumption() {
    // Interleaved production and consumption within capacity: `len` always
    // equals words produced minus words consumed.
    let mut dma = MockCtrl::new(8);
    let mut ring = ReadableDmaRingBuffer::new(filled_buffer(8));
    let mut produced: usize = 0;
    let mut consumed: usize = 0;
    for (make, take) in [(3usize, 2usize), (4, 4), (5, 3), (2, 5)] {
        dma.advance(make);
        produced += make;
        assert_eq!(ring.len(&mut dma), Ok(produced - consumed));
        let mut out = vec![0u32; take];
        let (got, _rem) = ring.read(&mut dma, &mut out).unwrap();
        assert_eq!(got, take);
        consumed += take;
        assert_eq!(ring.len(&mut dma), Ok(produced - consumed));
    }
}

#[test]
fn overrun_triggers_exactly_past_capacity() {
    // A full lap is still readable; one more word is an overrun.
    let mut dma = MockCtrl::new(8);
    let mut ring = ReadableDmaRingBuffer::new(filled_buffer(8));
    dma.advance(8);
    assert_eq!(ring.len(&mut dma), Ok(8));

    let mut dma = MockCtrl::new(8);
    let mut ring = ReadableDmaRingBuffer::new(filled_buffer(8));
    dma.advance(9);
    assert_eq!(ring.len(&mut dma), Err(OverrunError));
}

#[test]
fn read_after_autoclear_sees_new_words() {
    let mut dma = MockCtrl::new(8);
    let mut ring = ReadableDmaRingBuffer::new(filled_buffer(8));
    dma.advance(9);
    let mut out = vec![0u32; 4];
    assert_eq!(ring.read(&mut dma, &mut out), Err(OverrunError));
    // Two fresh words after recovery are reported by `len`.
    dma.advance(2);
    assert_eq!(ring.len(&mut dma), Ok(2));
}

#[test]
fn write_immediate_places_words_at_buffer_start() {
    let mut ring = WritableDmaRingBuffer::new(vec![0u32; 8]);
    let data = vec![7u32, 8, 9];
    assert_eq!(ring.write_immediate(&data), Ok((3, 5)));
    assert_eq!(&ring.buffer()[0..3], &[7, 8, 9]);
    assert_eq!(&ring.buffer()[3..8], &[0, 0, 0, 0, 0]);
}

#[test]
fn write_immediate_long_input_is_capped() {
    let mut ring = WritableDmaRingBuffer::new(vec![0u32; 4]);
    let data = vec![1u32, 2, 3, 4, 5, 6];
    assert_eq!(ring.write_immediate(&data), Ok((4, 0)));
    assert_eq!(ring.buffer(), &vec![1, 2, 3, 4]);
}

#[test]
fn read_reports_arrivals_during_copy() {
    // Two more words arrive while the copy loop runs; the remaining count
    // returned by `read` includes them, because the hardware is re-sampled
    // after the copy.
    let mut dma = MockCtrl::new(8);
    let mut ring = ReadableDmaRingBuffer::new(filled_buffer(8));
    dma.advance(4);
    dma.queue(&[0, 0, 2]);
    let mut out = vec![0u32; 4];
    assert_eq!(ring.read(&mut dma, &mut out), Ok((4, 2)));
    assert_eq!(out, vec![0, 1, 2, 3]);
}

#[test]
fn empty_destination_reads_nothing() {
    let mut dma = MockCtrl::new(8);
    let mut ring = ReadableDmaRingBuffer::new(filled_buffer(8));
    dma.advance(5);
    let mut out: Vec<u32> = Vec::new();
    assert_eq!(ring.read(&mut dma, &mut out), Ok((0, 5)));
}

#[test]
fn smallest_capacity_ring() {
    let mut dma = MockCtrl::new(2);
    let mut ring = ReadableDmaRingBuffer::new(vec![10u32, 11]);
    dma.advance(2);
    assert_eq!(ring.len(&mut dma), Ok(2));
    let mut out = vec![0u32; 2];
    assert_eq!(ring.read(&mut dma, &mut out), Ok((2, 0)));
    assert_eq!(out, vec![10, 11]);
}

#[test]
fn buffer_ownership_returns_to_caller() {
    let mut dma = MockCtrl::new(8);
    let mut ring = WritableDmaRingBuffer::new(vec![0u32; 8]);
    let data: Vec<u32> = (1..=8).collect();
    assert_eq!(ring.write_immediate(&data), Ok((8, 0)));
    assert_eq!(ring.len(&mut dma), Ok(0));
    assert_eq!(ring.into_buffer(), data);

    let ring = ReadableDmaRingBuffer::new(filled_buffer(8));
    assert_eq!(ring.into_buffer(), filled_buffer(8));
}

#[test]
fn capacity_is_reported() {
    let ring = ReadableDmaRingBuffer::new(vec![0u8; 32]);
    assert_eq!(ring.cap(), 32);
    let wring = WritableDmaRingBuffer::new(vec![0u16; 16]);
    assert_eq!(wring.cap(), 16);
}
