//! Lock-free coordination between a DMA engine streaming words over a fixed
//! circular buffer and a CPU-side reader or writer.
//!
//! The engine's position is reconstructed from two registers that cannot be
//! sampled atomically (transfers remaining, and a read-and-clear wrap
//! counter); the reconstruction is exact even when the engine wraps between
//! the two samples. Two ring views are offered: [`ReadableDmaRingBuffer`]
//! (hardware produces, CPU consumes) and [`WritableDmaRingBuffer`] (CPU
//! produces, hardware consumes). Both detect overrun: the hardware overtaking
//! the CPU by more than one buffer's worth.
//!
//! The control port is specified through a ghost model of the engine — the
//! total words transferred and the laps already reported — and every
//! operation's contract is exact in that model, including the words a read
//! hands out, the slots a write fills, and the precise condition under which
//! overrun is reported.

pub mod ctrl;
pub mod index;
pub mod poll;
pub mod readable;
pub mod word;
pub mod writable;

pub use ctrl::{DmaCtrl, OverrunError};
pub use index::DmaIndex;
pub use poll::exact_step;
pub use readable::ReadableDmaRingBuffer;
pub use writable::WritableDmaRingBuffer;
pub use word::Word;
