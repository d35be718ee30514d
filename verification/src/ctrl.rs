//! The control port through which a ring buffer observes the DMA engine.
//!
//! The port is modelled by three ghost quantities. `transferred()` is the
//! total number of words the engine has moved since it was started; it only
//! grows. `acked()` is the number of completed laps that have already been
//! handed out by `reset_complete_count`. `capacity()` is the size of the
//! circular buffer the engine runs over. The hardware advances asynchronously,
//! so a register read may observe any `transferred()` at least as large as the
//! one before the call.

use vstd::prelude::*;

verus! {

/// A port whose counters read `cap`, `transferred`, `acked` is well formed:
/// the buffer is not empty, no lap has been reported before it happened, and
/// the counters stay within what the machine's signed word can hold.
pub open spec fn hw_state_wf(cap: nat, transferred: nat, acked: nat) -> bool {
    &&& 1 <= cap
    &&& acked <= transferred as int / cap as int
    &&& transferred + 2 * cap <= isize::MAX as int
}

/// A port is well formed (see [`hw_state_wf`]).
pub open spec fn hw_wf<C: DmaCtrl>(c: &C) -> bool {
    hw_state_wf(c.capacity(), c.transferred(), c.acked())
}

/// The part of the engine's progress that one synchronisation can account
/// for right now: the laps the port has reported plus the position within
/// the current lap. Laps that have happened but were not yet handed out by
/// `reset_complete_count` are not included.
pub open spec fn hw_seen<C: DmaCtrl>(c: &C) -> int {
    c.acked() * c.capacity() + c.transferred() as int % c.capacity() as int
}

/// In a well-formed state, reported laps never outrun true progress:
/// `acked * cap + transferred % cap <= transferred`, so what the port has
/// `seen` lies between `acked * cap` and `transferred`.
pub proof fn lemma_seen_bounds(cap: int, transferred: int, acked: int)
    requires
        hw_state_wf(cap as nat, transferred as nat, acked as nat),
        0 <= transferred,
        0 <= acked,
        0 <= cap,
    ensures
        0 <= acked * cap <= acked * cap + transferred % cap <= transferred,
        0 <= transferred % cap < cap,
{
    vstd::arithmetic::div_mod::lemma_fundamental_div_mod(transferred, cap);
    vstd::arithmetic::div_mod::lemma_mod_bound(transferred, cap);
    assert(0 <= acked * cap <= (transferred / cap) * cap) by (nonlinear_arith)
        requires
            0 <= acked <= transferred / cap,
            1 <= cap,
    ;
}

/// The lesser of two quantities: the count a partial transfer settles on,
/// given what is available and the room offered.
pub open spec fn lesser(a: int, b: int) -> int {
    if a <= b {
        a
    } else {
        b
    }
}

/// The sole error of the ring buffers: the DMA engine has overtaken the
/// CPU-side cursor by more than one buffer's worth, so data was lost.
#[derive(Debug, PartialEq, Eq, Structural)]
pub struct OverrunError;

/// `core::task::Waker` carries the wake-up token that `set_waker` registers.
/// Verus is told nothing about it; the ring-buffer logic only passes it
/// through to the port.
#[verifier::external_type_specification]
#[verifier::external_body]
pub struct ExWaker(core::task::Waker);

/// Abstract interface to the DMA engine's position registers.
///
/// An implementation reports how far a single, strictly sequential engine has
/// advanced over a circular buffer of `capacity()` words. The two register
/// reads cannot be made atomically; the contracts below say exactly which
/// snapshot of the moving counters each call returns.
pub trait DmaCtrl: Sized {
    /// Size of the circular buffer the engine wraps over, in words. Left
    /// abstract: each implementation is its own model of the registers.
    open spec fn capacity(&self) -> nat {
        arbitrary()
    }

    /// Total words the engine has transferred since it started. Grows
    /// monotonically; a wrap occurs each time it crosses a multiple of
    /// `capacity()`. Left abstract, as `capacity` is.
    open spec fn transferred(&self) -> nat {
        arbitrary()
    }

    /// Number of completed laps already reported by `reset_complete_count`.
    /// Left abstract, as `capacity` is.
    open spec fn acked(&self) -> nat {
        arbitrary()
    }

    /// Read the transfers-remaining register: how many words are left until
    /// the engine next wraps to the start of the buffer. The hardware may
    /// advance before the register is sampled.
    fn get_remaining_transfers(&mut self) -> (r: usize)
        requires
            hw_state_wf(old(self).capacity(), old(self).transferred(), old(self).acked()),
        ensures
            hw_state_wf(final(self).capacity(), final(self).transferred(), final(self).acked()),
            final(self).capacity() == old(self).capacity(),
            final(self).acked() == old(self).acked(),
            old(self).transferred() <= final(self).transferred(),
            r == final(self).capacity() - final(self).transferred() as int % final(self).capacity() as int,
    ;

    /// Atomically read and clear the wrap-event counter: the number of laps
    /// completed since the previous call. The register itself is
    /// read-and-clear, so the sample and the reset observe one instant.
    fn reset_complete_count(&mut self) -> (r: usize)
        requires
            hw_state_wf(old(self).capacity(), old(self).transferred(), old(self).acked()),
        ensures
            hw_state_wf(final(self).capacity(), final(self).transferred(), final(self).acked()),
            final(self).capacity() == old(self).capacity(),
            final(self).transferred() == old(self).transferred(),
            final(self).acked() == final(self).transferred() as int / final(self).capacity() as int,
            r == final(self).transferred() as int / final(self).capacity() as int - old(self).acked(),
    ;

    /// Register a wake-up token to be signalled at the engine's next
    /// milestone. Replaces any earlier registration; the counters are not
    /// touched.
    fn set_waker(&mut self, waker: &core::task::Waker)
        requires
            hw_state_wf(old(self).capacity(), old(self).transferred(), old(self).acked()),
        ensures
            hw_state_wf(final(self).capacity(), final(self).transferred(), final(self).acked()),
            final(self).capacity() == old(self).capacity(),
            final(self).transferred() == old(self).transferred(),
            final(self).acked() == old(self).acked(),
    ;
}

} // verus!
