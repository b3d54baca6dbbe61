//! The generator of the filler bytes that follow the end token.

use vstd::prelude::*;

verus! {

/// One step of the congruential recurrence `x -> (110 x + 13) mod 256`.
pub open spec fn lcg_step(x: u8) -> u8 {
    ((110 * (x as int) + 13) % 256) as u8
}

/// The byte that follows `state` in the filler sequence.
///
/// It is the plain recurrence step, unless that step would be the bitwise
/// complement of `state`; then the step is taken from `state + 1` instead.
pub open spec fn lcg_next(state: u8) -> u8 {
    if lcg_step(state) == 255 - state {
        lcg_step(((state + 1) % 256) as u8)
    } else {
        lcg_step(state)
    }
}

/// The `k`-th byte of the filler sequence that starts from `seed`
/// (`filler(seed, 0)` is the seed itself).
pub open spec fn filler(seed: u8, k: nat) -> u8
    decreases k,
{
    if k == 0 {
        seed
    } else {
        lcg_next(filler(seed, (k - 1) as nat))
    }
}

/// A byte never has its own complement as successor.
pub proof fn lemma_next_is_not_complement(state: u8)
    ensures
        lcg_next(state) != 255 - state,
{
    let a = lcg_step(state);
    let b = lcg_step(((state + 1) % 256) as u8);
    assert(a == 255 - state ==> b != 255 - state) by {
        if state == 255 {
            assert(a == 159);
        } else {
            assert(b as int == (110 * (state as int) + 123) % 256);
        }
    }
}

/// In the filler sequence grown from any seed, no byte is followed by its
/// bitwise complement; this holds of the seed and its successor too.
pub proof fn lemma_filler_has_no_complement_pair(seed: u8, k: nat)
    ensures
        filler(seed, k + 1) != 255 - filler(seed, k),
{
    lemma_next_is_not_complement(filler(seed, k));
}

/// Generator of the filler bytes that follow the end token.
pub struct LcgU8 {
    state: u8,
}

impl View for LcgU8 {
    type V = u8;

    closed spec fn view(&self) -> u8 {
        self.state
    }
}

impl LcgU8 {
    /// A generator that starts from `seed`.
    pub fn new(seed: u8) -> (lcg: Self)
        ensures
            lcg@ == seed,
    {
        LcgU8 { state: seed }
    }

    /// Advances the generator and returns its new state.
    pub fn next(&mut self) -> (out: u8)
        ensures
            out == lcg_next(old(self)@),
            final(self)@ == out,
            out != 255 - old(self)@,
    {
        let state = self.state;
        let mut patched_state: u8 = state;
        let mut next_state: u8 = 0;
        let mut retried = false;
        loop
            invariant_except_break
                !retried ==> patched_state == state,
                retried ==> patched_state == ((state + 1) % 256) as u8 && lcg_step(state) == 255
                    - state,
            ensures
                next_state == lcg_next(state),
            decreases (if retried { 0int } else { 1int }),
        {
            next_state = ((110u16 * (patched_state as u16) + 13u16) % 256u16) as u8;
            assert(next_state == lcg_step(patched_state));
            assert(!state == 255 - state) by (bit_vector);
            // the successor may not be the complement of the byte before it
            if next_state == !state {
                proof {
                    lemma_next_is_not_complement(state);
                }
                patched_state = patched_state.wrapping_add(1);
                retried = true;
                continue ;
            }
            break ;
        }
        proof {
            lemma_next_is_not_complement(state);
        }
        self.state = next_state;
        self.state
    }
}

} // verus!
