//! Deterministic pseudo-random numbers: a 64-bit xorshift generator and
//! identifier-derived seeds.
use vstd::prelude::*;
use vstd::string::StringSliceAdditionalSpecFns;

use crate::number::Real;

verus! {

/// One step of the xorshift generator.
pub open spec fn xorshift(state: u64) -> u64 {
    let a: u64 = state ^ (state << 13);
    let b: u64 = a ^ (a >> 7);
    b ^ (b << 17)
}

/// Advances the generator and returns its new state.
pub fn next_u64(random_state: &mut u64) -> (r: u64)
    ensures
        r == xorshift(*old(random_state)),
        *final(random_state) == r,
{
    let mut value: u64 = *random_state;
    value = value ^ (value << 13);
    value = value ^ (value >> 7);
    value = value ^ (value << 17);
    *random_state = value;
    value
}

/// Draws an index below `upper_bound`.
pub fn next_index(random_state: &mut u64, upper_bound: usize) -> (r: usize)
    requires
        upper_bound > 0,
    ensures
        *final(random_state) == xorshift(*old(random_state)),
        r == xorshift(*old(random_state)) as int % upper_bound as int,
        r < upper_bound,
{
    (next_u64(random_state) % upper_bound as u64) as usize
}

/// The number in the unit interval that a generator state stands for.
pub open spec fn unit_of(state: u64) -> Real {
    Real::spec_from_count(state).spec_div(Real::spec_from_count(u64::MAX))
}

/// Draws a number from the unit interval.
pub fn next_unit(random_state: &mut u64) -> (r: Real)
    ensures
        *final(random_state) == xorshift(*old(random_state)),
        r == unit_of(*final(random_state)),
{
    let value: u64 = next_u64(random_state);
    Real::from_count(value).div(Real::from_count(u64::MAX))
}

/// `s` with two elements exchanged.
pub open spec fn swapped(s: Seq<usize>, i: int, j: int) -> Seq<usize> {
    s.update(i, s[j]).update(j, s[i])
}

/// Result and final generator state of shuffling the first `top + 1` elements
/// of `s` from the top down.
pub open spec fn shuffled(s: Seq<usize>, top: int, state: u64) -> (Seq<usize>, u64)
    decreases top,
{
    if top < 1 {
        (s, state)
    } else {
        let next: u64 = xorshift(state);
        shuffled(swapped(s, top, next as int % (top + 1)), top - 1, next)
    }
}

/// Shuffles in place, drawing one index per position from the top down.
pub fn shuffle(values: &mut Vec<usize>, random_state: &mut u64)
    ensures
        (final(values)@, *final(random_state)) == shuffled(
            old(values)@,
            old(values)@.len() - 1,
            *old(random_state),
        ),
        final(values)@.to_multiset() == old(values)@.to_multiset(),
        final(values)@.len() == old(values)@.len(),
{
    let ghost first: Seq<usize> = values@;
    let ghost seed: u64 = *random_state;
    let mut index: usize = values.len();
    proof {
        lemma_shuffled_permutes(first, first.len() - 1, seed);
    }
    while index > 1
        invariant
            index <= values@.len(),
            values@.len() == first.len(),
            shuffled(first, first.len() - 1, seed) == shuffled(
                values@,
                index - 1,
                *random_state,
            ),
        decreases index,
    {
        index = index - 1;
        let swap_with: usize = next_index(random_state, index + 1);
        let kept: usize = values[index];
        let taken: usize = values[swap_with];
        let ghost before: Seq<usize> = values@;
        values.set(index, taken);
        values.set(swap_with, kept);
        assert(values@ == swapped(before, index as int, swap_with as int));
    }
}

/// Shuffling neither adds nor loses an element.
pub proof fn lemma_shuffled_permutes(s: Seq<usize>, top: int, state: u64)
    requires
        top < s.len(),
    ensures
        shuffled(s, top, state).0.to_multiset() == s.to_multiset(),
        shuffled(s, top, state).0.len() == s.len(),
    decreases top,
{
    if top >= 1 {
        let next: u64 = xorshift(state);
        let j: int = next as int % (top + 1);
        let t: Seq<usize> = swapped(s, top, j);
        lemma_shuffled_permutes(t, top - 1, next);
        vstd::seq_lib::to_multiset_update(s, top, s[j]);
        vstd::seq_lib::to_multiset_update(s.update(top, s[j]), j, s[top]);
        s.to_multiset_ensures();
        assert(s.to_multiset().count(s[top]) >= 1);
        assert(t.to_multiset() =~= s.to_multiset());
    }
}

/// Hash of the first `n` bytes, in the manner of FNV-1a.
pub open spec fn fnv(bytes: Seq<u8>, n: int) -> u64
    decreases n,
{
    if n <= 0 {
        0xcbf2_9ce4_8422_2325
    } else {
        (fnv(bytes, n - 1) ^ (bytes[n - 1] as u64)).wrapping_mul(0x1000_0000_01b3)
    }
}

/// The seed that an identifier gives: its hash, but never zero.
pub open spec fn seed_of(bytes: Seq<u8>) -> u64 {
    let hash: u64 = fnv(bytes, bytes.len() as int);
    if hash < 1 {
        1
    } else {
        hash
    }
}

/// Seed for an identifier.
pub fn seed_from_id(id: &str) -> (seed: u64)
    ensures
        seed == seed_of(id.spec_bytes()),
        seed != 0,
{
    let bytes: &[u8] = id.as_bytes();
    let mut hash: u64 = 0xcbf2_9ce4_8422_2325;
    let mut i: usize = 0;
    while i < bytes.len()
        invariant
            i <= bytes@.len(),
            hash == fnv(bytes@, i as int),
        decreases bytes@.len() - i,
    {
        hash = (hash ^ (bytes[i] as u64)).wrapping_mul(0x1000_0000_01b3);
        i = i + 1;
    }
    if hash < 1 {
        1
    } else {
        hash
    }
}

/// The generator never falls back to zero, where it would stay.
pub proof fn lemma_xorshift_nonzero(state: u64)
    requires
        state != 0,
    ensures
        xorshift(state) != 0,
{
    let a: u64 = state ^ (state << 13);
    let b: u64 = a ^ (a >> 7);
    assert(state != 0 ==> state ^ (state << 13) != 0) by (bit_vector);
    assert(a != 0 ==> a ^ (a >> 7) != 0) by (bit_vector);
    assert(b != 0 ==> b ^ (b << 17) != 0) by (bit_vector);
}

} // verus!
