//! Tiny deterministic RNG / hash helpers: the same seed gives the same
//! numbers on every platform.

use vstd::prelude::*;

verus! {

/// Multiplier of the PCG state update.
pub const PCG_MULTIPLIER: u64 = 6_364_136_223_846_793_005;

/// Increment of the PCG state update.
pub const PCG_INCREMENT: u64 = 1_442_695_040_888_963_407;

/// Constant mixed into the seed.
pub const SEED_MIX: u64 = 0x853c_49e6_748f_ea9b;

/// The state after one step of the generator.
pub open spec fn pcg_step(state: u64) -> u64 {
    state.wrapping_mul(PCG_MULTIPLIER).wrapping_add(PCG_INCREMENT)
}

/// Right rotation of a 32 bit word by `r` (taken modulo 32).
pub open spec fn rotr32(x: u32, r: u32) -> u32 {
    let r = r % 32;
    if r == 0 {
        x
    } else {
        (x >> r) | (x << ((32 - r) as u32))
    }
}

/// The number produced by a step that starts from `state` (XSH-RR output).
pub open spec fn pcg_output(state: u64) -> u32 {
    rotr32((((state >> 18u64) ^ state) >> 27u64) as u32, (state >> 59u64) as u32)
}

/// The state of a generator freshly seeded with `seed`.
pub open spec fn seeded_state(seed: u64) -> u64 {
    pcg_step(pcg_step(0).wrapping_add(seed ^ SEED_MIX))
}

/// The first `n` numbers a generator in `state` produces.
pub open spec fn pcg_stream(state: u64, n: nat) -> Seq<u32>
    decreases n,
{
    if n == 0 {
        Seq::empty()
    } else {
        seq![pcg_output(state)] + pcg_stream(pcg_step(state), (n - 1) as nat)
    }
}

/// The lowbias32 integer hash.
pub open spec fn lowbias32(x: u32) -> u32 {
    let a = x ^ (x >> 16u32);
    let b = a.wrapping_mul(0x7feb_352d);
    let c = b ^ (b >> 15u32);
    let d = c.wrapping_mul(0x846c_a68b);
    d ^ (d >> 16u32)
}

fn rotate_right_u32(x: u32, r: u32) -> (res: u32)
    requires
        r < 32,
    ensures
        res == rotr32(x, r),
{
    if r == 0 {
        x
    } else {
        (x >> r) | (x << (32 - r))
    }
}

/// PCG-XSH-RR 32 bit generator.
pub struct Rng {
    state: u64,
}

impl View for Rng {
    type V = u64;

    closed spec fn view(&self) -> u64 {
        self.state
    }
}

impl Clone for Rng {
    fn clone(&self) -> (res: Self)
        ensures
            res@ == self@,
    {
        Rng { state: self.state }
    }
}

impl Rng {
    /// A generator seeded with `seed`.
    pub fn new(seed: u64) -> (r: Self)
        ensures
            r@ == seeded_state(seed),
    {
        let mut r = Rng { state: 0 };
        r.next_u32();
        r.state = r.state.wrapping_add(seed ^ SEED_MIX);
        r.next_u32();
        r
    }

    /// The next number; the state takes one step.
    pub fn next_u32(&mut self) -> (v: u32)
        ensures
            final(self)@ == pcg_step(old(self)@),
            v == pcg_output(old(self)@),
    {
        let old: u64 = self.state;
        self.state = old.wrapping_mul(PCG_MULTIPLIER).wrapping_add(PCG_INCREMENT);
        let xorshifted: u32 = (((old >> 18u64) ^ old) >> 27u64) as u32;
        let rot: u32 = (old >> 59u64) as u32;
        assert(rot < 32) by (bit_vector)
            requires
                rot == (old >> 59u64) as u32,
        ;
        rotate_right_u32(xorshifted, rot)
    }

    /// A number in `lo ..= hi_inclusive` (just `lo` when the range is empty).
    pub fn range_u32(&mut self, lo: u32, hi_inclusive: u32) -> (v: u32)
        requires
            hi_inclusive - lo < u32::MAX,
        ensures
            hi_inclusive <= lo ==> v == lo && final(self)@ == old(self)@,
            hi_inclusive > lo ==> {
                &&& final(self)@ == pcg_step(old(self)@)
                &&& v == lo + pcg_output(old(self)@) % ((hi_inclusive - lo + 1) as u32)
            },
            lo <= v,
            hi_inclusive > lo ==> v <= hi_inclusive,
    {
        if hi_inclusive <= lo {
            return lo;
        }
        let n: u32 = hi_inclusive - lo + 1;
        let x: u32 = self.next_u32();
        lo + x % n
    }

    /// One of `items`, picked at random.
    pub fn pick<'a, T>(&mut self, items: &'a [T]) -> (item: &'a T)
        requires
            items@.len() > 0,
        ensures
            final(self)@ == pcg_step(old(self)@),
            *item == items@[(pcg_output(old(self)@) as int) % (items@.len() as int)],
    {
        let x: u32 = self.next_u32();
        &items[(x as usize) % items.len()]
    }
}

/// Stateless integer hash (lowbias32), the one the shaders use too.
pub fn hash_u32(x_in: u32) -> (h: u32)
    ensures
        h == lowbias32(x_in),
{
    let mut x: u32 = x_in;
    x ^= x >> 16u32;
    x = x.wrapping_mul(0x7feb_352d);
    x ^= x >> 15u32;
    x = x.wrapping_mul(0x846c_a68b);
    x ^= x >> 16u32;
    x
}

/// The numbers of a generator come one per step: the first from the
/// state itself, the rest from the next state. With the contracts of
/// [`Rng::new`] and [`Rng::next_u32`], the numbers of a generator seeded with
/// `seed` are `pcg_stream(seeded_state(seed), n)`: the seed alone decides
/// them.
pub proof fn law_stream_unfolds(state: u64, n: nat)
    ensures
        pcg_stream(state, n).len() == n,
        pcg_stream(state, n + 1) == seq![pcg_output(state)] + pcg_stream(pcg_step(state), n),
    decreases n,
{
    if n > 0 {
        law_stream_unfolds(pcg_step(state), (n - 1) as nat);
    }
}

} // verus!
