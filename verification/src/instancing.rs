//! The whole-number side of copying: how many copies an instancer or a
//! modifier makes, in which order they come, and the seeds of their random
//! numbers.

use vstd::prelude::*;
use vstd::arithmetic::div_mod::lemma_fundamental_div_mod_converse;

verus! {

/// `v` kept within `lo..=hi`.
pub open spec fn clamped(v: u32, lo: u32, hi: u32) -> u32 {
    if v < lo {
        lo
    } else if v > hi {
        hi
    } else {
        v
    }
}

fn clamp_u32(v: u32, lo: u32, hi: u32) -> (r: u32)
    requires
        lo <= hi,
    ensures
        r == clamped(v, lo, hi),
{
    if v < lo {
        lo
    } else if v > hi {
        hi
    } else {
        v
    }
}

/// Copies around a radial instancer: 1 to 1024.
pub fn radial_count(count: u32) -> (n: u32)
    ensures
        n == clamped(count, 1, 1024),
{
    clamp_u32(count, 1, 1024)
}

/// Copies of a radial or kaleidoscope symmetry, and of an array modifier:
/// 1 to 64.
pub fn symmetry_count(count: u32) -> (n: u32)
    ensures
        n == clamped(count, 1, 64),
{
    clamp_u32(count, 1, 64)
}

/// The most copies an instancer that places them at random makes.
pub const MAX_RANDOM_COPIES: u32 = 20_000;

/// Copies of an instancer that places them at random (scatter, orbit,
/// surface, terrain): the count asked for, at most 20000.
pub fn random_count(count: u32) -> (n: u32)
    ensures
        n == (if count < MAX_RANDOM_COPIES { count } else { MAX_RANDOM_COPIES }),
{
    if count < MAX_RANDOM_COPIES {
        count
    } else {
        MAX_RANDOM_COPIES
    }
}

/// The instancers that place their copies at random.
#[derive(Clone, Copy, Debug, PartialEq, Eq, Structural)]
pub enum RandomPlacement {
    Scatter,
    Orbit,
    Surface,
    Terrain,
}

/// The seed of the random numbers of an instancer: the layer's seed times
/// a prime, plus a small number, each instancer its own.
pub open spec fn placement_seed(kind: RandomPlacement, seed: u32) -> int {
    match kind {
        RandomPlacement::Scatter => seed * 7919 + 17,
        RandomPlacement::Orbit => seed * 104_729 + 3,
        RandomPlacement::Surface => seed * 48_271 + 11,
        RandomPlacement::Terrain => seed * 15_485_863 + 5,
    }
}

/// The seed an instancer's random numbers start from.
pub fn random_seed(kind: RandomPlacement, seed: u32) -> (s: u64)
    ensures
        s == placement_seed(kind, seed),
{
    let x: u64 = seed as u64;
    match kind {
        RandomPlacement::Scatter => x * 7919 + 17,
        RandomPlacement::Orbit => x * 104_729 + 3,
        RandomPlacement::Surface => x * 48_271 + 11,
        RandomPlacement::Terrain => x * 15_485_863 + 5,
    }
}

/// The cells of a grid of `counts` copies (each count kept within 1..=64),
/// in the order they are placed: along x first, then z, then y. Cell `j`
/// is `(x, y, z)`.
pub fn grid_cells(counts: (u32, u32, u32)) -> (cells: Vec<(u32, u32, u32)>)
    ensures
        ({
            let cx = clamped(counts.0, 1, 64) as int;
            let cy = clamped(counts.1, 1, 64) as int;
            let cz = clamped(counts.2, 1, 64) as int;
            &&& cells@.len() == cx * cy * cz
            &&& forall|j: int| 0 <= j < cells@.len() ==> #[trigger] cells@[j] == (
                (j % cx) as u32,
                (j / cx / cz) as u32,
                (j / cx % cz) as u32,
            )
        }),
{
    let cx: u32 = clamp_u32(counts.0, 1, 64);
    let cy: u32 = clamp_u32(counts.1, 1, 64);
    let cz: u32 = clamp_u32(counts.2, 1, 64);
    let mut cells: Vec<(u32, u32, u32)> = Vec::new();
    let mut iy: u32 = 0;
    assert(0 * cz * cx == 0) by (nonlinear_arith);
    while iy < cy
        invariant
            1 <= cx <= 64,
            1 <= cy <= 64,
            1 <= cz <= 64,
            iy <= cy,
            cells@.len() == iy * cz * cx,
            forall|j: int| 0 <= j < cells@.len() ==> #[trigger] cells@[j] == (
                (j % cx as int) as u32,
                (j / cx as int / cz as int) as u32,
                (j / cx as int % cz as int) as u32,
            ),
        decreases cy - iy,
    {
        let mut iz: u32 = 0;
        while iz < cz
            invariant
                1 <= cx <= 64,
                1 <= cy <= 64,
                1 <= cz <= 64,
                iy < cy,
                iz <= cz,
                cells@.len() == (iy * cz + iz) * cx,
                forall|j: int| 0 <= j < cells@.len() ==> #[trigger] cells@[j] == (
                    (j % cx as int) as u32,
                    (j / cx as int / cz as int) as u32,
                    (j / cx as int % cz as int) as u32,
                ),
            decreases cz - iz,
        {
            let mut ix: u32 = 0;
            while ix < cx
                invariant
                    1 <= cx <= 64,
                    1 <= cy <= 64,
                    1 <= cz <= 64,
                    iy < cy,
                    iz < cz,
                    ix <= cx,
                    cells@.len() == (iy * cz + iz) * cx + ix,
                    forall|j: int| 0 <= j < cells@.len() ==> #[trigger] cells@[j] == (
                        (j % cx as int) as u32,
                        (j / cx as int / cz as int) as u32,
                        (j / cx as int % cz as int) as u32,
                    ),
                decreases cx - ix,
            {
                proof {
                    let j = (iy * cz + iz) * cx + ix;
                    lemma_fundamental_div_mod_converse(j, cx as int, iy * cz + iz, ix as int);
                    lemma_fundamental_div_mod_converse(iy * cz + iz, cz as int, iy as int, iz as int);
                    assert(j <= 64 * 64 * 64) by (nonlinear_arith)
                        requires
                            j == (iy * cz + iz) * cx + ix,
                            iy < 64,
                            iz < 64,
                            ix < 64,
                            cx <= 64,
                            cz <= 64,
                    ;
                }
                cells.push((ix, iy, iz));
                ix += 1;
            }
            assert((iy * cz + iz) * cx + cx == (iy * cz + iz + 1) * cx) by (nonlinear_arith);
            iz += 1;
        }
        assert((iy * cz + cz) * cx == (iy + 1) * cz * cx) by (nonlinear_arith);
        iy += 1;
    }
    assert(cy * cz * cx == cx * cy * cz) by (nonlinear_arith);
    cells
}

/// The copies an array modifier makes of `layers` layers (`count` kept
/// within 1..=64), in order: every layer of copy 0, then of copy 1, ….
/// Entry `j` is (copy, layer).
pub fn array_copies(count: u32, layers: usize) -> (out: Vec<(u32, usize)>)
    requires
        clamped(count, 1, 64) * layers <= usize::MAX,
    ensures
        out@.len() == clamped(count, 1, 64) * layers,
        forall|j: int| 0 <= j < out@.len() ==> #[trigger] out@[j] == ((j / layers as int) as u32, (j % layers as int) as usize),
{
    let n: u32 = clamp_u32(count, 1, 64);
    let mut out: Vec<(u32, usize)> = Vec::new();
    let mut k: u32 = 0;
    assert(0 * layers == 0) by (nonlinear_arith);
    while k < n
        invariant
            1 <= n <= 64,
            n == clamped(count, 1, 64),
            n * layers <= usize::MAX,
            k <= n,
            out@.len() == k * layers,
            forall|j: int| 0 <= j < out@.len() ==> #[trigger] out@[j] == ((j / layers as int) as u32, (j % layers as int) as usize),
        decreases n - k,
    {
        assert((k + 1) * layers <= n * layers) by (nonlinear_arith)
            requires
                k < n,
                layers >= 0,
        ;
        assert(k * layers + layers == (k + 1) * layers) by (nonlinear_arith);
        let mut l: usize = 0;
        while l < layers
            invariant
                1 <= n <= 64,
                k < n,
                l <= layers,
                (k + 1) * layers <= usize::MAX,
                k * layers + layers == (k + 1) * layers,
                out@.len() == k * layers + l,
                forall|j: int| 0 <= j < out@.len() ==> #[trigger] out@[j] == ((j / layers as int) as u32, (j % layers as int) as usize),
            decreases layers - l,
        {
            proof {
                lemma_fundamental_div_mod_converse(k * layers + l, layers as int, k as int, l as int);
            }
            out.push((k, l));
            l += 1;
        }
        k += 1;
    }
    out
}

/// The layers a mirror modifier gives for `layers` layers, in order: each
/// layer as it is, then each layer mirrored. Entry `j` is (mirrored,
/// layer).
pub fn mirror_copies(layers: usize) -> (out: Vec<(bool, usize)>)
    requires
        layers * 2 <= usize::MAX,
    ensures
        out@.len() == 2 * layers,
        forall|j: int| 0 <= j < out@.len() ==> #[trigger] out@[j] == (
            if j < layers { (false, j as usize) } else { (true, (j - layers) as usize) }
        ),
{
    let mut out: Vec<(bool, usize)> = Vec::new();
    let mut i: usize = 0;
    while i < 2 * layers
        invariant
            layers * 2 <= usize::MAX,
            i <= 2 * layers,
            out@.len() == i,
            forall|j: int| 0 <= j < out@.len() ==> #[trigger] out@[j] == (
                if j < layers { (false, j as usize) } else { (true, (j - layers) as usize) }
            ),
        decreases 2 * layers - i,
    {
        if i < layers {
            out.push((false, i));
        } else {
            out.push((true, i - layers));
        }
        i += 1;
    }
    out
}

/// The shake seed a jitter modifier gives layer `i` when it moves with the
/// beat.
pub fn jitter_shake_seed(seed: u32, i: u32) -> (s: u32)
    requires
        i * 7919 + 1 <= u32::MAX,
    ensures
        s == (seed * 31 + i * 7919 + 1) % 0x1_0000_0000,
{
    let m: u32 = seed.wrapping_mul(31);
    let r: u32 = m.wrapping_add(i * 7919 + 1);
    assert((seed * 31) % 0x1_0000_0000 == m);
    assert(((seed * 31) % 0x1_0000_0000 + (i * 7919 + 1)) % 0x1_0000_0000
        == (seed * 31 + i * 7919 + 1) % 0x1_0000_0000) by (nonlinear_arith);
    r
}

/// The seed of the random offsets a jitter modifier gives layer `i` when
/// it does not move with the beat.
pub fn jitter_seed(seed: u32, i: u64) -> (s: u64)
    requires
        i * 7919 + 17 <= u64::MAX,
    ensures
        s == ((seed as u64) << 20u64) ^ ((i * 7919 + 17) as u64),
{
    ((seed as u64) << 20u64) ^ (i * 7919 + 17)
}

} // verus!
