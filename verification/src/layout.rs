//! The integer parts of note placement: the hashes that pick where a new
//! note appears and how seeded notes are scattered. Scaling to the canvas
//! happens in floating point, outside.
use vstd::prelude::*;
use vstd::arithmetic::div_mod::{lemma_fundamental_div_mod, lemma_mod_mod, lemma_mod_multiples_vanish};

verus! {

pub open spec fn wrap64(x: int) -> int {
    x % 0x1_0000_0000_0000_0000
}

/// One step of the placement generator.
pub open spec fn placement_step(x: int) -> int {
    wrap64(x * 2654435761 + 1013904223)
}

/// The 16-bit fractions, in 1/65535 units, that place note number `n`
/// across and down the canvas.
pub fn spawn_fractions(n: usize) -> (r: (u64, u64))
    ensures
        r.0 == placement_step(n as int) % 0x10000,
        r.1 == placement_step(placement_step(n as int)) % 0x10000,
{
    let s = n as u64;
    let ax = s.wrapping_mul(2654435761).wrapping_add(1013904223);
    let ay = ax.wrapping_mul(2654435761).wrapping_add(1013904223);
    proof {
        lemma_step(s);
        lemma_step(ax);
    }
    let rx = ax & 0xFFFF;
    let ry = ay & 0xFFFF;
    assert(rx == ax % 0x10000) by (bit_vector)
        requires
            rx == ax & 0xFFFF,
    ;
    assert(ry == ay % 0x10000) by (bit_vector)
        requires
            ry == ay & 0xFFFF,
    ;
    (rx, ry)
}

proof fn lemma_step(x: u64)
    ensures
        x.wrapping_mul(2654435761).wrapping_add(1013904223) == placement_step(x as int),
{
    let m = (x as int * 2654435761) % 0x1_0000_0000_0000_0000;
    assert(0 <= m < 0x1_0000_0000_0000_0000);
    let k = (x as int * 2654435761) / 0x1_0000_0000_0000_0000;
    lemma_fundamental_div_mod(x as int * 2654435761, 0x1_0000_0000_0000_0000);
    let full = x as int * 2654435761 + 1013904223;
    if m + 1013904223 >= 0x1_0000_0000_0000_0000 {
        vstd::arithmetic::div_mod::lemma_fundamental_div_mod_converse(
            full,
            0x1_0000_0000_0000_0000,
            k + 1,
            m + 1013904223 - 0x1_0000_0000_0000_0000,
        );
    } else {
        vstd::arithmetic::div_mod::lemma_fundamental_div_mod_converse(full, 0x1_0000_0000_0000_0000, k, m + 1013904223);
    }
}

/// The scatter of seeded note number `i`: two bytes of `i` times the
/// multiplier 6364136223846793005, modulo 2^64; the low byte across, the
/// next one down.
pub fn seed_jitter(i: usize) -> (r: (u64, u64))
    ensures
        r.0 == wrap64(i * 6364136223846793005) % 256,
        r.1 == (wrap64(i * 6364136223846793005) / 256) % 256,
{
    let h = (i as u64).wrapping_mul(6364136223846793005);
    let jx = h & 0xFF;
    let jy = (h >> 8) & 0xFF;
    assert(jx == h % 256 && jy == (h / 256) % 256) by (bit_vector)
        requires
            jx == h & 0xFF,
            jy == (h >> 8) & 0xFF,
    ;
    (jx, jy)
}

/// The low 16 bits of a generator step depend only on the low 16 bits of its input.
proof fn lemma_step_low_bits(x: int, y: int)
    requires
        x % 0x10000 == y % 0x10000,
    ensures
        placement_step(x) % 0x10000 == placement_step(y) % 0x10000,
{
    lemma_mod_mod(x * 2654435761 + 1013904223, 0x10000, 0x1_0000_0000_0000);
    lemma_mod_mod(y * 2654435761 + 1013904223, 0x10000, 0x1_0000_0000_0000);
    assert(0x10000 * 0x1_0000_0000_0000 == 0x1_0000_0000_0000_0000);
    lemma_fundamental_div_mod(x, 0x10000);
    lemma_fundamental_div_mod(y, 0x10000);
    let t = x / 0x10000 - y / 0x10000;
    assert(x * 2654435761 + 1013904223 == 0x10000 * (t * 2654435761) + (y * 2654435761 + 1013904223))
        by (nonlinear_arith)
        requires
            x == 0x10000 * (x / 0x10000) + x % 0x10000,
            y == 0x10000 * (y / 0x10000) + y % 0x10000,
            x % 0x10000 == y % 0x10000,
            t == x / 0x10000 - y / 0x10000,
    ;
    lemma_mod_multiples_vanish(t * 2654435761, y * 2654435761 + 1013904223, 0x10000);
}

/// Placement repeats every 65536 notes: note `n` and note `n + 65536` get
/// the same fractions.
pub proof fn lemma_spawn_period(n: int)
    ensures
        placement_step(n + 0x10000) % 0x10000 == placement_step(n) % 0x10000,
        placement_step(placement_step(n + 0x10000)) % 0x10000 == placement_step(placement_step(n)) % 0x10000,
{
    vstd::arithmetic::div_mod::lemma_mod_add_multiples_vanish(n, 0x10000);
    lemma_step_low_bits(n + 0x10000, n);
    lemma_step_low_bits(placement_step(n + 0x10000), placement_step(n));
}

} // verus!
