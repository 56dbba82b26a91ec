//! Relative branch displacements.
use vstd::prelude::*;

verus! {

/// The 32-bit field that makes a relative branch whose field ends at `from`
/// land on `to`: the difference `to - from` taken modulo 2^32, which is the
/// two's-complement encoding of a negative difference.
pub open spec fn displacement(from: int, to: int) -> u32 {
    ((to - from) % 0x1_0000_0000) as u32
}

/// Computes the displacement for a branch whose 4-byte field ends at
/// `jump_from` and whose target is `jump_to`.
pub fn get_32bit_offset(jump_from: usize, jump_to: usize) -> (r: u32)
    ensures
        r == displacement(jump_from as int, jump_to as int),
{
    if jump_to >= jump_from {
        let diff: usize = jump_to - jump_from;
        proof {
            assert(diff as u32 == (diff as u64) % 0x1_0000_0000) by (bit_vector);
        }
        diff as u32
    } else {
        let diff: usize = jump_from - jump_to;
        let diff_unsigned: u32 = diff as u32;
        let w: u32 = diff_unsigned.wrapping_sub(1);
        let r: u32 = !w;
        proof {
            assert(diff as u32 == (diff as u64) % 0x1_0000_0000) by (bit_vector);
            assert(w == (if diff_unsigned == 0 { 0xFFFF_FFFFu32 } else { (diff_unsigned - 1) as u32 }));
            assert(r == (0x1_0000_0000 - diff_unsigned) % 0x1_0000_0000) by (bit_vector)
                requires
                    w == (if diff_unsigned == 0 { 0xFFFF_FFFFu32 } else { (diff_unsigned - 1) as u32 }),
                    r == !w,
            ;
        }
        r
    }
}

/// Read as a signed 32-bit number, the displacement is the distance from
/// `from` to `to`, backward branches included, whenever that distance fits.
pub proof fn lemma_displacement_signed(from: int, to: int)
    requires
        -0x8000_0000 <= to - from < 0x8000_0000,
    ensures
        displacement(from, to) as i32 == to - from,
{
    let d = to - from;
    let u = displacement(from, to);
    if d >= 0 {
        assert(u == d);
        assert(u < 0x8000_0000);
        assert(u as i32 == u) by (bit_vector)
            requires
                u < 0x8000_0000u32,
        ;
    } else {
        assert(u == d + 0x1_0000_0000);
        assert(u >= 0x8000_0000);
        assert(u as i32 == u - 0x1_0000_0000) by (bit_vector)
            requires
                u >= 0x8000_0000u32,
        ;
    }
}

} // verus!
