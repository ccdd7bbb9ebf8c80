//! CRC-32 over bytes, and arithmetic on polynomials over GF(2) packed into
//! 64-bit words, as used to force a stream's checksum to a chosen value:
//! multiplication, exponentiation and inversion modulo the CRC generator
//! polynomial, and the computation of the 4-byte patch itself.

use vstd::prelude::*;

verus! {

broadcast use vstd::std_specs::vec::group_vec_axioms;

/// The CRC-32 generator polynomial (bit-reversed convention uses its
/// 33-bit form).
pub const POLYNOMIAL: u64 = 0x104C11DB7;

/// One bit step of the CRC register.
pub closed spec fn crc_bit(c: u32, bit: u32) -> u32 {
    let c2 = c ^ (bit << 31u32);
    (c2 << 1u32) ^ ((((c2 >> 31u32) * 0x04C11DB7u32) as u32))
}

/// Eight bit steps for one byte, least significant bit first.
pub closed spec fn crc_byte(c: u32, b: u8, k: u32) -> u32
    decreases 8 - k,
{
    if k >= 8 {
        c
    } else {
        crc_byte(crc_bit(c, (b as u32) >> k), b, (k + 1) as u32)
    }
}

/// The register after folding in the bytes from index `i` on.
pub closed spec fn crc_fold(s: Seq<u8>, i: int, c: u32) -> u32
    decreases s.len() - i,
{
    if i < 0 || i >= s.len() {
        c
    } else {
        crc_fold(s, i + 1, crc_byte(c, s[i], 0))
    }
}

/// The CRC-32 of a byte sequence, in the non-reflected register convention
/// used throughout this module.
pub closed spec fn spec_crc32(s: Seq<u8>) -> u32 {
    !crc_fold(s, 0, 0xFFFF_FFFFu32)
}

/// The CRC-32 register value of the data.
pub fn compute_crc32(data: &Vec<u8>) -> (r: u32)
    ensures
        r == spec_crc32(data@),
{
    let mut crc: u32 = 0xFFFF_FFFF;
    let n = data.len();
    let mut i: usize = 0;
    while i < n
        invariant
            i <= n,
            n == data@.len(),
            crc_fold(data@, i as int, crc) == crc_fold(data@, 0, 0xFFFF_FFFFu32),
        decreases n - i,
    {
        let b = data[i];
        let ghost c0 = crc;
        let mut k: u32 = 0;
        while k < 8
            invariant
                k <= 8,
                crc_byte(crc, b, k) == crc_byte(c0, b, 0),
            decreases 8 - k,
        {
            let ghost before = crc;
            let c2 = crc ^ (((b as u32) >> k) << 31);
            proof {
                assert(c2 >> 31 <= 1) by (bit_vector);
                assert((c2 >> 31) * 0x04C11DB7u32 <= 0x04C11DB7) by (nonlinear_arith)
                    requires
                        c2 >> 31 <= 1u32,
                ;
            }
            crc = (c2 << 1) ^ ((c2 >> 31) * 0x04C11DB7u32);
            proof {
                assert(crc == crc_bit(before, (b as u32) >> k));
            }
            k += 1;
        }
        proof {
            assert(crc == crc_byte(c0, b, 0));
        }
        i += 1;
    }
    !crc
}

/// The index of the highest set bit.
fn get_degree(x: u64) -> (r: u32)
    requires
        x >= 1,
    ensures
        r < 64,
        (x >> (r as u64)) == 1u64,
{
    let mut d: u32 = 0;
    proof {
        assert(x >> 0u64 == x) by (bit_vector);
    }
    while d < 63 && (x >> ((d + 1) as u64)) != 0
        invariant
            d < 64,
            x >= 1,
            x >> (d as u64) >= 1,
        decreases 64 - d,
    {
        d += 1;
    }
    proof {
        if d == 63 {
            assert((x >> 63u64) >= 1 ==> x >> 63u64 == 1) by (bit_vector);
        } else {
            assert(((x >> ((d + 1) as u64)) == 0 && (x >> (d as u64)) >= 1 && d < 63u32) ==> (x
                >> (d as u64)) == 1) by (bit_vector);
        }
    }
    d
}

/// The product of two polynomials of degree below 32, reduced modulo the
/// generator; the result again has degree below 32.
fn multiply_mod(x: u64, y: u64) -> (r: u64)
    requires
        x >> 32 == 0,
        y >> 32 == 0,
    ensures
        r >> 32 == 0,
{
    let mut xx = x;
    let mut yy = y;
    let mut z: u64 = 0;
    proof {
        assert(0u64 >> 32 == 0) by (bit_vector);
    }
    while yy != 0
        invariant
            xx >> 32 == 0,
            z >> 32 == 0,
        decreases yy,
    {
        proof {
            assert(yy != 0 ==> (yy >> 1) < yy) by (bit_vector);
            assert((yy & 1) <= 1) by (bit_vector);
        }
        let factor = yy & 1;
        proof {
            assert(xx * factor <= xx) by (nonlinear_arith)
                requires
                    factor <= 1u64,
                    0 <= xx,
            ;
        }
        let p = xx * factor;
        proof {
            assert((p <= xx && xx >> 32 == 0u64 && z >> 32 == 0u64) ==> (z ^ p) >> 32 == 0) by (
            bit_vector);
        }
        z = z ^ p;
        yy = yy >> 1;
        let shifted = xx << 1;
        let high = shifted >> 32;
        proof {
            assert(xx >> 32 == 0u64 ==> ((xx << 1) >> 32) <= 1) by (bit_vector);
            assert(high * 0x104C11DB7u64 <= 0x104C11DB7) by (nonlinear_arith)
                requires
                    high <= 1u64,
            ;
        }
        let red = high * POLYNOMIAL;
        proof {
            assert(((xx << 1) >> 32 == 0u64 ==> ((xx << 1) ^ 0u64) >> 32 == 0)) by (bit_vector);
            assert(((xx << 1) >> 32 == 1u64 ==> ((xx << 1) ^ 0x104C11DB7u64) >> 32 == 0)) by (
            bit_vector);
        }
        xx = shifted ^ red;
    }
    z
}

/// The polynomial raised to a power, reduced modulo the generator.
pub fn pow_mod(x: u64, y: u64) -> (r: u64)
    requires
        x >> 32 == 0,
    ensures
        r >> 32 == 0,
{
    let mut xx = x;
    let mut yy = y;
    let mut z: u64 = 1;
    proof {
        assert(1u64 >> 32 == 0) by (bit_vector);
    }
    while yy != 0
        invariant
            xx >> 32 == 0,
            z >> 32 == 0,
        decreases yy,
    {
        proof {
            assert(yy != 0 ==> (yy >> 1) < yy) by (bit_vector);
        }
        if yy & 1 != 0 {
            z = multiply_mod(z, xx);
        }
        xx = multiply_mod(xx, xx);
        yy = yy >> 1;
    }
    z
}

/// Polynomial division: the quotient and a remainder strictly below the
/// divisor.
fn divide_and_remainder(x: u64, y: u64) -> (r: (u64, u64))
    requires
        y >= 1,
    ensures
        r.1 < y,
{
    if x == 0 {
        return (0, 0);
    }
    let xdeg = get_degree(x);
    let ydeg = get_degree(y);
    if xdeg < ydeg {
        proof {
            assert((x >> (xdeg as u64) == 1 && y >> (ydeg as u64) == 1 && xdeg < ydeg && xdeg
                < 64 && ydeg < 64) ==> x < y) by (bit_vector);
        }
        return (0, x);
    }
    let mut xx = x;
    let mut z: u64 = 0;
    let mut i: u32 = xdeg - ydeg;
    proof {
        assert((x >> (xdeg as u64) == 1u64 && xdeg < 63) ==> x >> ((xdeg + 1) as u64) == 0) by (
        bit_vector);
    }
    loop
        invariant_except_break
            xx >> ((i + ydeg + 1) as u64) == 0 || i + ydeg == 63,
        invariant
            ydeg < 64,
            i + ydeg < 64,
            y >> (ydeg as u64) == 1u64,
        ensures
            xx >> (ydeg as u64) == 0,
        decreases i,
    {
        let ghost prev = xx;
        let bit = (xx >> ((i + ydeg) as u64)) & 1;
        if bit == 1 {
            xx = xx ^ (y << ((i) as u64));
            z = z | (1u64 << ((i) as u64));
        }
        proof {
            let iy = (i + ydeg) as u64;
            let ii = i as u64;
            let yd = ydeg as u64;
            assert(((prev >> ((iy + 1) as u64) == 0 || iy == 63) && y >> yd == 1u64 && yd + ii
                == iy && ii < 64u64 && yd < 64u64 && iy < 64u64) ==> ((if (prev >> iy) & 1
                == 1u64 {
                prev ^ (y << ii)
            } else {
                prev
            }) >> iy) == 0) by (bit_vector);
            assert(xx >> iy == 0);
        }
        if i == 0 {
            break ;
        }
        i -= 1;
    }
    proof {
        assert((xx >> (ydeg as u64) == 0 && y >> (ydeg as u64) == 1 && ydeg < 64) ==> xx
            < y) by (bit_vector);
    }
    (z, xx)
}

/// The multiplicative inverse of the polynomial modulo the generator, when
/// it exists.
pub fn reciprocal_mod(x: u64) -> (r: Option<u64>)
    requires
        x >> 32 == 0,
    ensures
        match r {
            Some(a) => a >> 32 == 0,
            None => true,
        },
{
    let mut y = x;
    let mut xx: u64 = POLYNOMIAL;
    let mut a: u64 = 0;
    let mut b: u64 = 1;
    proof {
        assert(0u64 >> 32 == 0 && 1u64 >> 32 == 0) by (bit_vector);
    }
    while y != 0
        invariant
            a >> 32 == 0,
            b >> 32 == 0,
        decreases y,
    {
        let (q, r) = divide_and_remainder(xx, y);
        if q >> 32 != 0 {
            // A quotient of full generator width cannot take part in the
            // 32-bit modular arithmetic below.
            return None;
        }
        let qb = multiply_mod(q, b);
        let c = a ^ qb;
        proof {
            assert((a >> 32 == 0u64 && qb >> 32 == 0u64) ==> (a ^ qb) >> 32 == 0) by (bit_vector);
        }
        xx = y;
        y = r;
        a = b;
        b = c;
    }
    if xx == 1 {
        Some(a)
    } else {
        None
    }
}

/// The 4-byte exclusive-or patch that moves the CRC register from `crc` to
/// `newcrc` for data whose end lies `tail_len` bytes after the patch
/// offset, or `None` when no patch exists.
pub fn compute_crc_patch(tail_len: u64, crc: u32, newcrc: u32) -> (r: Option<u32>)
    requires
        tail_len <= u64::MAX / 8,
{
    proof {
        assert(2u64 >> 32 == 0) by (bit_vector);
        assert(tail_len * 8 <= u64::MAX) by (nonlinear_arith)
            requires
                tail_len <= u64::MAX / 8,
        ;
    }
    let power = pow_mod(2, tail_len * 8);
    match reciprocal_mod(power) {
        Some(recip) => {
            let diff = (crc ^ newcrc) as u64;
            proof {
                assert(diff >> 32 == 0) by (bit_vector)
                    requires
                        diff <= 0xFFFF_FFFFu64,
                ;
            }
            let delta = multiply_mod(recip, diff);
            proof {
                assert(delta >> 32 == 0 ==> delta <= u32::MAX) by (bit_vector);
            }
            Some(delta as u32)
        },
        None => None,
    }
}

/// Reverses the bits of a 32-bit word.
pub fn reverse_bits32(x: u32) -> (r: u32) {
    let mut r: u32 = 0;
    let mut i: u32 = 0;
    while i < 32
        invariant
            i <= 32,
        decreases 32 - i,
    {
        r = (r << 1) | ((x >> i) & 1);
        i += 1;
    }
    r
}

/// Applies the bit-reversed patch to four bytes taken at the patch offset.
pub fn apply_crc_patch(bytes: &Vec<u8>, delta_reversed: u32) -> (r: Vec<u8>)
    requires
        bytes@.len() == 4,
    ensures
        r@.len() == 4,
{
    let mut out: Vec<u8> = Vec::new();
    let mut i: u32 = 0;
    while i < 4
        invariant
            i <= 4,
            out@.len() == i,
            bytes@.len() == 4,
        decreases 4 - i,
    {
        out.push(bytes[i as usize] ^ ((delta_reversed >> (i * 8)) as u8));
        i += 1;
    }
    out
}

} // verus!
