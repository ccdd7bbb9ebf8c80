//! Time-based and HMAC-based one-time passwords over a hand-written SHA-1:
//! the hash, the HMAC construction, the dynamic truncation of the code, and
//! a base-32 key decoder. Every step is a pure computation over bytes.

use vstd::prelude::*;

verus! {

broadcast use vstd::std_specs::vec::group_vec_axioms;

/// Rotates a 32-bit word left by `s` bits.
fn rotl32(x: u32, s: u32) -> u32
    requires
        1 <= s < 32,
{
    (x << s) | (x >> (32 - s))
}

/// The SHA-1 digest of the message: always twenty bytes.
#[verifier::rlimit(100)]
pub fn calc_sha1_hash(message: Vec<u8>) -> (r: Vec<u8>)
    requires
        message@.len() + 72 <= usize::MAX,
        message@.len() * 8 <= u64::MAX,
    ensures
        r@.len() == 20,
{
    let mut msg = message;
    let bitlen: u64 = (msg.len() as u64) * 8;
    msg.push(0x80);
    while (msg.len() + 8) % 64 != 0
        invariant
            msg@.len() + 71 <= usize::MAX,
        decreases (64 - ((msg@.len() + 8) % 64)) % 64,
    {
        msg.push(0x00);
    }
    let mut k: usize = 0;
    while k < 8
        invariant
            k <= 8,
            msg@.len() + 8 - k <= usize::MAX,
        decreases 8 - k,
    {
        let shift: u32 = 56 - 8 * (k as u32);
        msg.push((bitlen >> shift) as u8);
        k += 1;
    }
    let mut state: Vec<u32> = Vec::new();
    state.push(0x67452301);
    state.push(0xEFCDAB89);
    state.push(0x98BADCFE);
    state.push(0x10325476);
    state.push(0xC3D2E1F0);
    let mut block: usize = 0;
    let mlen = msg.len();
    let nblocks = mlen / 64;
    proof {
        assert(nblocks * 64 <= msg@.len()) by (nonlinear_arith)
            requires
                nblocks == msg@.len() / 64,
        ;
    }
    while block < nblocks
        invariant
            state@.len() == 5,
            nblocks * 64 <= msg@.len(),
            msg@.len() == mlen,
        decreases nblocks - block,
    {
        proof {
            assert(block * 64 + 64 <= msg@.len()) by (nonlinear_arith)
                requires
                    block < nblocks,
                    nblocks * 64 <= msg@.len(),
            ;
        }
        let base = block * 64;
        let mut schedule: Vec<u32> = Vec::new();
        let mut w: usize = 0;
        while w < 16
            invariant
                w <= 16,
                schedule@.len() == w,
                base + 64 <= mlen,
                mlen == msg@.len(),
            decreases 16 - w,
        {
            let o = base + 4 * w;
            let word = ((msg[o] as u32) << 24) | ((msg[o + 1] as u32) << 16) | ((msg[o
                + 2] as u32) << 8) | (msg[o + 3] as u32);
            schedule.push(word);
            w += 1;
        }
        let mut t: usize = 16;
        while t < 80
            invariant
                16 <= t <= 80,
                schedule@.len() == t,
            decreases 80 - t,
        {
            let tmp = schedule[t - 3] ^ schedule[t - 8] ^ schedule[t - 14] ^ schedule[t - 16];
            schedule.push(rotl32(tmp, 1));
            t += 1;
        }
        let mut a = state[0];
        let mut b = state[1];
        let mut c = state[2];
        let mut d = state[3];
        let mut e = state[4];
        let mut i: usize = 0;
        while i < 80
            invariant
                i <= 80,
                schedule@.len() == 80,
            decreases 80 - i,
        {
            let round = i / 20;
            let f: u32 = if round == 0 {
                (b & c) | (!b & d)
            } else if round == 1 {
                b ^ c ^ d
            } else if round == 2 {
                (b & c) ^ (b & d) ^ (c & d)
            } else {
                b ^ c ^ d
            };
            let rc: u32 = if round == 0 {
                0x5A827999
            } else if round == 1 {
                0x6ED9EBA1
            } else if round == 2 {
                0x8F1BBCDC
            } else {
                0xCA62C1D6
            };
            let temp = rotl32(a, 5).wrapping_add(f).wrapping_add(e).wrapping_add(
                schedule[i],
            ).wrapping_add(rc);
            e = d;
            d = c;
            c = rotl32(b, 30);
            b = a;
            a = temp;
            i += 1;
        }
        let s0 = state[0].wrapping_add(a);
        let s1 = state[1].wrapping_add(b);
        let s2 = state[2].wrapping_add(c);
        let s3 = state[3].wrapping_add(d);
        let s4 = state[4].wrapping_add(e);
        state[0] = s0;
        state[1] = s1;
        state[2] = s2;
        state[3] = s3;
        state[4] = s4;
        block += 1;
    }
    let mut out: Vec<u8> = Vec::new();
    let mut si: usize = 0;
    while si < 5
        invariant
            si <= 5,
            state@.len() == 5,
            out@.len() == si * 4,
        decreases 5 - si,
    {
        let word = state[si];
        out.push((word >> 24) as u8);
        out.push((word >> 16) as u8);
        out.push((word >> 8) as u8);
        out.push(word as u8);
        si += 1;
    }
    out
}

/// The HMAC-SHA-1 of the message under the key: twenty bytes.
pub fn calc_hmac(key: Vec<u8>, message: &Vec<u8>, blocksize: usize) -> (r: Vec<u8>)
    requires
        1 <= blocksize <= 4096,
        key@.len() + 72 <= usize::MAX,
        key@.len() * 8 <= u64::MAX,
        message@.len() + 8192 <= usize::MAX,
        (message@.len() + 8192) * 8 <= u64::MAX,
    ensures
        r@.len() == 20,
{
    let mut k = key;
    if k.len() > blocksize {
        k = calc_sha1_hash(k);
    }
    if k.len() > blocksize {
        k.truncate(blocksize);
    }
    while k.len() < blocksize
        invariant
            k@.len() <= blocksize,
        decreases blocksize - k@.len(),
    {
        k.push(0);
    }
    let mut innermsg: Vec<u8> = Vec::new();
    let mut i: usize = 0;
    while i < k.len()
        invariant
            i <= k@.len(),
            k@.len() <= blocksize,
            blocksize <= 4096,
            innermsg@.len() == i,
        decreases k@.len() - i,
    {
        innermsg.push(k[i] ^ 0x36);
        i += 1;
    }
    let mut j: usize = 0;
    while j < message.len()
        invariant
            j <= message@.len(),
            innermsg@.len() == k@.len() + j,
            k@.len() <= 4096,
            message@.len() + 8192 <= usize::MAX,
        decreases message@.len() - j,
    {
        innermsg.push(message[j]);
        j += 1;
    }
    let innerhash = calc_sha1_hash(innermsg);
    let mut outermsg: Vec<u8> = Vec::new();
    let mut i2: usize = 0;
    while i2 < k.len()
        invariant
            i2 <= k@.len(),
            k@.len() <= 4096,
            outermsg@.len() == i2,
        decreases k@.len() - i2,
    {
        outermsg.push(k[i2] ^ 0x5C);
        i2 += 1;
    }
    let mut j2: usize = 0;
    while j2 < innerhash.len()
        invariant
            j2 <= innerhash@.len(),
            innerhash@.len() == 20,
            outermsg@.len() == k@.len() + j2,
            k@.len() <= 4096,
        decreases innerhash@.len() - j2,
    {
        outermsg.push(innerhash[j2]);
        j2 += 1;
    }
    calc_sha1_hash(outermsg)
}

/// The HMAC-based one-time password: exactly `codelen` decimal digits.
pub fn calc_hotp(secretkey: Vec<u8>, counter: &Vec<u8>, codelen: usize, blocksize: usize) -> (r:
    Vec<u8>)
    requires
        1 <= codelen <= 9,
        1 <= blocksize <= 4096,
        secretkey@.len() + 72 <= usize::MAX,
        secretkey@.len() * 8 <= u64::MAX,
        counter@.len() + 8192 <= usize::MAX,
        (counter@.len() + 8192) * 8 <= u64::MAX,
    ensures
        r@.len() == codelen,
        forall|i: int| 0 <= i < r@.len() ==> 48 <= #[trigger] r@[i] <= 57,
{
    let hash = calc_hmac(secretkey, counter, blocksize);
    let hb = hash[19];
    proof {
        assert(hb & 0xF < 16) by (bit_vector);
    }
    let offset = (hb & 0xF) as usize;
    let b0 = hash[offset] as u32;
    let b1 = hash[offset + 1] as u32;
    let b2 = hash[offset + 2] as u32;
    let b3 = hash[offset + 3] as u32;
    let mut val = ((b0 << 24) | (b1 << 16) | (b2 << 8) | b3) & 0x7FFF_FFFF;
    // Keep the low `codelen` decimal digits, then write them out with
    // leading zeros.
    let modulus: u32 = if codelen == 1 {
        10
    } else if codelen == 2 {
        100
    } else if codelen == 3 {
        1_000
    } else if codelen == 4 {
        10_000
    } else if codelen == 5 {
        100_000
    } else if codelen == 6 {
        1_000_000
    } else if codelen == 7 {
        10_000_000
    } else if codelen == 8 {
        100_000_000
    } else {
        1_000_000_000
    };
    val = val % modulus;
    let mut digits: Vec<u8> = Vec::new();
    let mut k: usize = 0;
    while k < codelen
        invariant
            k <= codelen,
            digits@.len() == k,
            forall|i: int| 0 <= i < digits@.len() ==> 48 <= #[trigger] digits@[i] <= 57,
        decreases codelen - k,
    {
        digits.push(48);
        k += 1;
    }
    let mut pos: usize = codelen;
    let mut v = val;
    while pos > 0
        invariant
            pos <= codelen,
            digits@.len() == codelen,
            forall|i: int| pos <= i < digits@.len() ==> 48 <= #[trigger] digits@[i] <= 57,
        decreases pos,
    {
        pos -= 1;
        let ghost before = digits@;
        digits[pos] = 48 + (v % 10) as u8;
        proof {
            assert forall|i2: int| pos <= i2 < digits@.len() implies 48 <= #[trigger] digits@[i2]
                <= 57 by {
                if i2 != pos {
                    assert(digits@[i2] == before[i2]);
                }
            }
        }
        v = v / 10;
    }
    digits
}

/// The time-based one-time password for the given timestamp.
pub fn calc_totp(
    secretkey: Vec<u8>,
    epoch: i64,
    timestep: i64,
    timestamp: i64,
    codelen: usize,
    blocksize: usize,
) -> (r: Vec<u8>)
    requires
        1 <= codelen <= 9,
        1 <= blocksize <= 4096,
        1 <= timestep,
        i64::MIN < timestamp - epoch - timestep + 1 && timestamp - epoch <= i64::MAX,
        secretkey@.len() + 72 <= usize::MAX,
        secretkey@.len() * 8 <= u64::MAX,
    ensures
        r@.len() == codelen,
        forall|i: int| 0 <= i < r@.len() ==> 48 <= #[trigger] r@[i] <= 57,
{
    let mut temp: i64 = timestamp - epoch;
    if temp < 0 {
        temp = temp - (timestep - 1);
    }
    let timecounter = temp / timestep;
    let tc = timecounter as u64;
    let mut counter: Vec<u8> = Vec::new();
    let mut k: usize = 0;
    while k < 8
        invariant
            k <= 8,
            counter@.len() == k,
        decreases 8 - k,
    {
        let shift: u32 = 56 - 8 * (k as u32);
        counter.push((tc >> shift) as u8);
        k += 1;
    }
    calc_hotp(secretkey, &counter, codelen, blocksize)
}

/// Decodes an ASCII base-32 string (RFC 4648 alphabet, spaces ignored,
/// case-insensitive) into bytes; `None` on any other character.
pub fn decode_base32(s: &Vec<u8>) -> (r: Option<Vec<u8>>)
{
    let mut result: Vec<u8> = Vec::new();
    let mut bits: u16 = 0;
    let mut bitslen: u32 = 0;
    let mut i: usize = 0;
    while i < s.len()
        invariant
            i <= s@.len(),
            bitslen < 8,
        decreases s@.len() - i,
    {
        let ch = s[i];
        i += 1;
        if ch == 32 {
            continue ;
        }
        let value: u8 = if 65 <= ch && ch <= 90 {
            ch - 65
        } else if 97 <= ch && ch <= 122 {
            ch - 97
        } else if 50 <= ch && ch <= 55 {
            ch - 50 + 26
        } else {
            return None;
        };
        bits = (bits << 5) | (value as u16);
        bitslen = bitslen + 5;
        if bitslen >= 8 {
            bitslen = bitslen - 8;
            result.push((bits >> bitslen) as u8);
            proof {
                assert(1u16 << bitslen >= 1) by (bit_vector)
                    requires
                        bitslen < 8u32,
                ;
            }
            bits = bits & ((1u16 << bitslen) - 1);
        }
    }
    Some(result)
}

} // verus!
