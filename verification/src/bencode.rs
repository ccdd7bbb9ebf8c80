//! Bencode values and their byte-level serialization and strict parsing:
//! integers without leading zeros, length-prefixed byte strings, lists, and
//! dictionaries whose keys must appear in strictly ascending order.

use vstd::prelude::*;

verus! {

broadcast use vstd::std_specs::vec::group_vec_axioms;

/// A bencode value. Dictionaries hold their entries sorted by key.
pub enum Bencode {
    Int(i64),
    Bytes(Vec<u8>),
    List(Vec<Bencode>),
    Dict(Vec<(Vec<u8>, Bencode)>),
}

/// The ways parsing can fail.
#[derive(Clone, Copy, PartialEq, Eq, Debug)]
pub enum BencodeError {
    /// The input ended inside a value.
    UnexpectedEnd,
    /// A structural rule was broken: a bad prefix, a misordered dictionary
    /// key, a malformed or out-of-range integer, or trailing data.
    InvalidData,
}

/// Appends the decimal digits of `n`.
fn push_usize_decimal(out: &mut Vec<u8>, n: usize)
    ensures
        final(out)@.len() >= old(out)@.len() + 1,
{
    let mut tmp: Vec<u8> = Vec::new();
    let mut v = n;
    loop
        invariant
            out@.len() == old(out)@.len(),
        ensures
            tmp@.len() >= 1,
            out@.len() == old(out)@.len(),
        decreases v,
    {
        proof {
            assert(v / 10 < v || v == 0) by (nonlinear_arith);
            assert(v % 10 <= 9) by (nonlinear_arith);
        }
        tmp.push(48 + (v % 10) as u8);
        v = v / 10;
        if v == 0 {
            break ;
        }
    }
    let mut k = tmp.len();
    while k > 0
        invariant
            k <= tmp@.len(),
            out@.len() == old(out)@.len() + (tmp@.len() - k),
        decreases k,
    {
        k -= 1;
        out.push(tmp[k]);
    }
}

/// Appends the decimal form of `num`, with a leading minus sign when
/// negative.
fn push_i64_decimal(out: &mut Vec<u8>, num: i64)
    ensures
        final(out)@.len() >= old(out)@.len() + 1,
{
    let mut mag: u64 = if num < 0 {
        out.push(45);
        ((-(num + 1)) as u64) + 1
    } else {
        num as u64
    };
    let mut tmp: Vec<u8> = Vec::new();
    loop
        invariant
            out@.len() >= old(out)@.len(),
        ensures
            tmp@.len() >= 1,
            out@.len() >= old(out)@.len(),
        decreases mag,
    {
        proof {
            assert(mag / 10 < mag || mag == 0) by (nonlinear_arith);
            assert(mag % 10 <= 9) by (nonlinear_arith);
        }
        tmp.push(48 + (mag % 10) as u8);
        mag = mag / 10;
        if mag == 0 {
            break ;
        }
    }
    let mut k = tmp.len();
    while k > 0
        invariant
            k <= tmp@.len(),
            out@.len() >= old(out)@.len() + (tmp@.len() - k),
        decreases k,
    {
        k -= 1;
        out.push(tmp[k]);
    }
}

/// Whether `a` is lexicographically smaller than `b`.
fn bytes_less(a: &Vec<u8>, b: &Vec<u8>) -> bool {
    let mut i: usize = 0;
    while i < a.len() && i < b.len()
        invariant
            i <= a@.len(),
            i <= b@.len(),
        decreases a@.len() - i,
    {
        if a[i] < b[i] {
            return true;
        }
        if a[i] > b[i] {
            return false;
        }
        i += 1;
    }
    a.len() < b.len()
}

impl Bencode {
    /// The nesting depth, used to bound the recursive serializer.
    pub closed spec fn depth(self) -> nat
        decreases self, 0int,
    {
        match self {
            Bencode::Int(_) => 0,
            Bencode::Bytes(_) => 0,
            Bencode::List(items) => 1 + Self::items_depth(items@, 0),
            Bencode::Dict(entries) => 1 + Self::entries_depth(entries@, 0),
        }
    }

    spec fn items_depth(items: Seq<Bencode>, i: int) -> nat
        decreases items, items.len() - i,
    {
        if i < 0 || i >= items.len() {
            0
        } else {
            let d = items[i].depth();
            let rest = Self::items_depth(items, i + 1);
            if d > rest {
                d
            } else {
                rest
            }
        }
    }

    spec fn entries_depth(entries: Seq<(Vec<u8>, Bencode)>, i: int) -> nat
        decreases entries, entries.len() - i,
    {
        if i < 0 || i >= entries.len() {
            0
        } else {
            let d = entries[i].1.depth();
            let rest = Self::entries_depth(entries, i + 1);
            if d > rest {
                d
            } else {
                rest
            }
        }
    }

    /// Appends the canonical byte form of this value.
    pub fn serialize(&self, out: &mut Vec<u8>)
        ensures
            final(out)@.len() >= old(out)@.len(),
        decreases self.depth(), 1int,
    {
        match self {
            Bencode::Int(num) => {
                out.push(105);
                push_i64_decimal(out, *num);
                out.push(101);
            },
            Bencode::Bytes(bytes) => {
                serialize_bytes(bytes, out);
            },
            Bencode::List(items) => {
                out.push(108);
                let n = items.len();
                let mut i: usize = 0;
                while i < n
                    invariant
                        i <= n,
                        n == items@.len(),
                        Self::items_depth(items@, 0) < self.depth(),
                        out@.len() >= old(out)@.len(),
                    decreases n - i,
                {
                    proof {
                        Self::lemma_item_depth(items@, 0, i as int);
                    }
                    items[i].serialize(out);
                    i += 1;
                }
                out.push(101);
            },
            Bencode::Dict(entries) => {
                out.push(100);
                let n = entries.len();
                let mut i: usize = 0;
                while i < n
                    invariant
                        i <= n,
                        n == entries@.len(),
                        Self::entries_depth(entries@, 0) < self.depth(),
                        out@.len() >= old(out)@.len(),
                    decreases n - i,
                {
                    proof {
                        Self::lemma_entry_depth(entries@, 0, i as int);
                    }
                    serialize_bytes(&entries[i].0, out);
                    entries[i].1.serialize(out);
                    i += 1;
                }
                out.push(101);
            },
        }
    }

    /// Every list item sits strictly below the list's own depth.
    proof fn lemma_item_depth(items: Seq<Bencode>, i: int, j: int)
        requires
            0 <= i <= j < items.len(),
        ensures
            items[j].depth() <= Self::items_depth(items, i),
        decreases j - i,
    {
        if i < j {
            Self::lemma_item_depth(items, i + 1, j);
        }
    }

    /// Every dictionary value sits strictly below the dictionary's depth.
    proof fn lemma_entry_depth(entries: Seq<(Vec<u8>, Bencode)>, i: int, j: int)
        requires
            0 <= i <= j < entries.len(),
        ensures
            entries[j].1.depth() <= Self::entries_depth(entries, i),
        decreases j - i,
    {
        if i < j {
            Self::lemma_entry_depth(entries, i + 1, j);
        }
    }

    /// Serializes this value into a fresh byte vector.
    pub fn to_bytes(&self) -> (r: Vec<u8>) {
        let mut out: Vec<u8> = Vec::new();
        self.serialize(&mut out);
        out
    }

    /// Parses one value that must span the whole input.
    pub fn parse(input: &Vec<u8>) -> (r: Result<Bencode, BencodeError>) {
        let mut pos: usize = 0;
        let head = match read_byte(input, &mut pos) {
            Ok(b) => b,
            Err(e) => {
                return Err(e);
            },
        };
        let value = match parse_value(input, &mut pos, head) {
            Ok(v) => v,
            Err(e) => {
                return Err(e);
            },
        };
        if pos != input.len() {
            return Err(BencodeError::InvalidData);
        }
        Ok(value)
    }
}

/// Appends a length-prefixed byte string.
fn serialize_bytes(bytes: &Vec<u8>, out: &mut Vec<u8>)
    ensures
        final(out)@.len() >= old(out)@.len(),
{
    push_usize_decimal(out, bytes.len());
    out.push(58);
    let mut i: usize = 0;
    while i < bytes.len()
        invariant
            i <= bytes@.len(),
            out@.len() >= old(out)@.len(),
        decreases bytes@.len() - i,
    {
        out.push(bytes[i]);
        i += 1;
    }
}

/// Reads one byte, advancing the cursor.
fn read_byte(input: &Vec<u8>, pos: &mut usize) -> (r: Result<u8, BencodeError>)
    requires
        *old(pos) <= input@.len(),
    ensures
        *old(pos) <= *final(pos) <= input@.len(),
        r is Ok ==> *final(pos) == *old(pos) + 1,
        r is Err ==> *final(pos) == *old(pos),
{
    if *pos < input.len() {
        let b = input[*pos];
        *pos = *pos + 1;
        Ok(b)
    } else {
        Err(BencodeError::UnexpectedEnd)
    }
}

/// Parses the value whose first byte has already been consumed.
fn parse_value(input: &Vec<u8>, pos: &mut usize, head: u8) -> (r: Result<Bencode, BencodeError>)
    requires
        *old(pos) <= input@.len(),
    ensures
        *old(pos) <= *final(pos) <= input@.len(),
    decreases input@.len() - *old(pos), 1int,
{
    if head == 105 {
        parse_integer(input, pos)
    } else if head == 108 {
        parse_list(input, pos)
    } else if head == 100 {
        parse_dictionary(input, pos)
    } else if 48 <= head && head <= 57 {
        match parse_byte_string(input, pos, head) {
            Ok(bytes) => Ok(Bencode::Bytes(bytes)),
            Err(e) => Err(e),
        }
    } else {
        Err(BencodeError::InvalidData)
    }
}

/// Parses the digits and closing marker of an integer.
fn parse_integer(input: &Vec<u8>, pos: &mut usize) -> (r: Result<Bencode, BencodeError>)
    requires
        *old(pos) <= input@.len(),
    ensures
        *old(pos) <= *final(pos) <= input@.len(),
    decreases input@.len() - *old(pos), 0int,
{
    let mut negative = false;
    let mut digits: usize = 0;
    let mut leading_zero = false;
    let mut mag: u64 = 0;
    loop
        invariant
            *pos <= input@.len(),
            *old(pos) <= *pos,
            digits <= *pos,
            mag <= 0x8000_0000_0000_0000u64,
        ensures
            *old(pos) <= *pos <= input@.len(),
        decreases input@.len() - *pos,
    {
        let b = match read_byte(input, pos) {
            Ok(b) => b,
            Err(e) => {
                return Err(e);
            },
        };
        if b == 101 {
            break ;
        }
        let ok = if digits == 0 && !negative {
            b == 45 || (48 <= b && b <= 57)
        } else if negative && digits == 0 {
            49 <= b && b <= 57
        } else if leading_zero {
            false
        } else {
            48 <= b && b <= 57
        };
        if !ok {
            return Err(BencodeError::InvalidData);
        }
        if b == 45 {
            negative = true;
            continue ;
        }
        if digits == 0 && b == 48 {
            leading_zero = true;
        }
        let d = (b - 48) as u64;
        // Accumulate while watching the signed 64-bit range.
        let limit: u64 = if negative {
            0x8000_0000_0000_0000
        } else {
            0x7FFF_FFFF_FFFF_FFFF
        };
        if mag > (limit - d) / 10 {
            return Err(BencodeError::InvalidData);
        }
        proof {
            assert(mag <= (limit - d) / 10 ==> mag * 10 + d <= limit) by (nonlinear_arith)
                requires
                    d <= 9u64,
                    limit <= 0x8000_0000_0000_0000u64,
                    d <= limit,
                    mag <= (limit - d) / 10,
            ;
        }
        mag = mag * 10 + d;
        digits += 1;
    }
    if digits == 0 {
        return Err(BencodeError::InvalidData);
    }
    if negative {
        if mag == 0x8000_0000_0000_0000 {
            return Ok(Bencode::Int(i64::MIN));
        }
        let v = -((mag) as i64);
        return Ok(Bencode::Int(v));
    }
    Ok(Bencode::Int(mag as i64))
}

/// Parses the rest of a length prefix (first digit given) and then that
/// many bytes of payload.
fn parse_byte_string(input: &Vec<u8>, pos: &mut usize, head: u8) -> (r: Result<
    Vec<u8>,
    BencodeError,
>)
    requires
        *old(pos) <= input@.len(),
        48 <= head <= 57,
    ensures
        *old(pos) <= *final(pos) <= input@.len(),
    decreases input@.len() - *old(pos), 0int,
{
    let length = match parse_natural_number(input, pos, head) {
        Ok(n) => n,
        Err(e) => {
            return Err(e);
        },
    };
    let ilen = input.len();
    if length > ilen - *pos {
        return Err(BencodeError::UnexpectedEnd);
    }
    let mut result: Vec<u8> = Vec::new();
    let mut i: usize = 0;
    while i < length
        invariant
            i <= length,
            *pos + length <= ilen,
            ilen == input@.len(),
            result@.len() == i,
        decreases length - i,
    {
        result.push(input[*pos + i]);
        i += 1;
    }
    *pos = *pos + length;
    Ok(result)
}

/// Parses a decimal length without leading zeros, ended by a colon.
fn parse_natural_number(input: &Vec<u8>, pos: &mut usize, head: u8) -> (r: Result<
    usize,
    BencodeError,
>)
    requires
        *old(pos) <= input@.len(),
        48 <= head <= 57,
    ensures
        *old(pos) <= *final(pos) <= input@.len(),
    decreases input@.len() - *old(pos), 0int,
{
    let mut b = head;
    let mut value: usize = 0;
    let mut first = true;
    let mut leading_zero = false;
    loop
        invariant
            *pos <= input@.len(),
            *old(pos) <= *pos,
        ensures
            *old(pos) <= *pos <= input@.len(),
        decreases input@.len() - *pos,
    {
        if b < 48 || b > 57 || (leading_zero && !first) {
            return Err(BencodeError::InvalidData);
        }
        if first && b == 48 {
            leading_zero = true;
        }
        let d = (b - 48) as usize;
        if value > (usize::MAX - d) / 10 {
            return Err(BencodeError::InvalidData);
        }
        proof {
            assert(value <= (usize::MAX - d) / 10 ==> value * 10 + d <= usize::MAX) by (
            nonlinear_arith)
                requires
                    d <= 9usize,
                    d <= usize::MAX,
                    value <= (usize::MAX - d) / 10,
            ;
        }
        value = value * 10 + d;
        first = false;
        b = match read_byte(input, pos) {
            Ok(nb) => nb,
            Err(e) => {
                return Err(e);
            },
        };
        if b == 58 {
            break ;
        }
    }
    Ok(value)
}

/// Parses list items until the closing marker.
fn parse_list(input: &Vec<u8>, pos: &mut usize) -> (r: Result<Bencode, BencodeError>)
    requires
        *old(pos) <= input@.len(),
    ensures
        *old(pos) <= *final(pos) <= input@.len(),
    decreases input@.len() - *old(pos), 0int,
{
    let mut result: Vec<Bencode> = Vec::new();
    loop
        invariant
            *pos <= input@.len(),
            *old(pos) <= *pos,
        ensures
            *old(pos) <= *pos <= input@.len(),
        decreases input@.len() - *pos,
    {
        let b = match read_byte(input, pos) {
            Ok(b) => b,
            Err(e) => {
                return Err(e);
            },
        };
        if b == 101 {
            break ;
        }
        let item = match parse_value(input, pos, b) {
            Ok(v) => v,
            Err(e) => {
                return Err(e);
            },
        };
        result.push(item);
    }
    Ok(Bencode::List(result))
}

/// Parses dictionary entries, insisting on strictly ascending keys, until
/// the closing marker.
fn parse_dictionary(input: &Vec<u8>, pos: &mut usize) -> (r: Result<Bencode, BencodeError>)
    requires
        *old(pos) <= input@.len(),
    ensures
        *old(pos) <= *final(pos) <= input@.len(),
    decreases input@.len() - *old(pos), 0int,
{
    let mut result: Vec<(Vec<u8>, Bencode)> = Vec::new();
    let mut have_prev = false;
    let mut prev: Vec<u8> = Vec::new();
    loop
        invariant
            *pos <= input@.len(),
            *old(pos) <= *pos,
        ensures
            *old(pos) <= *pos <= input@.len(),
        decreases input@.len() - *pos,
    {
        let b = match read_byte(input, pos) {
            Ok(b) => b,
            Err(e) => {
                return Err(e);
            },
        };
        if b == 101 {
            break ;
        }
        if !(48 <= b && b <= 57) {
            return Err(BencodeError::InvalidData);
        }
        let key = match parse_byte_string(input, pos, b) {
            Ok(k) => k,
            Err(e) => {
                return Err(e);
            },
        };
        if have_prev {
            if !bytes_less(&prev, &key) {
                return Err(BencodeError::InvalidData);
            }
        }
        let vb = match read_byte(input, pos) {
            Ok(b2) => b2,
            Err(e) => {
                return Err(e);
            },
        };
        let value = match parse_value(input, pos, vb) {
            Ok(v) => v,
            Err(e) => {
                return Err(e);
            },
        };
        let mut keycopy: Vec<u8> = Vec::new();
        let mut ki: usize = 0;
        while ki < key.len()
            invariant
                ki <= key@.len(),
            decreases key@.len() - ki,
        {
            keycopy.push(key[ki]);
            ki += 1;
        }
        prev = keycopy;
        have_prev = true;
        result.push((key, value));
    }
    Ok(Bencode::Dict(result))
}

} // verus!
