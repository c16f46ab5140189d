//! Verified readers for the protocol-buffer wire encoding: LEB128 varints,
//! little-endian fixed-width words, zigzag decoding, and the two's-complement
//! reinterpretations the scalar field types call for.
//!
//! Each reader works on a position inside the caller's byte buffer, bounded
//! by the end of the enclosing message region, and is proved against a spec
//! function that defines the grammar it accepts.

use crate::error::Error;
use vstd::arithmetic::mul::lemma_mul_inequality;
use vstd::arithmetic::power2::{
    lemma2_to64, lemma2_to64_rest, lemma_pow2_adds, lemma_pow2_strictly_increases, pow2,
};
use vstd::prelude::*;

verus! {

/// The low seven bits of one varint byte.
pub open spec fn low7(b: u8) -> u8 {
    if b >= 0x80 {
        (b - 0x80) as u8
    } else {
        b
    }
}

/// How many bytes the varint starting at `pos` occupies, looking at most
/// `max` bytes ahead and never beyond `end`; `None` when the buffer ends
/// inside the varint, the varint is longer than `max` bytes, or a tenth
/// byte carries more than the one bit a 64-bit value has left.
pub open spec fn varint_len_from(b: Seq<u8>, pos: int, end: int, max: nat) -> Option<nat>
    decreases max,
{
    if max == 0 || pos < 0 || pos >= end || end > b.len() {
        None
    } else if b[pos] < 0x80 {
        if max == 1 && b[pos] > 1 {
            None
        } else {
            Some(1)
        }
    } else {
        match varint_len_from(b, pos + 1, end, (max - 1) as nat) {
            Some(k) => Some((k + 1) as nat),
            None => None,
        }
    }
}

/// The byte length of the varint at `pos`, if `pos` starts a well-formed
/// varint of at most ten bytes that fits in 64 bits.
pub open spec fn varint_len(b: Seq<u8>, pos: int, end: int) -> Option<nat> {
    varint_len_from(b, pos, end, 10)
}

/// The value of an `n`-byte varint at `pos`: the low seven bits of each
/// byte, least significant group first.
pub open spec fn varint_value(b: Seq<u8>, pos: int, n: nat) -> int
    decreases n,
{
    if n == 0 {
        0
    } else {
        varint_value(b, pos, (n - 1) as nat) + (low7(b[pos + n - 1]) as int) * (pow2(
            (7 * (n - 1)) as nat,
        ) as int)
    }
}

/// `pow2(7 * i)` as a machine word, for the weight of the `i`-th varint
/// byte.
pub fn pow2_of_7th(i: usize) -> (r: u64)
    requires
        i <= 9,
    ensures
        r as int == pow2((7 * i) as nat),
{
    proof {
        lemma2_to64();
        lemma2_to64_rest();
    }
    if i == 0 {
        1
    } else if i == 1 {
        0x80
    } else if i == 2 {
        0x4000
    } else if i == 3 {
        0x200000
    } else if i == 4 {
        0x10000000
    } else if i == 5 {
        0x800000000
    } else if i == 6 {
        0x40000000000
    } else if i == 7 {
        0x2000000000000
    } else if i == 8 {
        0x100000000000000
    } else {
        0x8000000000000000
    }
}

/// Reads one varint at `pos`, never looking past `end`.
///
/// Returns the decoded value and the position after the varint; fails with
/// `MalformedInput` exactly when `pos` does not start a well-formed varint
/// within the region.
pub fn read_varint(bytes: &[u8], pos: usize, end: usize) -> (r: Result<(u64, usize), Error>)
    requires
        pos <= end,
        end <= bytes@.len(),
    ensures
        match r {
            Ok((v, p)) => {
                &&& pos < p <= end
                &&& varint_len(bytes@, pos as int, end as int) == Some((p - pos) as nat)
                &&& v as int == varint_value(bytes@, pos as int, (p - pos) as nat)
            },
            Err(e) => {
                &&& varint_len(bytes@, pos as int, end as int) is None
                &&& e == Error::MalformedInput
            },
        },
{
    let ghost b = bytes@;
    proof {
        lemma2_to64();
    }
    let mut acc: u64 = 0;
    let mut i: usize = 0;
    while i < 10
        invariant
            i <= 10,
            pos + i <= end,
            end <= b.len(),
            b == bytes@,
            forall|k: int| 0 <= k < i ==> #[trigger] b[pos + k] >= 0x80,
            i <= 9 ==> acc as int == varint_value(b, pos as int, i as nat),
            i <= 9 ==> (acc as int) < pow2((7 * i) as nat),
            match varint_len_from(b, pos + i, end as int, (10 - i) as nat) {
                Some(k) => varint_len(b, pos as int, end as int) == Some((k + i) as nat),
                None => varint_len(b, pos as int, end as int) is None,
            },
        decreases 10 - i,
    {
        if pos + i >= end {
            return Err(Error::MalformedInput);
        }
        let byte = bytes[pos + i];
        let low = if byte >= 0x80 {
            byte - 0x80
        } else {
            byte
        };
        if byte < 0x80 {
            if i == 9 && byte > 1 {
                return Err(Error::MalformedInput);
            }
            let weight = pow2_of_7th(i);
            proof {
                lemma2_to64();
                lemma2_to64_rest();
                lemma_pow2_adds((7 * i) as nat, 7);
                lemma_mul_inequality(low as int, 127, weight as int);
                if i < 8 {
                    lemma_pow2_strictly_increases((7 * i + 7) as nat, 63);
                }
                if i == 9 {
                    lemma_mul_inequality(low as int, 1, weight as int);
                }
            }
            let term = (low as u64) * weight;
            let v = acc + term;
            return Ok((v, pos + i + 1));
        }
        if i < 9 {
            let weight = pow2_of_7th(i);
            proof {
                lemma2_to64();
                lemma2_to64_rest();
                lemma_pow2_adds((7 * i) as nat, 7);
                lemma_mul_inequality(low as int, 127, weight as int);
                if i < 8 {
                    lemma_pow2_strictly_increases((7 * i + 7) as nat, 63);
                }
            }
            acc = acc + (low as u64) * weight;
        }
        i = i + 1;
    }
    Err(Error::MalformedInput)
}

/// The value of the `n` little-endian bytes at `pos`.
pub open spec fn le_value(b: Seq<u8>, pos: int, n: nat) -> int
    decreases n,
{
    if n == 0 {
        0
    } else {
        le_value(b, pos, (n - 1) as nat) + (b[pos + n - 1] as int) * (pow2((8 * (n - 1)) as nat)
            as int)
    }
}

/// Reads a little-endian 32-bit word at `pos`; fails with `MalformedInput`
/// exactly when fewer than four bytes remain.
pub fn read_fixed32(bytes: &[u8], pos: usize, end: usize) -> (r: Result<(u32, usize), Error>)
    requires
        pos <= end,
        end <= bytes@.len(),
    ensures
        match r {
            Ok((v, p)) => {
                &&& pos + 4 <= end
                &&& p == pos + 4
                &&& v as int == le_value(bytes@, pos as int, 4)
            },
            Err(e) => pos + 4 > end && e == Error::MalformedInput,
        },
{
    if end - pos < 4 {
        return Err(Error::MalformedInput);
    }
    let b0 = bytes[pos] as u32;
    let b1 = bytes[pos + 1] as u32;
    let b2 = bytes[pos + 2] as u32;
    let b3 = bytes[pos + 3] as u32;
    let v = b0 + b1 * 0x100 + b2 * 0x10000 + b3 * 0x1000000;
    proof {
        let bb = bytes@;
        let p = pos as int;
        lemma2_to64();
        assert(le_value(bb, p, 0) == 0);
        assert(le_value(bb, p, 1) == le_value(bb, p, 0) + (bb[p] as int) * (pow2(0) as int));
        assert(le_value(bb, p, 2) == le_value(bb, p, 1) + (bb[p + 1] as int) * (pow2(8) as int));
        assert(le_value(bb, p, 3) == le_value(bb, p, 2) + (bb[p + 2] as int) * (pow2(16) as int));
        assert(le_value(bb, p, 4) == le_value(bb, p, 3) + (bb[p + 3] as int) * (pow2(24) as int));
    }
    Ok((v, pos + 4))
}

/// Reads a little-endian 64-bit word at `pos`; fails with `MalformedInput`
/// exactly when fewer than eight bytes remain.
pub fn read_fixed64(bytes: &[u8], pos: usize, end: usize) -> (r: Result<(u64, usize), Error>)
    requires
        pos <= end,
        end <= bytes@.len(),
    ensures
        match r {
            Ok((v, p)) => {
                &&& pos + 8 <= end
                &&& p == pos + 8
                &&& v as int == le_value(bytes@, pos as int, 8)
            },
            Err(e) => pos + 8 > end && e == Error::MalformedInput,
        },
{
    if end - pos < 8 {
        return Err(Error::MalformedInput);
    }
    let b0 = bytes[pos] as u64;
    let b1 = bytes[pos + 1] as u64;
    let b2 = bytes[pos + 2] as u64;
    let b3 = bytes[pos + 3] as u64;
    let b4 = bytes[pos + 4] as u64;
    let b5 = bytes[pos + 5] as u64;
    let b6 = bytes[pos + 6] as u64;
    let b7 = bytes[pos + 7] as u64;
    let v = b0 + b1 * 0x100 + b2 * 0x10000 + b3 * 0x1000000 + b4 * 0x100000000 + b5
        * 0x10000000000 + b6 * 0x1000000000000 + b7 * 0x100000000000000;
    proof {
        let bb = bytes@;
        let p = pos as int;
        lemma2_to64();
        lemma2_to64_rest();
        assert(le_value(bb, p, 0) == 0);
        assert(le_value(bb, p, 1) == le_value(bb, p, 0) + (bb[p] as int) * (pow2(0) as int));
        assert(le_value(bb, p, 2) == le_value(bb, p, 1) + (bb[p + 1] as int) * (pow2(8) as int));
        assert(le_value(bb, p, 3) == le_value(bb, p, 2) + (bb[p + 2] as int) * (pow2(16) as int));
        assert(le_value(bb, p, 4) == le_value(bb, p, 3) + (bb[p + 3] as int) * (pow2(24) as int));
        assert(le_value(bb, p, 5) == le_value(bb, p, 4) + (bb[p + 4] as int) * (pow2(32) as int));
        assert(le_value(bb, p, 6) == le_value(bb, p, 5) + (bb[p + 5] as int) * (pow2(40) as int));
        assert(le_value(bb, p, 7) == le_value(bb, p, 6) + (bb[p + 6] as int) * (pow2(48) as int));
        assert(le_value(bb, p, 8) == le_value(bb, p, 7) + (bb[p + 7] as int) * (pow2(56) as int));
    }
    Ok((v, pos + 8))
}

/// The low 32 bits of a 64-bit varint value.
pub open spec fn spec_low32(v: u64) -> u32 {
    (v % 0x100000000) as u32
}

/// Truncates a varint value to its low 32 bits.
pub fn low32(v: u64) -> (r: u32)
    ensures
        r == spec_low32(v),
{
    (v % 0x100000000) as u32
}

/// The 32-bit two's-complement reinterpretation of a 32-bit word.
pub open spec fn spec_as_i32(v: u32) -> i32 {
    if v < 0x80000000 {
        v as i32
    } else {
        (v - 0x100000000) as i32
    }
}

/// Reinterprets a 32-bit word as a signed value.
pub fn as_i32(v: u32) -> (r: i32)
    ensures
        r == spec_as_i32(v),
{
    if v < 0x80000000 {
        v as i32
    } else {
        let w = v - 0x80000000;
        (-0x7fffffff - 1) + (w as i32)
    }
}

/// The 64-bit two's-complement reinterpretation of a 64-bit word.
pub open spec fn spec_as_i64(v: u64) -> i64 {
    if v < 0x8000000000000000 {
        v as i64
    } else {
        (v - 0x10000000000000000) as i64
    }
}

/// Reinterprets a 64-bit word as a signed value.
pub fn as_i64(v: u64) -> (r: i64)
    ensures
        r == spec_as_i64(v),
{
    if v < 0x8000000000000000 {
        v as i64
    } else {
        let w = v - 0x8000000000000000;
        (-0x7fffffffffffffff - 1) + (w as i64)
    }
}

/// Zigzag decoding of a 32-bit value: even words are non-negative, odd
/// words negative.
pub open spec fn spec_zigzag32(n: u32) -> i32 {
    if n % 2 == 0 {
        (n / 2) as i32
    } else {
        (-((n / 2) as int) - 1) as i32
    }
}

/// Decodes a zigzag-encoded 32-bit value.
pub fn zigzag32(n: u32) -> (r: i32)
    ensures
        r == spec_zigzag32(n),
{
    let h = n / 2;
    if n % 2 == 0 {
        h as i32
    } else {
        -(h as i32) - 1
    }
}

/// Zigzag decoding of a 64-bit value: even words are non-negative, odd
/// words negative.
pub open spec fn spec_zigzag64(n: u64) -> i64 {
    if n % 2 == 0 {
        (n / 2) as i64
    } else {
        (-((n / 2) as int) - 1) as i64
    }
}

/// Decodes a zigzag-encoded 64-bit value.
pub fn zigzag64(n: u64) -> (r: i64)
    ensures
        r == spec_zigzag64(n),
{
    let h = n / 2;
    if n % 2 == 0 {
        h as i64
    } else {
        -(h as i64) - 1
    }
}

} // verus!
