//! Little-endian fields of shared-memory records held as byte images.

use vstd::bytes::*;
use vstd::prelude::*;

use crate::pod::{le32, le64, lemma_le32_roundtrip, lemma_le64_roundtrip};

verus! {

broadcast use vstd::seq_lib::group_seq_properties;

/// The 32-bit field at `off`.
pub open spec fn u32_field(b: Seq<u8>, off: int) -> u32 {
    spec_u32_from_le_bytes(b.subrange(off, off + 4))
}

/// The signed 32-bit field at `off`.
pub open spec fn i32_field(b: Seq<u8>, off: int) -> i32 {
    u32_field(b, off) as i32
}

/// The 64-bit field at `off`.
pub open spec fn u64_field(b: Seq<u8>, off: int) -> u64 {
    spec_u64_from_le_bytes(b.subrange(off, off + 8))
}

/// `b` with the 32-bit field at `off` set to `x`.
pub open spec fn with_u32(b: Seq<u8>, off: int, x: u32) -> Seq<u8> {
    b.subrange(0, off) + le32(x) + b.skip(off + 4)
}

/// `b` with the 64-bit field at `off` set to `x`.
pub open spec fn with_u64(b: Seq<u8>, off: int, x: u64) -> Seq<u8> {
    b.subrange(0, off) + le64(x) + b.skip(off + 8)
}

/// Writing a field leaves the length, the written field reads back, and
/// every field that does not overlap it is unchanged.
pub proof fn lemma_with_u32(b: Seq<u8>, off: int, x: u32)
    requires
        0 <= off,
        off + 4 <= b.len(),
    ensures
        with_u32(b, off, x).len() == b.len(),
        u32_field(with_u32(b, off, x), off) == x,
        forall|o: int|
            0 <= o && o + 4 <= b.len() && (o + 4 <= off || off + 4 <= o) ==> #[trigger] u32_field(
                with_u32(b, off, x),
                o,
            ) == u32_field(b, o),
        forall|o: int|
            0 <= o && o + 8 <= b.len() && (o + 8 <= off || off + 4 <= o) ==> #[trigger] u64_field(
                with_u32(b, off, x),
                o,
            ) == u64_field(b, o),
{
    lemma_le32_roundtrip(x);
    let w = with_u32(b, off, x);
    assert(w.subrange(off, off + 4) =~= le32(x));
    assert forall|o: int|
        0 <= o && o + 4 <= b.len() && (o + 4 <= off || off + 4 <= o) implies #[trigger] u32_field(
            w,
            o,
        ) == u32_field(b, o) by {
        assert(w.subrange(o, o + 4) =~= b.subrange(o, o + 4));
    }
    assert forall|o: int|
        0 <= o && o + 8 <= b.len() && (o + 8 <= off || off + 4 <= o) implies #[trigger] u64_field(
            w,
            o,
        ) == u64_field(b, o) by {
        assert(w.subrange(o, o + 8) =~= b.subrange(o, o + 8));
    }
}

pub proof fn lemma_with_u64(b: Seq<u8>, off: int, x: u64)
    requires
        0 <= off,
        off + 8 <= b.len(),
    ensures
        with_u64(b, off, x).len() == b.len(),
        u64_field(with_u64(b, off, x), off) == x,
        forall|o: int|
            0 <= o && o + 4 <= b.len() && (o + 4 <= off || off + 8 <= o) ==> #[trigger] u32_field(
                with_u64(b, off, x),
                o,
            ) == u32_field(b, o),
        forall|o: int|
            0 <= o && o + 8 <= b.len() && (o + 8 <= off || off + 8 <= o) ==> #[trigger] u64_field(
                with_u64(b, off, x),
                o,
            ) == u64_field(b, o),
{
    lemma_le64_roundtrip(x);
    let w = with_u64(b, off, x);
    assert(w.subrange(off, off + 8) =~= le64(x));
    assert forall|o: int|
        0 <= o && o + 4 <= b.len() && (o + 4 <= off || off + 8 <= o) implies #[trigger] u32_field(
            w,
            o,
        ) == u32_field(b, o) by {
        assert(w.subrange(o, o + 4) =~= b.subrange(o, o + 4));
    }
    assert forall|o: int|
        0 <= o && o + 8 <= b.len() && (o + 8 <= off || off + 8 <= o) implies #[trigger] u64_field(
            w,
            o,
        ) == u64_field(b, o) by {
        assert(w.subrange(o, o + 8) =~= b.subrange(o, o + 8));
    }
}

pub fn read_u32(b: &Vec<u8>, off: usize) -> (r: u32)
    requires
        off + 4 <= b@.len(),
    ensures
        r == u32_field(b@, off as int),
{
    crate::pod::read_u32_at(b.as_slice(), off)
}

pub fn read_i32(b: &Vec<u8>, off: usize) -> (r: i32)
    requires
        off + 4 <= b@.len(),
    ensures
        r == i32_field(b@, off as int),
{
    #[verifier::truncate]
    let r = crate::pod::read_u32_at(b.as_slice(), off) as i32;
    r
}

pub fn read_u64(b: &Vec<u8>, off: usize) -> (r: u64)
    requires
        off + 8 <= b@.len(),
    ensures
        r == u64_field(b@, off as int),
{
    crate::pod::read_u64_at(b.as_slice(), off)
}

pub fn write_u32(b: &mut Vec<u8>, off: usize, x: u32)
    requires
        off + 4 <= old(b)@.len(),
    ensures
        final(b)@ == with_u32(old(b)@, off as int, x),
{
    let bytes = u32_to_le_bytes(x);
    let mut i: usize = 0;
    let n = b.len();
    while i < 4
        invariant
            n == b@.len(),
            bytes@ == le32(x),
            bytes@.len() == 4,
            off + 4 <= b@.len(),
            b@.len() == old(b)@.len(),
            i <= 4,
            forall|j: int| 0 <= j < b@.len() && !(off <= j < off + i) ==> b@[j] == old(b)@[j],
            forall|j: int| 0 <= j < i ==> b@[off + j] == bytes@[j],
        decreases 4 - i,
    {
        b.set(off + i, bytes[i]);
        i = i + 1;
    }
    assert(b@ =~= with_u32(old(b)@, off as int, x));
}

pub fn write_i32(b: &mut Vec<u8>, off: usize, x: i32)
    requires
        off + 4 <= old(b)@.len(),
    ensures
        final(b)@ == with_u32(old(b)@, off as int, x as u32),
{
    #[verifier::truncate]
    let u = x as u32;
    write_u32(b, off, u);
}

pub fn write_u64(b: &mut Vec<u8>, off: usize, x: u64)
    requires
        off + 8 <= old(b)@.len(),
    ensures
        final(b)@ == with_u64(old(b)@, off as int, x),
{
    let bytes = u64_to_le_bytes(x);
    let mut i: usize = 0;
    let n = b.len();
    while i < 8
        invariant
            n == b@.len(),
            bytes@ == le64(x),
            bytes@.len() == 8,
            off + 8 <= b@.len(),
            b@.len() == old(b)@.len(),
            i <= 8,
            forall|j: int| 0 <= j < b@.len() && !(off <= j < off + i) ==> b@[j] == old(b)@[j],
            forall|j: int| 0 <= j < i ==> b@[off + j] == bytes@[j],
        decreases 8 - i,
    {
        b.set(off + i, bytes[i]);
        i = i + 1;
    }
    assert(b@ =~= with_u64(old(b)@, off as int, x));
}

pub proof fn lemma_i32_u32_field(x: i32)
    ensures
        (x as u32) as i32 == x,
{
    assert((x as u32) as i32 == x) by (bit_vector);
}

} // verus!
