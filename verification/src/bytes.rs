//! Small helpers on byte buffers.

use vstd::prelude::*;

verus! {

/// The little-endian value of the two bytes at `pos`.
pub open spec fn le_u16(s: Seq<u8>, pos: int) -> u16 {
    (s[pos] as int + s[pos + 1] as int * 256) as u16
}

/// Sets every element of `slice` to `val`.
pub fn memset<T: Copy>(slice: &mut [T], val: T)
    ensures
        final(slice)@.len() == old(slice)@.len(),
        forall|i: int| 0 <= i < final(slice)@.len() ==> final(slice)@[i] == val,
{
    let n = slice.len();
    let mut i: usize = 0;
    while i < n
        invariant
            n == slice@.len(),
            i <= n,
            forall|j: int| 0 <= j < i ==> slice@[j] == val,
        decreases n - i,
    {
        slice[i] = val;
        i += 1;
    }
}

/// Sets the elements `start..end` of `slice` to `val`.
pub fn memset_range<T: Copy>(slice: &mut [T], start: usize, end: usize, val: T)
    requires
        start <= end <= old(slice)@.len(),
    ensures
        final(slice)@.len() == old(slice)@.len(),
        forall|i: int| start <= i < end ==> final(slice)@[i] == val,
        forall|i: int|
            0 <= i < old(slice)@.len() && !(start <= i < end) ==> final(slice)@[i] == old(slice)@[i],
{
    let mut i: usize = start;
    while i < end
        invariant
            start <= i <= end,
            end <= slice@.len(),
            slice@.len() == old(slice)@.len(),
            forall|j: int| start <= j < i ==> slice@[j] == val,
            forall|j: int|
                0 <= j < old(slice)@.len() && !(start <= j < i) ==> slice@[j] == old(slice)@[j],
        decreases end - i,
    {
        slice[i] = val;
        i += 1;
    }
}

/// Writes `val` as two little-endian bytes at `pos`.
pub fn write_u16_le(val: u16, slice: &mut [u8], pos: usize)
    requires
        pos + 1 < old(slice)@.len(),
    ensures
        final(slice)@ == old(slice)@.update(pos as int, (val % 256) as u8).update(
            pos + 1,
            (val / 256) as u8,
        ),
        le_u16(final(slice)@, pos as int) == val,
{
    slice[pos] = val as u8;
    slice[pos + 1] = (val >> 8) as u8;
    proof {
        assert((val as u8) == val % 256) by (bit_vector);
        assert((val >> 8) as u8 == val / 256) by (bit_vector);
    }
}

/// Writes `val` as two little-endian bytes at `pos`; the caller guarantees the room.
pub fn write_u16_le_uc(val: u16, slice: &mut [u8], pos: usize)
    requires
        pos + 1 < old(slice)@.len(),
    ensures
        final(slice)@ == old(slice)@.update(pos as int, (val % 256) as u8).update(
            pos + 1,
            (val / 256) as u8,
        ),
        le_u16(final(slice)@, pos as int) == val,
{
    write_u16_le(val, slice, pos);
}

/// Reads the two little-endian bytes at `pos`.
pub fn read_u16_le(slice: &[u8], pos: usize) -> (r: u16)
    requires
        pos + 1 < slice@.len(),
    ensures
        r == le_u16(slice@, pos as int),
        r == slice@[pos as int] as int + slice@[pos + 1] as int * 256,
{
    let lo = slice[pos];
    let hi = slice[pos + 1];
    proof {
        assert((lo as u16 | ((hi as u16) << 8)) == lo as int + hi as int * 256) by (bit_vector);
    }
    lo as u16 | ((hi as u16) << 8)
}

/// Reading back two bytes written at a position gives the value written.
pub proof fn lemma_read_write_u16_le(s: Seq<u8>, pos: int, val: u16)
    requires
        0 <= pos,
        pos + 1 < s.len(),
    ensures
        le_u16(s.update(pos, (val % 256) as u8).update(pos + 1, (val / 256) as u8), pos) == val,
        s.update(pos, (val % 256) as u8).update(pos + 1, (val / 256) as u8).len() == s.len(),
{
}

} // verus!
