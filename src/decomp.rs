//! The decompressor: its buffer and result types, and the in-place inverses
//! of the encoder's transforms that keep it free of allocation.
use vstd::prelude::*;
use crate::bitfiddle::{addressable, bits_of, BitSliceWriter};
use crate::common::{BitsPerPixel, CompType};
use crate::transforms::{delta_dec, jump_dec, jump_dec_at, prefix_parity, xor_bytes};

verus! {

/// Why a sprite could not be decompressed.
#[derive(Debug, Clone, Copy, PartialEq, Eq, Structural)]
pub enum DecompressError {
    /// The container byte names no known compression kind.
    InvalidCompType,
    /// The sprite header's flags set a reserved bit.
    InvalidFlags,
    /// The destination buffer cannot hold the raster.
    BufferTooSmall,
    /// The input ends before its headers, or before the raster it announces.
    Truncated,
}

/// Decompresses sprites into a caller-provided buffer.
pub struct Decompressor<'a> {
    pub buf: &'a mut [u8],
}

impl<'a> Decompressor<'a> {
    pub fn new(buf: &'a mut [u8]) -> (r: Self)
        ensures
            r.buf@ == old(buf)@,
            final(buf)@ == final(r.buf)@,
    {
        Self { buf }
    }

    /// Decompresses one sprite: a container byte, then either a sprite header
    /// and the raw raster, or a PnTree sprite. The raster lands at the front
    /// of the buffer.
    pub fn decompress(&mut self, bytes: &[u8]) -> (r: Result<SpriteHandle, DecompressError>)
        requires
            addressable(bytes@.len() as nat),
        ensures
            bytes@.len() == 0 ==> r == Err::<SpriteHandle, DecompressError>(DecompressError::Truncated),
            r is Err ==> final(self).buf@ == old(self).buf@,
            r is Ok ==> final(self).buf@ == r.unwrap().bytes@ + old(self).buf@.subrange(
                r.unwrap().bytes@.len() as int,
                old(self).buf@.len() as int,
            ),
            bytes@.len() >= 1 && bytes@[0] > 1 ==> r == Err::<SpriteHandle, DecompressError>(DecompressError::InvalidCompType),
            bytes@.len() >= 1 && bytes@[0] == 0 ==> ({
                let n = crate::pkdecomp::raster_len(bytes@[1], bytes@[2], bytes@[3]);
                &&& bytes@.len() < 4 ==> r == Err::<SpriteHandle, DecompressError>(DecompressError::Truncated)
                &&& bytes@.len() >= 4 && bytes@[3] > 1 ==> r == Err::<SpriteHandle, DecompressError>(DecompressError::InvalidFlags)
                &&& bytes@.len() >= 4 && bytes@[3] <= 1 && old(self).buf@.len() < n ==> r == Err::<SpriteHandle, DecompressError>(DecompressError::BufferTooSmall)
                &&& bytes@.len() >= 4 && bytes@[3] <= 1 && old(self).buf@.len() >= n && bytes@.len() < 4 + n ==> r == Err::<SpriteHandle, DecompressError>(DecompressError::Truncated)
                &&& r is Ok <==> bytes@.len() >= 4 && bytes@[3] <= 1 && old(self).buf@.len() >= n && bytes@.len() >= 4 + n
                &&& r is Ok ==> r.unwrap().bytes@ == bytes@.subrange(4, 4 + n) && r.unwrap().width == bytes@[1]
                    && r.unwrap().height == bytes@[2] && r.unwrap().flags == bytes@[3]
            }),
            bytes@.len() >= 1 && bytes@[0] == 1 ==> ({
                let rest = bytes@.subrange(1, bytes@.len() as int);
                let n = crate::pkdecomp::raster_len(rest[0], rest[1], rest[2]);
                &&& r is Ok <==> rest.len() >= 6 && rest[2] <= 1 && old(self).buf@.len() >= n
                &&& rest.len() < 6 ==> r == Err::<SpriteHandle, DecompressError>(DecompressError::Truncated)
                &&& rest.len() >= 6 && rest[2] > 1 ==> r == Err::<SpriteHandle, DecompressError>(DecompressError::InvalidFlags)
                &&& rest.len() >= 6 && rest[2] <= 1 && old(self).buf@.len() < n ==> r == Err::<SpriteHandle, DecompressError>(DecompressError::BufferTooSmall)
                &&& r is Ok ==> r.unwrap().width == rest[0] && r.unwrap().height == rest[1] && r.unwrap().flags == rest[2]
                    && r.unwrap().bytes@.len() == n
                    && bits_of(r.unwrap().bytes@) == crate::pkdecomp::pk_raster(rest, old(self).buf@)
            }),
    {
        if bytes.len() == 0 {
            return Err(DecompressError::Truncated);
        }
        let kind = match CompType::try_from(bytes[0]) {
            Ok(k) => k,
            Err(_) => {
                return Err(DecompressError::InvalidCompType);
            },
        };
        match kind {
            CompType::Uncompressed => {
                if bytes.len() < 4 {
                    return Err(DecompressError::Truncated);
                }
                let width = bytes[1];
                let height = bytes[2];
                let flags = bytes[3];
                assert((width as usize) * (height as usize) <= 65025) by (nonlinear_arith)
                    requires
                        width <= 255,
                        height <= 255,
                ;
                let area = width as usize * height as usize;
                let length = match BitsPerPixel::try_from_flags(flags) {
                    Ok(BitsPerPixel::One) => area / 8,
                    Ok(BitsPerPixel::Two) => area / 4,
                    Err(_) => {
                        return Err(DecompressError::InvalidFlags);
                    },
                };
                if self.buf.len() < length {
                    return Err(DecompressError::BufferTooSmall);
                }
                if bytes.len() < 4 + length {
                    return Err(DecompressError::Truncated);
                }
                let (front, _) = self.buf.split_at_mut(length);
                let mut i: usize = 0;
                while i < length
                    invariant
                        front@.len() == length,
                        length <= 16256,
                        4 + length <= bytes@.len(),
                        i <= length,
                        forall|k: int| 0 <= k < i ==> front@[k] == bytes@[4 + k],
                    decreases length - i,
                {
                    front[i] = bytes[4 + i];
                    i = i + 1;
                }
                assert(front@ =~= bytes@.subrange(4, 4 + length as int));
                Ok(SpriteHandle { bytes: front, width, height, flags })
            },
            CompType::Pk => {
                let rest = &bytes[1..bytes.len()];
                crate::pkdecomp::decompress(self, rest)
            },
        }
    }
}

/// A decompressed sprite: its raster, at the front of the decompressor's
/// buffer, and its header.
pub struct SpriteHandle<'a> {
    pub bytes: &'a [u8],
    pub width: u8,
    pub height: u8,
    pub flags: u8,
}

/// XORs `bp1` into `bp2`, byte by byte, over the bytes that both have.
pub fn xor_bitplanes(bp1: &[u8], bp2: &mut [u8])
    ensures
        final(bp2)@ == xor_bytes(bp1@, old(bp2)@),
{
    let mut i: usize = 0;
    while i < bp1.len() && i < bp2.len()
        invariant
            bp2@.len() == old(bp2)@.len(),
            i <= bp2@.len(),
            forall|k: int|
                0 <= k < bp2@.len() ==> #[trigger] bp2@[k] == if k < i && k < bp1@.len() {
                    bp1@[k] ^ old(bp2)@[k]
                } else {
                    old(bp2)@[k]
                },
        decreases bp2@.len() - i,
    {
        bp2[i] = bp1[i] ^ bp2[i];
        i = i + 1;
    }
    assert(bp2@ =~= xor_bytes(bp1@, old(bp2)@));
}

/// Sequential delta decoding, in place.
pub fn delta_decode_in_place(bytes: &mut [u8])
    requires
        addressable(old(bytes)@.len() as nat),
    ensures
        final(bytes)@.len() == old(bytes)@.len(),
        bits_of(final(bytes)@) == delta_dec(bits_of(old(bytes)@)),
{
    let ghost o = bits_of(bytes@);
    let len = bytes.len() * 8;
    let mut writer = BitSliceWriter::new(bytes);
    let mut cur: u8 = 0;
    let mut bit_pos: usize = 0;
    while bit_pos < len
        invariant
            writer.inv(),
            o.len() == len,
            writer.bit_slice@.len() == old(bytes)@.len(),
            writer.pos == bit_pos,
            bit_pos <= len,
            writer.bits() == delta_dec(o).take(bit_pos as int) + o.skip(bit_pos as int),
            cur <= 1,
            (cur == 1) == prefix_parity(o, bit_pos as int),
            final(writer.bit_slice)@ == after_borrow(bytes)@,
        decreases len - bit_pos,
    {
        let b1 = writer.read_at(bit_pos).unwrap();
        if b1 {
            cur = 1 - cur;
        }
        writer.write_bit(cur);
        bit_pos = bit_pos + 1;
        assert(writer.bits() =~= delta_dec(o).take(bit_pos as int) + o.skip(bit_pos as int));
    }
    assert(delta_dec(o).take(len as int) + o.skip(len as int) =~= delta_dec(o));
}

/// Jump delta decoding with stride `jump_size`, in place.
pub fn jump_delta_decode_in_place(bytes: &mut [u8], jump_size: usize)
    requires
        addressable(old(bytes)@.len() as nat),
    ensures
        final(bytes)@.len() == old(bytes)@.len(),
        bits_of(final(bytes)@) == jump_dec(bits_of(old(bytes)@), jump_size as int),
{
    let ghost o = bits_of(bytes@);
    let ghost j = jump_size as int;
    let len = bytes.len() * 8;
    let mut writer = BitSliceWriter::new(bytes);
    if jump_size >= len {
        assert(o =~= jump_dec(o, j));
        return;
    }
    let mut bit_pos: usize = jump_size;
    assert(o =~= jump_dec(o, j).take(bit_pos as int) + o.skip(bit_pos as int));
    while bit_pos < len
        invariant
            writer.inv(),
            o.len() == len,
            j == jump_size,
            writer.bit_slice@.len() == old(bytes)@.len(),
            jump_size <= bit_pos <= len,
            writer.bits() == jump_dec(o, j).take(bit_pos as int) + o.skip(bit_pos as int),
            final(writer.bit_slice)@ == after_borrow(bytes)@,
        decreases len - bit_pos,
    {
        let b_jump = writer.read_at(bit_pos - jump_size).unwrap();
        let b_cur = writer.read_at(bit_pos).unwrap();
        writer.write_bit_at(((b_jump as u8 + b_cur as u8) % 2) as u8, bit_pos);
        proof {
            if j > 0 {
                assert(jump_dec_at(o, j, bit_pos as int) == (o[bit_pos as int] != jump_dec_at(
                    o,
                    j,
                    bit_pos - j,
                )));
            }
        }
        bit_pos = bit_pos + 1;
        assert(writer.bits() =~= jump_dec(o, j).take(bit_pos as int) + o.skip(bit_pos as int));
    }
    assert(jump_dec(o, j).take(len as int) + o.skip(len as int) =~= jump_dec(o, j));
}

/// `x` with the `len` bits from `start` in-shuffled: the bits of the second
/// half and of the first half alternate, the second half's first.
pub open spec fn in_shuffled(x: Seq<bool>, start: int, len: int) -> Seq<bool> {
    Seq::new(
        x.len(),
        |q: int|
            if start <= q < start + len {
                if (q - start) % 2 == 0 {
                    x[start + len / 2 + (q - start) / 2]
                } else {
                    x[start + (q - start) / 2]
                }
            } else {
                x[q]
            },
    )
}

/// The two halves of `x` interleaved, the first half's bits at the even positions.
pub open spec fn interleaved(x: Seq<bool>) -> Seq<bool> {
    Seq::new(x.len(), |q: int| if q % 2 == 0 { x[q / 2] } else { x[x.len() / 2 + q / 2] })
}

/// In-shuffles the `len` bits from `start` in place, for an even `len`: the
/// halves are split into quarters, the second and third quarters change
/// places by a rotation, and each half is then in-shuffled the same way.
/// An odd `len` leaves the bits as they are.
pub(crate) fn in_shuffle_sides(bytes: &mut [u8], start: usize, len: usize)
    requires
        addressable(old(bytes)@.len() as nat),
        start + len <= 8 * old(bytes)@.len(),
    ensures
        final(bytes)@.len() == old(bytes)@.len(),
        len % 2 == 0 ==> bits_of(final(bytes)@) == in_shuffled(bits_of(old(bytes)@), start as int, len as int),
        len % 2 == 1 ==> final(bytes)@ == old(bytes)@,
    decreases len,
{
    let ghost o = bits_of(bytes@);
    if len % 2 == 1 || len == 0 {
        assert(in_shuffled(o, start as int, 0) =~= o);
        return;
    }
    let n = len / 2;
    if n == 1 {
        let mut writer = BitSliceWriter::new(bytes);
        writer.swap(start, start + 1);
        assert(writer.bits() =~= in_shuffled(o, start as int, len as int));
        return;
    }
    let h = n / 2;
    {
        let mut writer = BitSliceWriter::new(bytes);
        writer.rotate_right(start + h, start + n + h, h);
    }
    let ghost mid = bits_of(bytes@);
    in_shuffle_sides(bytes, start, 2 * h);
    let ghost mid2 = bits_of(bytes@);
    in_shuffle_sides(bytes, start + 2 * h, len - 2 * h);
    proof {
        let f = bits_of(bytes@);
        let s = start as int;
        assert forall|q: int| 0 <= q < f.len() implies #[trigger] f[q] == in_shuffled(o, s, len as int)[q] by {
            if s <= q < s + 2 * h {
                let r = q - s;
                if r % 2 == 0 {
                    assert(f[q] == mid2[q]);
                    assert(mid2[q] == mid[s + h + r / 2]);
                } else {
                    assert(f[q] == mid2[q]);
                    assert(mid2[q] == mid[s + r / 2]);
                }
            } else if s + 2 * h <= q < s + len {
                let r = q - s - 2 * h;
                if r % 2 == 0 {
                    assert(f[q] == mid2[s + n + h + r / 2]);
                    assert(mid2[s + n + h + r / 2] == mid[s + n + h + r / 2]);
                } else {
                    assert(f[q] == mid2[s + 2 * h + r / 2]);
                    assert(mid2[s + 2 * h + r / 2] == mid[s + 2 * h + r / 2]);
                }
            }
        }
        assert(f =~= in_shuffled(o, s, len as int));
    }
}

/// Interleaves the two halves of the bits of `slice` in place, the first
/// half's bits going to the even positions: the in-shuffle of all bits but
/// the first and the last.
pub(crate) fn in_shuffle(slice: &mut [u8])
    requires
        addressable(old(slice)@.len() as nat),
    ensures
        final(slice)@.len() == old(slice)@.len(),
        bits_of(final(slice)@) == interleaved(bits_of(old(slice)@)),
{
    let ghost o = bits_of(slice@);
    if slice.len() == 0 {
        assert(interleaved(o) =~= o);
        return;
    }
    let n = slice.len() * 8 - 2;
    in_shuffle_sides(slice, 1, n);
    proof {
        let f = bits_of(slice@);
        let hl = o.len() / 2;
        assert forall|q: int| 0 <= q < f.len() implies #[trigger] f[q] == interleaved(o)[q] by {
            if q == 0 {
            } else if q == f.len() - 1 {
                assert(q / 2 == hl - 1);
            } else {
                let r = q - 1;
                if r % 2 == 0 {
                    assert(1 + n / 2 + r / 2 == hl + q / 2);
                } else {
                    assert(1 + r / 2 == q / 2);
                }
            }
        }
        assert(f =~= interleaved(o));
    }
}

/// Reassembles a raster from its two bitplanes, stored one after the other,
/// in place: bit `2 i` takes bit `i` of the first plane, bit `2 i + 1` bit
/// `i` of the second.
pub fn assemble_bitplanes_in_place(bytes: &mut [u8])
    requires
        addressable(old(bytes)@.len() as nat),
    ensures
        final(bytes)@.len() == old(bytes)@.len(),
        bits_of(final(bytes)@) == interleaved(bits_of(old(bytes)@)),
{
    in_shuffle(bytes);
}

} // verus!
