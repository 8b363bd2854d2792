//! The PnTree entropy decoder: a three-state machine that reads the
//! bitstream and writes pairs of bits in place into the destination.
use vstd::prelude::*;
use vstd::arithmetic::power2::pow2;
use crate::bitfiddle::{addressable, bits_of, BitReader, BitSliceWriter};
use crate::common::BitsPerPixel;
use crate::decomp::{
    assemble_bitplanes_in_place, delta_decode_in_place, jump_delta_decode_in_place, interleaved,
    xor_bitplanes, DecompressError, Decompressor, SpriteHandle,
};
use crate::transforms::{delta_dec, jump_dec, xor_bytes};

verus! {

/// The decoder's state between reads.
#[derive(Debug, Clone, Copy, PartialEq, Eq, Structural)]
pub enum PkDecompressorState {
    /// After a run: either a lone non-zero pair or the start of a verbatim stretch.
    StartVerbatim,
    /// Inside a stretch of verbatim pairs, ended by a `(0, 0)` pair.
    Verbatim,
    /// A run of zero pairs comes next.
    Rle,
}

/// The first position from `p` on that holds a clear bit, or the end.
pub open spec fn ones_end(s: Seq<bool>, p: int) -> int
    decreases s.len() - p,
{
    if p >= s.len() || p < 0 || !s[p] {
        p
    } else {
        ones_end(s, p + 1)
    }
}

/// The value of `b` read as a binary number, most significant bit first.
pub open spec fn msb_value(b: Seq<bool>) -> nat
    decreases b.len(),
{
    if b.len() == 0 {
        0
    } else {
        2 * msb_value(b.drop_last()) + if b.last() { 1nat } else { 0nat }
    }
}

/// `n` clear bits.
pub open spec fn zeros(n: nat) -> Seq<bool> {
    Seq::new(n, |i: int| false)
}

/// The smaller of two integers.
pub open spec fn min_int(a: int, b: int) -> int {
    if a <= b { a } else { b }
}

/// One step of the decoder at position `p` of `s` in state `st`: the bits it
/// emits, the next position and the next state; `None` when the input ends
/// before the step is complete.
pub open spec fn dec_step(s: Seq<bool>, p: int, st: PkDecompressorState) -> Option<(Seq<bool>, int, PkDecompressorState)> {
    match st {
        PkDecompressorState::StartVerbatim => if p >= s.len() {
            None
        } else if s[p] {
            Some((Seq::empty(), p + 1, PkDecompressorState::Verbatim))
        } else if p + 1 >= s.len() {
            None
        } else {
            Some((seq![s[p + 1], !s[p + 1]], p + 2, PkDecompressorState::Rle))
        },
        PkDecompressorState::Verbatim => if p + 1 >= s.len() {
            None
        } else if !s[p] && !s[p + 1] {
            Some((Seq::empty(), p + 2, PkDecompressorState::Rle))
        } else {
            Some((seq![s[p], s[p + 1]], p + 2, PkDecompressorState::Verbatim))
        },
        PkDecompressorState::Rle => if p >= s.len() {
            None
        } else {
            let q = ones_end(s, p);
            let l = q - p + 1;
            let start = min_int(q + 1, s.len() as int);
            let end = min_int(start + l, s.len() as int);
            let count = pow2(l as nat) - 1 + msb_value(s.subrange(start, end));
            Some((zeros((2 * count) as nat), end, PkDecompressorState::StartVerbatim))
        },
    }
}

/// Everything the decoder emits from position `p` in state `st` until the input ends.
pub open spec fn dec_run(s: Seq<bool>, p: int, st: PkDecompressorState) -> Seq<bool>
    decreases s.len() - p,
{
    match dec_step(s, p, st) {
        None => Seq::empty(),
        Some((o, p2, st2)) => if p < p2 <= s.len() {
            o + dec_run(s, p2, st2)
        } else {
            o
        },
    }
}

/// Everything the decoder emits for the bitstream `s`: the first bit picks the
/// starting state.
pub open spec fn decoded(s: Seq<bool>) -> Seq<bool> {
    if s.len() == 0 {
        Seq::empty()
    } else {
        dec_run(
            s,
            1,
            if s[0] { PkDecompressorState::StartVerbatim } else { PkDecompressorState::Rle },
        )
    }
}

/// `old` with its first `min(out.len(), cap)` bits replaced by those of `out`.
pub open spec fn filled(old: Seq<bool>, out: Seq<bool>, cap: int) -> Seq<bool> {
    Seq::new(old.len(), |i: int| if i < out.len() && i < cap { out[i] } else { old[i] })
}

/// A bound above every bit count of a sprite raster.
pub const RUN_CAP: u64 = 0x10_0000;

proof fn lemma_ones_end_bounds(s: Seq<bool>, p: int)
    requires
        0 <= p <= s.len(),
    ensures
        p <= ones_end(s, p) <= s.len(),
        ones_end(s, p) < s.len() ==> !s[ones_end(s, p)],
    decreases s.len() - p,
{
    if p < s.len() && s[p] {
        lemma_ones_end_bounds(s, p + 1);
    }
}

/// Reads the code of a run of zero pairs: a stretch of set bits ended by a
/// clear bit, then as many payload bits as the stretch is long plus one.
/// Returns that length and the payload's value, capped at `RUN_CAP`.
fn read_run_code(reader: &mut BitReader) -> (r: (usize, u64))
    requires
        old(reader).inv(),
        old(reader).pos < old(reader).bits().len(),
    ensures
        final(reader).inv(),
        final(reader).to_read == old(reader).to_read,
        ({
            let s = old(reader).bits();
            let p = old(reader).pos as int;
            let q = ones_end(s, p);
            let start = min_int(q + 1, s.len() as int);
            let end = min_int(start + (q - p + 1), s.len() as int);
            &&& r.0 == q - p + 1
            &&& final(reader).pos == end
            &&& r.1 as int == min_int(msb_value(s.subrange(start, end)) as int, RUN_CAP as int)
        }),
{
    let ghost s = reader.bits();
    let ghost p = reader.pos as int;
    let n = reader.to_read.len() * 8;
    proof {
        lemma_ones_end_bounds(s, p);
    }
    let mut ones: usize = 0;
    let mut exhausted = false;
    let mut b = reader.read_bit().unwrap();
    while b
        invariant
            reader.inv(),
            reader.to_read == old(reader).to_read,
            s == reader.bits(),
            n == s.len(),
            0 <= p < n,
            exhausted ==> !b && reader.pos == n && ones_end(s, p) == n && ones == n - p,
            !exhausted ==> reader.pos == p + ones + 1 && b == s[p + ones] && ones_end(s, p) == ones_end(
                s,
                p + ones,
            ),
        decreases n - p - ones,
    {
        assert(ones_end(s, p + ones) == ones_end(s, p + ones + 1));
        ones = ones + 1;
        match reader.read_bit() {
            Some(x) => {
                b = x;
            },
            None => {
                b = false;
                exhausted = true;
            },
        }
    }
    let l = ones + 1;
    let ghost q = ones_end(s, p);
    let ghost start = min_int(q + 1, n as int);
    let ghost end = min_int(start + l, n as int);
    assert(reader.pos == start);
    let mut val: u64 = 0;
    let mut read: usize = 0;
    while read < l && reader.pos < n
        invariant
            reader.inv(),
            reader.to_read == old(reader).to_read,
            s == reader.bits(),
            n == s.len(),
            0 <= start <= reader.pos <= end <= n,
            end == min_int(start + l, n as int),
            reader.pos == start + read,
            read <= l,
            val as int == min_int(msb_value(s.subrange(start, reader.pos as int)) as int, RUN_CAP as int),
        decreases l - read,
    {
        let ghost before = s.subrange(start, reader.pos as int);
        let x = reader.read_bit().unwrap();
        let ghost after = s.subrange(start, reader.pos as int);
        assert(after.drop_last() =~= before);
        assert(after.last() == x);
        if val >= RUN_CAP {
            val = RUN_CAP;
        } else {
            let v2 = 2 * val + (if x { 1u64 } else { 0u64 });
            val = if v2 >= RUN_CAP { RUN_CAP } else { v2 };
        }
        read = read + 1;
    }
    (l, val)
}

/// `old` with the bits of `out` written from position `w`, up to position `cap`.
pub open spec fn written_from(old: Seq<bool>, w: int, out: Seq<bool>, cap: int) -> Seq<bool> {
    Seq::new(old.len(), |i: int| if w <= i < w + out.len() && i < cap { out[i - w] } else { old[i] })
}

proof fn lemma_dec_step_advances(s: Seq<bool>, p: int, st: PkDecompressorState)
    requires
        0 <= p <= s.len(),
        dec_step(s, p, st) is Some,
    ensures
        p < dec_step(s, p, st).unwrap().1 <= s.len(),
        dec_step(s, p, st).unwrap().0.len() % 2 == 0,
{
    if st == PkDecompressorState::Rle {
        lemma_ones_end_bounds(s, p);
        let q = ones_end(s, p);
        vstd::arithmetic::power2::lemma_pow2_pos((q - p + 1) as nat);
    }
}

/// Writes `k` pairs of clear bits under the cursor.
fn emit_zero_pairs(writer: &mut BitSliceWriter, k: u64)
    requires
        old(writer).inv(),
        old(writer).pos + 2 * k <= old(writer).bits().len(),
    ensures
        final(writer).inv(),
        final(writer).pos == old(writer).pos + 2 * k,
        final(writer).bits() == written_from(old(writer).bits(), old(writer).pos as int, zeros((2 * k) as nat), final(writer).pos as int),
        final(writer).bit_slice@.len() == old(writer).bit_slice@.len(),
        final(final(writer).bit_slice)@ == final(old(writer).bit_slice)@,
{
    let ghost o = writer.bits();
    let ghost w = writer.pos as int;
    let mut j: u64 = 0;
    while j < k
        invariant
            writer.inv(),
            j <= k,
            writer.pos == w + 2 * j,
            w + 2 * k <= o.len(),
            writer.bit_slice@.len() == old(writer).bit_slice@.len(),
            writer.bits() == written_from(o, w, zeros((2 * j) as nat), writer.pos as int),
            final(writer.bit_slice)@ == final(old(writer).bit_slice)@,
        decreases k - j,
    {
        writer.write_bit(0);
        writer.write_bit(0);
        j = j + 1;
        assert(writer.bits() =~= written_from(o, w, zeros((2 * j) as nat), writer.pos as int));
    }
    assert(written_from(o, w, zeros((2 * k) as nat), writer.pos as int) =~= written_from(o, w, zeros((2 * k) as nat), writer.pos as int));
}

/// Takes one step of the decoder in `state`: reads what the step needs and
/// writes what it emits, up to bit `cap`. Returns the next state, and `true`
/// when the input ended before the step was complete.
fn decode_step(reader: &mut BitReader, writer: &mut BitSliceWriter, state: PkDecompressorState, cap: usize) -> (r: (PkDecompressorState, bool))
    requires
        old(reader).inv(),
        old(writer).inv(),
        old(writer).pos < cap <= old(writer).bits().len(),
        old(writer).pos % 2 == 0,
        cap % 2 == 0,
        cap < RUN_CAP,
    ensures
        final(reader).inv(),
        final(reader).to_read == old(reader).to_read,
        old(reader).pos <= final(reader).pos,
        final(writer).inv(),
        final(writer).bit_slice@.len() == old(writer).bit_slice@.len(),
        final(final(writer).bit_slice)@ == final(old(writer).bit_slice)@,
        ({
            let st = dec_step(old(reader).bits(), old(reader).pos as int, state);
            &&& st is None ==> r.1 && final(writer).bits() == old(writer).bits() && final(writer).pos == old(writer).pos
            &&& st is Some ==> !r.1 && r.0 == st.unwrap().2 && final(reader).pos == st.unwrap().1
                && final(writer).pos == min_int(old(writer).pos + st.unwrap().0.len(), cap as int)
                && final(writer).bits() == written_from(old(writer).bits(), old(writer).pos as int, st.unwrap().0, cap as int)
        }),
{
    let ghost s = reader.bits();
    let ghost o = writer.bits();
    let ghost p = reader.pos as int;
    let n = reader.to_read.len() * 8;
    match state {
        PkDecompressorState::StartVerbatim => match reader.read_bit() {
            Some(more_than_one) => {
                if !more_than_one {
                    let kind = match reader.read_bit() {
                        Some(b) => b,
                        None => {
                            return (state, true);
                        },
                    };
                    if kind {
                        writer.write_bit(1);
                        writer.write_bit(0);
                    } else {
                        writer.write_bit(0);
                        writer.write_bit(1);
                    }
                    assert(writer.bits() =~= written_from(o, old(writer).pos as int, seq![kind, !kind], cap as int));
                    (PkDecompressorState::Rle, false)
                } else {
                    assert(writer.bits() =~= written_from(o, old(writer).pos as int, Seq::empty(), cap as int));
                    (PkDecompressorState::Verbatim, false)
                }
            },
            None => (state, true),
        },
        PkDecompressorState::Verbatim => {
            let b1 = match reader.read_bit() {
                Some(b) => b,
                None => {
                    return (state, true);
                },
            };
            let b2 = match reader.read_bit() {
                Some(b) => b,
                None => {
                    return (state, true);
                },
            };
            if b1 == false && b2 == false {
                assert(writer.bits() =~= written_from(o, old(writer).pos as int, Seq::empty(), cap as int));
                (PkDecompressorState::Rle, false)
            } else {
                writer.write_bit(b1 as u8);
                writer.write_bit(b2 as u8);
                assert(writer.bits() =~= written_from(o, old(writer).pos as int, seq![b1, b2], cap as int));
                (PkDecompressorState::Verbatim, false)
            }
        },
        PkDecompressorState::Rle => {
            if reader.pos >= n {
                return (state, true);
            }
            let (l, val) = read_run_code(reader);
            let ghost q = ones_end(s, p);
            let ghost start = min_int(q + 1, s.len() as int);
            let ghost end = min_int(start + l, s.len() as int);
            let ghost count = pow2(l as nat) - 1 + msb_value(s.subrange(start, end));
            let sat: u64 = if l >= 21 {
                proof {
                    vstd::arithmetic::power2::lemma2_to64();
                    if l > 21 {
                        vstd::arithmetic::power2::lemma_pow2_strictly_increases(21, l as nat);
                    }
                }
                RUN_CAP
            } else {
                proof {
                    vstd::arithmetic::power2::lemma2_to64();
                    vstd::bits::lemma_u64_pow2_no_overflow(l as nat);
                    vstd::bits::lemma_u64_shl_is_mul(1, l as u64);
                    if l < 21 {
                        vstd::arithmetic::power2::lemma_pow2_strictly_increases(l as nat, 21);
                    }
                }
                let c = (1u64 << (l as u64)) - 1 + val;
                if c >= RUN_CAP { RUN_CAP } else { c }
            };
            assert(sat as int == min_int(count, RUN_CAP as int));
            let room = ((cap - writer.pos) / 2) as u64;
            let k = if sat < room { sat } else { room };
            emit_zero_pairs(writer, k);
            assert(writer.bits() =~= written_from(o, old(writer).pos as int, zeros((2 * count) as nat), cap as int));
            (PkDecompressorState::StartVerbatim, false)
        },
    }
}

/// Decodes the bitstream `stream` into `buf`: the first `cap` bits of `buf`
/// that the stream covers take the decoded bits, the rest stay as they were.
pub fn entropy_decode(buf: &mut [u8], stream: &[u8], cap: usize)
    requires
        addressable(old(buf)@.len() as nat),
        addressable(stream@.len() as nat),
        stream@.len() >= 1,
        cap <= 8 * old(buf)@.len(),
        cap % 2 == 0,
        cap < RUN_CAP,
    ensures
        final(buf)@.len() == old(buf)@.len(),
        bits_of(final(buf)@) == filled(bits_of(old(buf)@), decoded(bits_of(stream@)), cap as int),
{
    let ghost s = bits_of(stream@);
    let ghost o = bits_of(buf@);
    let mut writer = BitSliceWriter::new(buf);
    let mut reader = BitReader::new(stream);
    let first = reader.read_bit().unwrap();
    let mut state = if first {
        PkDecompressorState::StartVerbatim
    } else {
        PkDecompressorState::Rle
    };
    let ghost mut emitted: Seq<bool> = Seq::empty();
    let mut done = false;
    assert(writer.bits() =~= filled(o, emitted, cap as int));
    while !done && writer.pos < cap
        invariant
            reader.inv(),
            reader.to_read@ == stream@,
            s == bits_of(stream@),
            1 <= reader.pos <= s.len(),
            writer.inv(),
            writer.bit_slice@.len() == old(buf)@.len(),
            o == bits_of(old(buf)@),
            cap <= o.len(),
            cap % 2 == 0,
            cap < RUN_CAP,
            decoded(s) == emitted + (if done { Seq::empty() } else { dec_run(s, reader.pos as int, state) }),
            writer.pos == min_int(emitted.len() as int, cap as int),
            emitted.len() % 2 == 0,
            writer.bits() == filled(o, emitted, cap as int),
            final(writer.bit_slice)@ == after_borrow(buf)@,
        decreases 2 * (s.len() - reader.pos) + (if done { 0int } else { 1int }),
    {
        let ghost p = reader.pos as int;
        let ghost st0 = state;
        let ghost step = dec_step(s, p, st0);
        let (next, ended) = decode_step(&mut reader, &mut writer, state, cap);
        if ended {
            done = true;
        } else {
            proof {
                lemma_dec_step_advances(s, p, st0);
                let out = step.unwrap().0;
                assert(dec_run(s, p, st0) == out + dec_run(s, step.unwrap().1, step.unwrap().2));
                assert(emitted + (out + dec_run(s, step.unwrap().1, step.unwrap().2)) =~= (emitted + out)
                    + dec_run(s, step.unwrap().1, step.unwrap().2));
                assert(writer.bits() =~= filled(o, emitted + out, cap as int));
                emitted = emitted + out;
            }
            state = next;
        }
    }
    proof {
        let d = decoded(s);
        if !done {
            assert(filled(o, emitted, cap as int) =~= filled(o, d, cap as int));
        } else {
            assert(d =~= emitted);
        }
    }
}

/// The number of raster bytes of a sprite of `width` by `height` pixels at the
/// depth that `flags` encodes.
pub open spec fn raster_len(width: u8, height: u8, flags: u8) -> int {
    if flags == 0 {
        (width as int * height as int) / 8
    } else {
        (width as int * height as int) / 4
    }
}

/// `s` after `k` passes of jump delta decoding with stride `j`.
pub open spec fn jump_dec_times(s: Seq<bool>, j: int, k: nat) -> Seq<bool>
    decreases k,
{
    if k == 0 {
        s
    } else {
        jump_dec(jump_dec_times(s, j, (k - 1) as nat), j)
    }
}

/// `s` after `k` passes of delta decoding.
pub open spec fn delta_dec_times(s: Seq<bool>, k: nat) -> Seq<bool>
    decreases k,
{
    if k == 0 {
        s
    } else {
        delta_dec(delta_dec_times(s, (k - 1) as nat))
    }
}

/// The first `h` bits each XOR the bit `h` places later.
pub open spec fn xor_halves(s: Seq<bool>, h: int) -> Seq<bool> {
    Seq::new(s.len(), |i: int| if i < h { s[i] != s[i + h] } else { s[i] })
}

/// The raster bits before the bitplanes are reassembled: the decoded bits
/// after the jump delta passes, the delta passes and the XOR of the halves.
pub open spec fn unmixed(raw: Seq<bool>, n_bytes: int, params: u8, jump_size: u8) -> Seq<bool> {
    let jumped = jump_dec_times(raw, jump_size as int, ((params & 0b1100_0000u8) >> 6u8) as nat);
    let deltas = delta_dec_times(jumped, ((params & 0b0011_1100u8) >> 2u8) as nat);
    if params & 2u8 != 0 {
        xor_halves(deltas, 8 * (n_bytes / 2))
    } else {
        deltas
    }
}

proof fn lemma_bits_of_xor_halves(left: Seq<u8>, right: Seq<u8>)
    requires
        left.len() <= right.len(),
    ensures
        bits_of(xor_bytes(right, left) + right) == xor_halves(bits_of(left + right), 8 * left.len() as int),
{
    let a = xor_bytes(right, left) + right;
    let b = left + right;
    assert forall|p: int| 0 <= p < bits_of(a).len() implies #[trigger] bits_of(a)[p] == xor_halves(bits_of(b), 8 * left.len() as int)[p] by {
        if p >= 8 * left.len() {
            assert((p - 8 * left.len() as int) / 8 == p / 8 - left.len());
        } else {
            let q = p + 8 * left.len();
            assert(q / 8 == p / 8 + left.len());
            assert(q % 8 == p % 8);
            let x = right[p / 8];
            let y = left[p / 8];
            let k = (p % 8) as u8;
            assert(((x ^ y) & (1u8 << k) != 0) == ((y & (1u8 << k) != 0) != (x & (1u8 << k) != 0)))
                by (bit_vector);
        }
    }
    assert(bits_of(a) =~= xor_halves(bits_of(b), 8 * left.len() as int));
}

/// The raster bits that a PnTree sprite `bytes` (sprite header, codec header,
/// bitstream) decodes to over a destination that held `before`: the decoded
/// bits, the rest of the raster as it was, then the transforms undone, the
/// bitplanes reassembled last when the header's split bit is set.
pub open spec fn pk_raster(bytes: Seq<u8>, before: Seq<u8>) -> Seq<bool> {
    let n = raster_len(bytes[0], bytes[1], bytes[2]);
    let raw = filled(
        bits_of(before.subrange(0, n)),
        decoded(bits_of(bytes.subrange(5, bytes.len() as int))),
        8 * n,
    );
    let mixed = unmixed(raw, n, bytes[3], bytes[4]);
    if bytes[3] & 1u8 == 1 {
        interleaved(mixed)
    } else {
        mixed
    }
}

/// Decodes a PnTree sprite (sprite header, codec header, bitstream) into the
/// front of the decompressor's buffer and undoes the transforms there.
pub fn decompress<'a>(decompressor: &'a mut Decompressor, bytes: &[u8]) -> (r: Result<SpriteHandle<'a>, DecompressError>)
    requires
        addressable(bytes@.len() as nat),
    ensures
        bytes@.len() < 6 ==> r == Err::<SpriteHandle<'a>, DecompressError>(DecompressError::Truncated),
        bytes@.len() >= 6 && bytes@[2] > 1 ==> r == Err::<SpriteHandle<'a>, DecompressError>(DecompressError::InvalidFlags),
        bytes@.len() >= 6 && bytes@[2] <= 1 && old(decompressor).buf@.len() < raster_len(bytes@[0], bytes@[1], bytes@[2])
            ==> r == Err::<SpriteHandle<'a>, DecompressError>(DecompressError::BufferTooSmall),
        r is Ok <==> bytes@.len() >= 6 && bytes@[2] <= 1 && old(decompressor).buf@.len() >= raster_len(bytes@[0], bytes@[1], bytes@[2]),
        r is Err ==> final(decompressor).buf@ == old(decompressor).buf@,
        r is Ok ==> ({
            let h = r.unwrap();
            let n = raster_len(bytes@[0], bytes@[1], bytes@[2]);
            &&& h.width == bytes@[0]
            &&& h.height == bytes@[1]
            &&& h.flags == bytes@[2]
            &&& h.bytes@.len() == n
            &&& bits_of(h.bytes@) == pk_raster(bytes@, old(decompressor).buf@)
            &&& final(decompressor).buf@ == h.bytes@ + old(decompressor).buf@.subrange(n, old(decompressor).buf@.len() as int)
        }),
{
    if bytes.len() < 6 {
        return Err(DecompressError::Truncated);
    }
    let width = bytes[0];
    let height = bytes[1];
    let flags = bytes[2];
    let params = bytes[3];
    let split = params & 1u8 == 1;
    let xor = params & 2u8 != 0;
    let seq_delta = (params & 0b0011_1100u8) >> 2u8;
    let jump_delta = (params & 0b1100_0000u8) >> 6u8;
    let jump_size = bytes[4];
    assert((width as usize) * (height as usize) <= 65025) by (nonlinear_arith)
        requires
            width <= 255,
            height <= 255,
    ;
    let area = width as usize * height as usize;
    let byte_end = match BitsPerPixel::try_from_flags(flags) {
        Ok(BitsPerPixel::One) => area / 8,
        Ok(BitsPerPixel::Two) => area / 4,
        Err(_) => {
            return Err(DecompressError::InvalidFlags);
        },
    };
    if decompressor.buf.len() < byte_end {
        return Err(DecompressError::BufferTooSmall);
    }
    let stream = &bytes[5..bytes.len()];
    let (written_bytes, _) = decompressor.buf.split_at_mut(byte_end);
    entropy_decode(written_bytes, stream, byte_end * 8);
    let ghost raw = bits_of(written_bytes@);
    let mut i: u8 = 0;
    while i < jump_delta
        invariant
            i <= jump_delta,
            written_bytes@.len() == byte_end,
            byte_end <= 16256,
            bits_of(written_bytes@) == jump_dec_times(raw, jump_size as int, i as nat),
        decreases jump_delta - i,
    {
        jump_delta_decode_in_place(written_bytes, jump_size as usize);
        i = i + 1;
    }
    let ghost jumped = bits_of(written_bytes@);
    let mut i: u8 = 0;
    while i < seq_delta
        invariant
            i <= seq_delta,
            written_bytes@.len() == byte_end,
            byte_end <= 16256,
            bits_of(written_bytes@) == delta_dec_times(jumped, i as nat),
        decreases seq_delta - i,
    {
        delta_decode_in_place(written_bytes);
        i = i + 1;
    }
    if xor {
        let half = written_bytes.len() / 2;
        let ghost before = written_bytes@;
        let (left, right) = written_bytes.split_at_mut(half);
        xor_bitplanes(right, left);
        proof {
            assert(before =~= before.subrange(0, half as int) + before.subrange(half as int, before.len() as int));
            lemma_bits_of_xor_halves(before.subrange(0, half as int), before.subrange(half as int, before.len() as int));
        }
    }
    if split {
        assemble_bitplanes_in_place(written_bytes);
    }
    Ok(SpriteHandle { bytes: written_bytes, width, height, flags })
}

} // verus!
