//! The PnTree encoder: the pair-wise run-length / verbatim entropy coder, the
//! transform pipeline in front of it, and the search over its parameters.
use vstd::prelude::*;
use vstd::arithmetic::power2::{pow2, lemma_pow2_unfold};
use crate::bitfiddle::{bits_of, msb_bits, padded, BitReader, BitVecWriter};
use crate::transforms::{
    delta_enc, delta_encode, delta_encode_by_jump, evens, jump_enc, odds, split_bitplanes,
    xor_bitplanes, xor_bytes,
};

verus! {

/// The encoder's state between pairs of input bits.
#[derive(Debug, Clone, Copy)]
pub enum State {
    /// The last `n` pairs were `(0, 0)`.
    Zeroes(usize),
    /// The last `i` pairs were non-zero, the latest being `(b1, b2)`.
    Root(bool, bool, usize),
}

/// Pair `k` of `s`; a missing second bit reads as clear.
pub open spec fn pair_at(s: Seq<bool>, k: int) -> (bool, bool) {
    (s[2 * k], 2 * k + 1 < s.len() && s[2 * k + 1])
}

/// The number of pairs in `s`.
pub open spec fn num_pairs(s: Seq<bool>) -> int {
    (s.len() as int + 1) / 2
}

/// The number of binary digits of `n`.
pub open spec fn bit_len(n: nat) -> nat
    decreases n,
{
    if n == 0 {
        0
    } else {
        1 + bit_len(n / 2)
    }
}

/// The code of a run of `n` zero pairs: with `m = n + 1` of `h` binary digits
/// and `f = 2^(h-1)`, the value `f - 2` then the value `m - f` (`m` without its
/// top bit), each in `h - 1` bits, most significant first.
pub open spec fn run_code(n: nat) -> Seq<bool> {
    let h = bit_len(n + 1);
    let f = pow2((h - 1) as nat);
    msb_bits((f - 2) as u32, (h - 1) as nat) + msb_bits((n + 1 - f) as u32, (h - 1) as nat)
}

/// What a state holds back: the code of its run of zero pairs, or its last pair.
pub open spec fn held(st: State) -> Seq<bool> {
    match st {
        State::Zeroes(n) => run_code(n as nat),
        State::Root(b1, b2, _) => seq![b1, b2],
    }
}

/// What a state leaves to emit when the input ends: what it holds back,
/// except that a lone non-zero pair is written with the marker the decoder
/// expects after a run (`0` and its first bit, or `1 1 1` for `(1, 1)`).
pub open spec fn flush(st: State) -> Seq<bool> {
    match st {
        State::Root(b1, b2, i) => if i == 1 {
            if b1 && b2 { seq![true, true, true] } else { seq![false, b1] }
        } else {
            held(st)
        },
        _ => held(st),
    }
}

/// The state after the first pair.
pub open spec fn start_state(b1: bool, b2: bool) -> State {
    if !b1 && !b2 {
        State::Zeroes(1)
    } else {
        State::Root(b1, b2, 1)
    }
}

/// The next state and the bits emitted, on the pair `(b1, b2)`.
pub open spec fn step(st: State, b1: bool, b2: bool) -> (State, Seq<bool>) {
    match st {
        State::Zeroes(n) => if !b1 && !b2 {
            (State::Zeroes((n + 1) as usize), Seq::empty())
        } else {
            (State::Root(b1, b2, 1), run_code(n as nat))
        },
        State::Root(lb1, lb2, i) => if !b1 && !b2 {
            if i == 1 && !(lb1 && lb2) {
                (State::Zeroes(1), seq![false, lb1])
            } else if i == 1 {
                (State::Zeroes(1), seq![true, lb1, lb2, false, false])
            } else {
                (State::Zeroes(1), seq![lb1, lb2, false, false])
            }
        } else {
            if i == 1 {
                (State::Root(b1, b2, (i + 1) as usize), seq![true, lb1, lb2])
            } else {
                (State::Root(b1, b2, (i + 1) as usize), seq![lb1, lb2])
            }
        },
    }
}

/// The state and the bits emitted after the first `k` pairs of `s`, the
/// leading framing bit included (`k >= 1`).
pub open spec fn run_prefix(s: Seq<bool>, k: int) -> (State, Seq<bool>)
    decreases k,
{
    if k <= 1 {
        let (b1, b2) = pair_at(s, 0);
        (start_state(b1, b2), seq![b1 || b2])
    } else {
        let (st, o) = run_prefix(s, k - 1);
        let (b1, b2) = pair_at(s, k - 1);
        let (st2, o2) = step(st, b1, b2);
        (st2, o + o2)
    }
}

/// The entropy-coded bits of `s`.
pub open spec fn entropy_bits(s: Seq<bool>) -> Seq<bool> {
    let (st, o) = run_prefix(s, num_pairs(s));
    o + flush(st)
}

/// `s` after `k` passes of delta encoding.
pub open spec fn delta_times(s: Seq<bool>, k: nat) -> Seq<bool>
    decreases k,
{
    if k == 0 {
        s
    } else {
        delta_enc(delta_times(s, (k - 1) as nat))
    }
}

/// `s` after `k` passes of jump delta encoding with stride `j`.
pub open spec fn jump_times(s: Seq<bool>, j: int, k: nat) -> Seq<bool>
    decreases k,
{
    if k == 0 {
        s
    } else {
        jump_enc(jump_times(s, j, (k - 1) as nat), j)
    }
}

/// A raster short enough that every bit position of its encoding fits a
/// 32-bit `usize`.
pub open spec fn codable(len: nat) -> bool {
    len < 0x0040_0000
}

pub(crate) proof fn lemma_bit_len(x: nat, k: nat)
    requires
        1 <= x < pow2(k),
    ensures
        1 <= bit_len(x) <= k,
        pow2((bit_len(x) - 1) as nat) <= x < pow2(bit_len(x)),
    decreases x,
{
    if k == 0 {
        vstd::arithmetic::power2::lemma2_to64();
    } else {
        lemma_pow2_unfold(k);
        if x == 1 {
            vstd::arithmetic::power2::lemma2_to64();
            assert(bit_len(0) == 0);
        } else {
            lemma_bit_len(x / 2, (k - 1) as nat);
            let b = bit_len(x / 2);
            lemma_pow2_unfold(b + 1);
            if b >= 1 {
                lemma_pow2_unfold(b);
            }
        }
    }
}

proof fn lemma_bit_len_max(x: nat)
    requires
        x <= usize::MAX,
    ensures
        bit_len(x) <= 64,
{
    if x >= 1 {
        vstd::arithmetic::power2::lemma2_to64();
        lemma_bit_len(x, 64);
    }
}

/// The number of binary digits of `n`.
fn highest_bit(n: usize) -> (r: usize)
    ensures
        r == bit_len(n as nat),
{
    let ghost n0 = n;
    let mut n = n;
    let mut bit: usize = 0;
    proof {
        lemma_bit_len_max(n as nat);
    }
    while n > 0
        invariant
            bit + bit_len(n as nat) == bit_len(n0 as nat),
            bit_len(n0 as nat) <= 64,
        decreases n,
    {
        assert(n >> 1 == n / 2) by (bit_vector);
        n = n >> 1;
        bit = bit + 1;
    }
    bit
}

/// The run length, or the length of the non-zero stretch, that a state counts.
pub open spec fn count(st: State) -> int {
    match st {
        State::Zeroes(n) => n as int,
        State::Root(_, _, i) => i as int,
    }
}

/// Emits what `prev_state` leaves: the code of its run of zero pairs, or its last pair.
fn write(prev_state: State, writer: &mut BitVecWriter)
    requires
        old(writer).tight(),
        old(writer).pos + 64 < usize::MAX,
        1 <= count(prev_state) < 0xFFFF_FFFF,
    ensures
        final(writer).tight(),
        final(writer).written() == old(writer).written() + held(prev_state),
        final(writer).pos == old(writer).pos + held(prev_state).len(),
        held(prev_state).len() <= 62,
        final(final(writer).to_write)@ == final(old(writer).to_write)@,
{
    match prev_state {
        State::Zeroes(n) => {
            let n = n + 1;
            let hb = highest_bit(n);
            proof {
                vstd::arithmetic::power2::lemma2_to64();
                lemma_bit_len(n as nat, 32);
                assert(hb >= 2) by {
                    if hb < 2 {
                        assert(pow2(1) == 2);
                        assert(pow2(0) == 1);
                    }
                }
                vstd::bits::lemma_u64_pow2_no_overflow((hb - 1) as nat);
                vstd::bits::lemma_u64_shl_is_mul(1, (hb - 1) as u64);
            }
            let f: u64 = 1u64 << ((hb - 1) as u64);
            let v: u64 = n as u64 - f;
            let l: u64 = f - 2;
            let ghost w0 = writer.written();
            writer.write(l as u32, hb - 1);
            writer.write(v as u32, hb - 1);
            assert(writer.written() =~= w0 + held(prev_state));
        },
        State::Root(b1, b2, _) => {
            let ghost w0 = writer.written();
            writer.write_bit(b1 as u8);
            writer.write_bit(b2 as u8);
            assert(writer.written() =~= w0 + held(prev_state));
        },
    }
}

/// Emits what `state` leaves when the input ends.
fn finish(state: State, writer: &mut BitVecWriter)
    requires
        old(writer).tight(),
        old(writer).pos + 64 < usize::MAX,
        1 <= count(state) < 0xFFFF_FFFF,
    ensures
        final(writer).tight(),
        final(writer).written() == old(writer).written() + flush(state),
        final(writer).pos <= old(writer).pos + 62,
        final(final(writer).to_write)@ == final(old(writer).to_write)@,
{
    let ghost w0 = writer.written();
    match state {
        State::Root(b1, b2, 1) => {
            if b1 && b2 {
                writer.write_bit(1);
                writer.write_bit(1);
                writer.write_bit(1);
            } else {
                writer.write_bit(0);
                writer.write_bit(b1 as u8);
            }
            assert(writer.written() =~= w0 + flush(state));
        },
        _ => {
            write(state, writer);
        },
    }
}

/// Takes the pair `(b1, b2)` in `state`: emits what the transition emits and
/// returns the next state.
fn advance(state: State, b1: bool, b2: bool, writer: &mut BitVecWriter) -> (r: State)
    requires
        old(writer).tight(),
        old(writer).pos + 128 < usize::MAX,
        1 <= count(state) < 0xFFFF_FFF0,
    ensures
        final(writer).tight(),
        r == step(state, b1, b2).0,
        final(writer).written() == old(writer).written() + step(state, b1, b2).1,
        final(writer).pos <= old(writer).pos + 64,
        final(final(writer).to_write)@ == final(old(writer).to_write)@,
{
    let ghost w0 = writer.written();
    let ghost expect = step(state, b1, b2);
    let r = match state {
        State::Zeroes(z) => {
            if !b1 && !b2 {
                State::Zeroes(z + 1)
            } else {
                write(state, writer);
                State::Root(b1, b2, 1)
            }
        },
        State::Root(lb1, lb2, i) => {
            if !b1 && !b2 {
                if i == 1 && !(lb1 && lb2) {
                    writer.write_bit(0);
                    writer.write_bit(lb1 as u8);
                } else if i == 1 {
                    writer.write_bit(1);
                    write(state, writer);
                    writer.write_bit(0);
                    writer.write_bit(0);
                } else {
                    write(state, writer);
                    writer.write_bit(0);
                    writer.write_bit(0);
                }
                State::Zeroes(1)
            } else {
                if i == 1 {
                    writer.write_bit(1);
                }
                write(state, writer);
                State::Root(b1, b2, i + 1)
            }
        },
    };
    assert(writer.written() =~= w0 + expect.1);
    r
}

/// Entropy-codes the bits of `bytes`: a framing bit, then the pairs of bits
/// as verbatim pairs and codes of runs of zero pairs, padded to whole bytes.
pub fn entropy_encode(bytes: &Vec<u8>) -> (r: Vec<u8>)
    requires
        1 <= bytes@.len() < 0x0080_0000,
    ensures
        bits_of(r@) == padded(entropy_bits(bits_of(bytes@))),
        r@.len() == (entropy_bits(bits_of(bytes@)).len() + 7) / 8,
        r@.len() <= 32 * bytes@.len() + 9,
{
    let ghost s = bits_of(bytes@);
    let n = bytes.len() * 8;
    let mut reader = BitReader::new(bytes.as_slice());
    let mut out_vec: Vec<u8> = Vec::new();
    let mut writer = BitVecWriter::new(&mut out_vec);
    let b1 = reader.read_bit().unwrap();
    let b2 = reader.read_bit().unwrap();
    let mut state = if !b1 && !b2 {
        State::Zeroes(1)
    } else {
        State::Root(b1, b2, 1)
    };
    match state {
        State::Zeroes(_) => writer.write_bit(0),
        State::Root(_, _, _) => writer.write_bit(1),
    }
    assert(writer.written() =~= run_prefix(s, 1).1);
    while reader.pos < n
        invariant
            reader.inv(),
            reader.to_read@ == bytes@,
            s == bits_of(bytes@),
            n == s.len(),
            n == 8 * bytes@.len(),
            bytes@.len() < 0x0080_0000,
            reader.pos % 2 == 0,
            2 <= reader.pos <= n,
            state == run_prefix(s, reader.pos as int / 2).0,
            writer.written() == run_prefix(s, reader.pos as int / 2).1,
            1 <= count(state) <= reader.pos / 2,
            writer.pos <= 64 * (reader.pos / 2),
            writer.tight(),
            after_borrow(out_vec)@ == final(writer.to_write)@,
        decreases n - reader.pos,
    {
        let ghost k = reader.pos as int / 2;
        let ghost w0 = writer.written();
        let b1 = reader.read_bit().unwrap();
        let b2 = match reader.read_bit() {
            Some(b) => b,
            None => false,
        };
        assert(pair_at(s, k) == (b1, b2));
        state = advance(state, b1, b2, &mut writer);
    }
    finish(state, &mut writer);
    proof {
        assert(reader.pos / 2 == num_pairs(s));
        crate::bitfiddle::lemma_tight_padded(writer.to_write@, writer.pos as int);
    }
    out_vec
}

/// Bitwise XOR of two bit sequences of one length.
pub open spec fn xor_bits(a: Seq<bool>, b: Seq<bool>) -> Seq<bool> {
    Seq::new(a.len(), |i: int| a[i] != b[i])
}

/// The buffer that the delta passes start from: the raster itself, or its
/// two bitplanes one after the other, the first XOR the second if `xor`.
pub open spec fn planes(s: Seq<bool>, split: bool, xor: bool) -> Seq<bool> {
    if split {
        let l = padded(evens(s));
        let r = padded(odds(s));
        (if xor { xor_bits(l, r) } else { l }) + r
    } else {
        s
    }
}

/// The buffer that reaches the entropy coder.
pub open spec fn transformed(s: Seq<bool>, split: bool, xor: bool, seq: nat, jump: nat, size: int) -> Seq<bool> {
    jump_times(delta_times(planes(s, split, xor), seq), size, jump)
}

/// The entropy-coded bits of the raster `s` under the given parameters.
pub open spec fn encoded(s: Seq<bool>, split: bool, xor: bool, seq: nat, jump: nat, size: int) -> Seq<bool> {
    entropy_bits(transformed(s, split, xor, seq, jump, size))
}

proof fn lemma_bits_of_concat(a: Seq<u8>, b: Seq<u8>)
    ensures
        bits_of(a + b) == bits_of(a) + bits_of(b),
{
    assert forall|p: int| 0 <= p < bits_of(a + b).len() implies #[trigger] bits_of(a + b)[p] == (
    bits_of(a) + bits_of(b))[p] by {
        if p >= 8 * a.len() {
            assert((p - 8 * a.len()) / 8 == p / 8 - a.len());
            assert((p - 8 * a.len()) % 8 == p % 8);
        }
    }
    assert(bits_of(a + b) =~= bits_of(a) + bits_of(b));
}

proof fn lemma_bits_of_xor(a: Seq<u8>, b: Seq<u8>)
    requires
        a.len() == b.len(),
    ensures
        bits_of(xor_bytes(a, b)) == xor_bits(bits_of(b), bits_of(a)),
{
    assert forall|p: int| 0 <= p < bits_of(xor_bytes(a, b)).len() implies #[trigger] bits_of(
        xor_bytes(a, b),
    )[p] == xor_bits(bits_of(b), bits_of(a))[p] by {
        let x = a[p / 8];
        let y = b[p / 8];
        let k = (p % 8) as u8;
        assert(((x ^ y) & (1u8 << k) != 0) == ((y & (1u8 << k) != 0) != (x & (1u8 << k) != 0)))
            by (bit_vector);
    }
    assert(bits_of(xor_bytes(a, b)) =~= xor_bits(bits_of(b), bits_of(a)));
}

/// Applies `seq_delta_encode` delta passes and `jump_delta_encode` jump delta
/// passes of stride `jump_delta_encode_size` to `bytes`, then entropy-codes it.
pub fn compress_bytes(
    bytes: &mut Vec<u8>,
    seq_delta_encode: usize,
    jump_delta_encode: usize,
    jump_delta_encode_size: usize,
) -> (r: Vec<u8>)
    requires
        1 <= old(bytes)@.len() < 0x0080_0000,
    ensures
        bits_of(r@) == padded(
            entropy_bits(
                jump_times(
                    delta_times(bits_of(old(bytes)@), seq_delta_encode as nat),
                    jump_delta_encode_size as int,
                    jump_delta_encode as nat,
                ),
            ),
        ),
        r@.len() == (entropy_bits(
            jump_times(
                delta_times(bits_of(old(bytes)@), seq_delta_encode as nat),
                jump_delta_encode_size as int,
                jump_delta_encode as nat,
            ),
        ).len() + 7) / 8,
        r@.len() <= 32 * old(bytes)@.len() + 9,
        final(bytes)@.len() == old(bytes)@.len(),
        bits_of(final(bytes)@) == jump_times(
            delta_times(bits_of(old(bytes)@), seq_delta_encode as nat),
            jump_delta_encode_size as int,
            jump_delta_encode as nat,
        ),
{
    let ghost s = bits_of(bytes@);
    let ghost len = bytes@.len();
    let mut double_buffer: Vec<u8> = Vec::with_capacity(bytes.len());
    let mut i: usize = 0;
    while i < seq_delta_encode
        invariant
            bytes@.len() == len,
            1 <= len < 0x0080_0000,
            i <= seq_delta_encode,
            bits_of(bytes@) == delta_times(s, i as nat),
        decreases seq_delta_encode - i,
    {
        delta_encode(bytes, &mut double_buffer);
        std::mem::swap(bytes, &mut double_buffer);
        i = i + 1;
        assert(bits_of(bytes@).len() == 8 * bytes@.len());
    }
    let ghost d = bits_of(bytes@);
    let mut i: usize = 0;
    while i < jump_delta_encode
        invariant
            bytes@.len() == len,
            1 <= len < 0x0080_0000,
            i <= jump_delta_encode,
            bits_of(bytes@) == jump_times(d, jump_delta_encode_size as int, i as nat),
        decreases jump_delta_encode - i,
    {
        delta_encode_by_jump(bytes, &mut double_buffer, jump_delta_encode_size);
        std::mem::swap(bytes, &mut double_buffer);
        i = i + 1;
        assert(bits_of(bytes@).len() == 8 * bytes@.len());
    }
    entropy_encode(bytes)
}

/// The content bytes of the raster `png` under one choice of parameters.
pub fn compress_for(
    png: &Vec<u8>,
    do_split_bitplanes: bool,
    do_xor_bitplanes: bool,
    seq_delta_encode: usize,
    jump_delta_encode: usize,
    jump_delta_encode_size: usize,
) -> (r: Vec<u8>)
    requires
        1 <= png@.len(),
        codable(png@.len() as nat),
    ensures
        bits_of(r@) == padded(
            encoded(
                bits_of(png@),
                do_split_bitplanes,
                do_xor_bitplanes,
                seq_delta_encode as nat,
                jump_delta_encode as nat,
                jump_delta_encode_size as int,
            ),
        ),
        r@.len() == (encoded(
            bits_of(png@),
            do_split_bitplanes,
            do_xor_bitplanes,
            seq_delta_encode as nat,
            jump_delta_encode as nat,
            jump_delta_encode_size as int,
        ).len() + 7) / 8,
        r@.len() <= 32 * png@.len() + 41,
{
    let ghost s = bits_of(png@);
    let mut cloned = png.clone();
    if do_split_bitplanes {
        let mut bitplane_1: Vec<u8> = Vec::with_capacity(cloned.len() / 2);
        let mut bitplane_2: Vec<u8> = Vec::with_capacity(cloned.len() / 2);
        split_bitplanes(&cloned, &mut bitplane_1, &mut bitplane_2);
        let ghost p1 = bitplane_1@;
        if do_xor_bitplanes {
            xor_bitplanes(&bitplane_2, &mut bitplane_1);
            proof {
                lemma_bits_of_xor(bitplane_2@, p1);
            }
        }
        let ghost first = bitplane_1@;
        let ghost second = bitplane_2@;
        let mut to_comp: Vec<u8> = Vec::new();
        to_comp.append(&mut bitplane_1);
        to_comp.append(&mut bitplane_2);
        proof {
            lemma_bits_of_concat(first, second);
            assert(to_comp@ =~= first + second);
        }
        compress_bytes(
            &mut to_comp,
            seq_delta_encode,
            jump_delta_encode,
            jump_delta_encode_size,
        )
    } else {
        compress_bytes(
            &mut cloned,
            seq_delta_encode,
            jump_delta_encode,
            jump_delta_encode_size,
        )
    }
}

/// One choice of the encoder's parameters.
#[derive(Debug, Clone, Copy, PartialEq, Eq, Structural)]
pub struct PkParams {
    pub split: bool,
    pub xor: bool,
    pub seq_delta: usize,
    pub jump_delta: usize,
    pub jump_size: usize,
}

/// The number of parameter choices that the search tries.
pub const GRID_SIZE: usize = 675;

/// The `t`-th parameter choice of the search, in the order of the nested
/// ranges split, xor (up to split), seq delta 0..=4, jump delta 0..=2, jump
/// size 4, 6, .., 32.
pub open spec fn grid_params(t: int) -> PkParams {
    PkParams {
        split: t / 225 >= 1,
        xor: t / 225 == 2,
        seq_delta: ((t / 45) % 5) as usize,
        jump_delta: ((t / 15) % 3) as usize,
        jump_size: (4 + 2 * (t % 15)) as usize,
    }
}

/// The entropy-coded bits of the raster `s` under `p`.
pub open spec fn encoded_with(s: Seq<bool>, p: PkParams) -> Seq<bool> {
    encoded(s, p.split, p.xor, p.seq_delta as nat, p.jump_delta as nat, p.jump_size as int)
}

/// The number of content bytes of the raster `s` under the `t`-th choice.
pub open spec fn grid_len(s: Seq<bool>, t: int) -> int {
    (encoded_with(s, grid_params(t)).len() as int + 7) / 8
}

/// The first of the choices `0..t` with the fewest content bytes.
pub open spec fn best_upto(s: Seq<bool>, t: int) -> int
    decreases t,
{
    if t <= 1 {
        0
    } else {
        let b = best_upto(s, t - 1);
        if grid_len(s, t - 1) < grid_len(s, b) {
            t - 1
        } else {
            b
        }
    }
}

/// The first byte of the codec header: split in bit 0, xor in bit 1, the
/// delta passes in bits 2-5, the jump delta passes in bits 6-7.
pub open spec fn param_byte(p: PkParams) -> int {
    (if p.split { 1int } else { 0 }) + (if p.xor { 2int } else { 0 }) + 4 * p.seq_delta + 64 * p.jump_delta
}

/// `c` is the outcome of compressing the raster `png`: the first choice of
/// the search with the fewest content bytes, its content, its codec header
/// and its total size.
pub open spec fn compresses(png: Seq<u8>, c: CompressionResult) -> bool {
    let s = bits_of(png);
    let best = best_upto(s, GRID_SIZE as int);
    &&& c.params == grid_params(best)
    &&& bits_of(c.content_bytes@) == padded(encoded_with(s, c.params))
    &&& c.content_bytes@.len() == grid_len(s, best)
    &&& c.header_bytes@ == seq![param_byte(c.params) as u8, c.params.jump_size as u8]
    &&& c.total_size == c.content_bytes@.len() + 2
    &&& c.readable_compression_name@ == "PnTree"@
}

/// The outcome of compressing one raster.
pub struct CompressionResult {
    pub content_bytes: Vec<u8>,
    pub header_bytes: Vec<u8>,
    pub total_size: usize,
    pub readable_compression_name: String,
    pub params: PkParams,
}

/// A compressor of packed rasters.
pub trait Compressor {
    fn compress(&self, png: &Vec<u8>) -> Result<CompressionResult, &'static str>;
}

/// The PnTree compressor.
pub struct PkComp;

impl PkComp {
    /// Tries every parameter choice on the raster `png` and keeps the first
    /// with the fewest content bytes; fails on an empty or oversized raster.
    pub fn compress(&self, png: &Vec<u8>) -> (r: Result<CompressionResult, &'static str>)
        ensures
            r is Ok <==> 1 <= png@.len() && codable(png@.len() as nat),
            r is Ok ==> compresses(png@, r.unwrap()),
    {
        if png.len() == 0 || png.len() >= 0x0040_0000 {
            return Err("raster is empty or too long to encode");
        }
        let ghost s = bits_of(png@);
        let mut best: Option<Vec<u8>> = None;
        let mut best_score: usize = 0;
        let mut best_t: usize = 0;
        let mut best_params = PkParams { split: false, xor: false, seq_delta: 0, jump_delta: 0, jump_size: 0 };
        let mut t: usize = 0;
        while t < GRID_SIZE
            invariant
                s == bits_of(png@),
                1 <= png@.len(),
                codable(png@.len() as nat),
                t <= GRID_SIZE,
                t > 0 ==> best is Some,
                t > 0 ==> best_t == best_upto(s, t as int),
                t > 0 ==> best_params == grid_params(best_t as int),
                t > 0 ==> bits_of(best.unwrap()@) == padded(encoded_with(s, best_params)),
                t > 0 ==> best_score == best.unwrap()@.len(),
                t > 0 ==> best_score == grid_len(s, best_t as int),
                t > 0 ==> best_score <= 32 * png@.len() + 41,
            decreases GRID_SIZE - t,
        {
            let p = PkParams {
                split: t / 225 >= 1,
                xor: t / 225 == 2,
                seq_delta: (t / 45) % 5,
                jump_delta: (t / 15) % 3,
                jump_size: 4 + 2 * (t % 15),
            };
            assert(p == grid_params(t as int));
            let out_vec = compress_for(png, p.split, p.xor, p.seq_delta, p.jump_delta, p.jump_size);
            if t == 0 || out_vec.len() < best_score {
                best_score = out_vec.len();
                best = Some(out_vec);
                best_t = t;
                best_params = p;
            }
            t = t + 1;
        }
        let out_content = best.unwrap();
        let header_byte: u8 = (if best_params.split { 1u8 } else { 0u8 }) + (if best_params.xor { 2u8 } else { 0u8 })
            + 4 * (best_params.seq_delta as u8) + 64 * (best_params.jump_delta as u8);
        let out_header = vec![header_byte, best_params.jump_size as u8];
        let len = out_content.len() + out_header.len();
        Ok(CompressionResult {
            content_bytes: out_content,
            header_bytes: out_header,
            total_size: len,
            readable_compression_name: "PnTree".to_owned(),
            params: best_params,
        })
    }
}

impl Compressor for PkComp {
    fn compress(&self, png: &Vec<u8>) -> Result<CompressionResult, &'static str> {
        PkComp::compress(self, png)
    }
}

} // verus!
