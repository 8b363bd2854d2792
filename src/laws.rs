//! Laws of the codec: the transforms against their inverses, the optimality
//! of the parameter search, and the decoder against the encoder.
use vstd::prelude::*;
use vstd::arithmetic::power2::pow2;
use crate::bitfiddle::{bit_at, bits_of, msb_bits, padded};
use crate::transforms::{evens, odds};
use crate::pkcomp::{
    planes, best_upto, bit_len, delta_times, encoded_with, entropy_bits, flush, grid_len, grid_params,
    jump_times, num_pairs, pair_at, param_byte, run_code, run_prefix, step, transformed, State,
    GRID_SIZE,
};
use crate::pkdecomp::{
    xor_halves, dec_run, dec_step, decoded, delta_dec_times, filled, jump_dec_times, msb_value, ones_end, unmixed,
    zeros, PkDecompressorState,
};
use crate::transforms::{delta_dec, delta_enc, jump_dec, jump_dec_at, jump_enc, prefix_parity};
use crate::wasm4png::{is_ordering, strictly_descending};
use crate::decomp::interleaved;
use crate::pkcomp::{codable, compresses, CompressionResult};
use crate::pkdecomp::{pk_raster, raster_len};

verus! {

proof fn lemma_byte_from_bits(x: u8, y: u8)
    requires
        forall|k: u8| k < 8 ==> (x & (1u8 << k) != 0) == (y & (1u8 << k) != 0),
    ensures
        x == y,
{
    assert((x & (1u8 << 0u8) != 0) == (y & (1u8 << 0u8) != 0));
    assert((x & (1u8 << 1u8) != 0) == (y & (1u8 << 1u8) != 0));
    assert((x & (1u8 << 2u8) != 0) == (y & (1u8 << 2u8) != 0));
    assert((x & (1u8 << 3u8) != 0) == (y & (1u8 << 3u8) != 0));
    assert((x & (1u8 << 4u8) != 0) == (y & (1u8 << 4u8) != 0));
    assert((x & (1u8 << 5u8) != 0) == (y & (1u8 << 5u8) != 0));
    assert((x & (1u8 << 6u8) != 0) == (y & (1u8 << 6u8) != 0));
    assert((x & (1u8 << 7u8) != 0) == (y & (1u8 << 7u8) != 0));
    assert(x == y) by (bit_vector)
        requires
            (x & (1u8 << 0u8) != 0) == (y & (1u8 << 0u8) != 0),
            (x & (1u8 << 1u8) != 0) == (y & (1u8 << 1u8) != 0),
            (x & (1u8 << 2u8) != 0) == (y & (1u8 << 2u8) != 0),
            (x & (1u8 << 3u8) != 0) == (y & (1u8 << 3u8) != 0),
            (x & (1u8 << 4u8) != 0) == (y & (1u8 << 4u8) != 0),
            (x & (1u8 << 5u8) != 0) == (y & (1u8 << 5u8) != 0),
            (x & (1u8 << 6u8) != 0) == (y & (1u8 << 6u8) != 0),
            (x & (1u8 << 7u8) != 0) == (y & (1u8 << 7u8) != 0),
    ;
}

/// Two byte buffers with the same bits are the same buffer.
pub proof fn lemma_bits_of_injective(a: Seq<u8>, b: Seq<u8>)
    requires
        bits_of(a) == bits_of(b),
    ensures
        a == b,
{
    assert(a.len() == b.len()) by {
        assert(bits_of(a).len() == 8 * a.len());
        assert(bits_of(b).len() == 8 * b.len());
    }
    assert forall|i: int| 0 <= i < a.len() implies a[i] == b[i] by {
        assert forall|k: u8| k < 8 implies (a[i] & (1u8 << k) != 0) == (b[i] & (1u8 << k) != 0) by {
            let p = 8 * i + k;
            assert(p / 8 == i && p % 8 == k as int);
            assert(0 <= p < bits_of(a).len());
            assert(bits_of(a)[p] == bit_at(a, p));
            assert(bits_of(b)[p] == bit_at(b, p));
            assert(bit_at(a, p) == (a[i] & (1u8 << k) != 0));
            assert(bits_of(a)[p] == bits_of(b)[p]);
        }
        lemma_byte_from_bits(a[i], b[i]);
    }
    assert(a =~= b);
}

proof fn lemma_parity_of_delta(s: Seq<bool>, n: int)
    requires
        0 <= n <= s.len(),
    ensures
        prefix_parity(delta_enc(s), n) == (n > 0 && s[n - 1]),
    decreases n,
{
    if n > 0 {
        lemma_parity_of_delta(s, n - 1);
    }
}

/// Delta decoding undoes delta encoding, for every bit sequence.
pub proof fn lemma_delta_round_trip(s: Seq<bool>)
    ensures
        delta_dec(delta_enc(s)) == s,
{
    assert forall|i: int| 0 <= i < s.len() implies #[trigger] delta_dec(delta_enc(s))[i] == s[i] by {
        lemma_parity_of_delta(s, i + 1);
    }
    assert(delta_dec(delta_enc(s)) =~= s);
}

proof fn lemma_jump_at(s: Seq<bool>, j: int, i: int)
    requires
        j > 0,
        0 <= i < s.len(),
    ensures
        jump_dec_at(jump_enc(s, j), j, i) == s[i],
    decreases i,
{
    if i >= j {
        lemma_jump_at(s, j, i - j);
    }
}

/// Jump delta decoding with a positive stride undoes jump delta encoding
/// with the same stride, for every bit sequence.
pub proof fn lemma_jump_round_trip(s: Seq<bool>, j: int)
    requires
        j > 0,
    ensures
        jump_dec(jump_enc(s, j), j) == s,
{
    assert forall|i: int| 0 <= i < s.len() implies #[trigger] jump_dec(jump_enc(s, j), j)[i] == s[i] by {
        lemma_jump_at(s, j, i);
    }
    assert(jump_dec(jump_enc(s, j), j) =~= s);
}

proof fn lemma_best_upto(s: Seq<bool>, n: int)
    requires
        n >= 1,
    ensures
        0 <= best_upto(s, n) < n,
        forall|t: int| 0 <= t < n ==> grid_len(s, best_upto(s, n)) <= #[trigger] grid_len(s, t),
        forall|t: int| 0 <= t < best_upto(s, n) ==> #[trigger] grid_len(s, t) > grid_len(s, best_upto(s, n)),
    decreases n,
{
    if n > 1 {
        lemma_best_upto(s, n - 1);
    }
}

/// The search's choice has the fewest content bytes over the whole parameter
/// grid, and no earlier choice in the search order has as few.
pub proof fn lemma_search_optimal(s: Seq<bool>)
    ensures
        0 <= best_upto(s, GRID_SIZE as int) < GRID_SIZE,
        forall|t: int|
            0 <= t < GRID_SIZE ==> grid_len(s, best_upto(s, GRID_SIZE as int)) <= #[trigger] grid_len(s, t),
        forall|t: int|
            0 <= t < best_upto(s, GRID_SIZE as int) ==> #[trigger] grid_len(s, t) > grid_len(
                s,
                best_upto(s, GRID_SIZE as int),
            ),
{
    lemma_best_upto(s, GRID_SIZE as int);
}

proof fn lemma_msb_value_of_bits(v: u32, m: nat)
    requires
        m <= 32,
        m < 32 ==> v < (1u32 << m as u32),
    ensures
        msb_value(msb_bits(v, m)) == v,
    decreases m,
{
    if m == 0 {
        assert(v == 0) by (bit_vector)
            requires
                v < (1u32 << 0u32),
        ;
    } else {
        let w = v >> 1;
        let mm = (m - 1) as nat;
        let m32 = m as u32;
        let mm32 = mm as u32;
        assert(w < (1u32 << mm32)) by (bit_vector)
            requires
                w == v >> 1,
                1 <= m32 <= 32,
                mm32 == m32 - 1,
                m32 < 32 ==> v < (1u32 << m32),
        ;
        lemma_msb_value_of_bits(w, mm);
        let b = msb_bits(v, m);
        assert forall|k: int| 0 <= k < mm implies #[trigger] b.drop_last()[k] == msb_bits(w, mm)[k] by {
            let sh = (m - 1 - k) as u32;
            let sh2 = (mm - 1 - k) as u32;
            assert((v >> sh) == ((v >> 1) >> sh2)) by (bit_vector)
                requires
                    sh == sh2 + 1,
                    sh2 < 32,
            ;
        }
        assert(b.drop_last() =~= msb_bits(w, mm));
        assert(b.last() == ((v >> 0u32) & 1u32 == 1u32));
        assert(2 * (v >> 1) + (if (v >> 0u32) & 1u32 == 1u32 { 1u32 } else { 0u32 }) == v) by (bit_vector);
    }
}

proof fn lemma_run_prefix_bits(m: u32, j: u32)
    requires
        1 <= m <= 31,
        j < m,
    ensures
        ((((1u32 << m) - 2u32) as u32 >> j) & 1u32 == 1u32) == (j != 0),
{
    assert(((((1u32 << m) - 2u32) as u32 >> j) & 1u32 == 1u32) == (j != 0)) by (bit_vector)
        requires
            1 <= m <= 31,
            j < m,
    ;
}

proof fn lemma_ones_end_run(t: Seq<bool>, p: int, q: int)
    requires
        0 <= p <= q < t.len(),
        forall|i: int| p <= i < q ==> t[i],
        !t[q],
    ensures
        ones_end(t, p) == q,
    decreases q - p,
{
    if p < q {
        lemma_ones_end_run(t, p + 1, q);
    }
}

/// The decoder reads the code of a run of `n` zero pairs back as `n` zero pairs.
proof fn lemma_run_code_decodes(t: Seq<bool>, p: int, n: nat)
    requires
        1 <= n,
        n + 1 < 0x1_0000_0000,
        0 <= p,
        p + run_code(n).len() <= t.len(),
        t.subrange(p, p + run_code(n).len()) == run_code(n),
    ensures
        dec_step(t, p, PkDecompressorState::Rle) == Some((zeros(2 * n), p + run_code(n).len(), PkDecompressorState::StartVerbatim)),
        run_code(n).len() >= 2,
{
    let h = bit_len(n + 1);
    let f = pow2((h - 1) as nat);
    let m = (h - 1) as nat;
    vstd::arithmetic::power2::lemma2_to64();
    crate::pkcomp::lemma_bit_len(n + 1, 32);
    assert(h >= 2) by {
        if h < 2 {
            assert(pow2(1) == 2);
        }
    }
    vstd::bits::lemma_u32_pow2_no_overflow(m);
    vstd::bits::lemma_u32_shl_is_mul(1, m as u32);
    let code = run_code(n);
    let hi = msb_bits((f - 2) as u32, m);
    let lo = msb_bits((n + 1 - f) as u32, m);
    assert(code == hi + lo);
    assert(code.len() == 2 * m);
    let q = p + m - 1;
    assert forall|i: int| p <= i < q implies t[i] by {
        assert(t[i] == code[i - p]);
        lemma_run_prefix_bits(m as u32, (m - 1 - (i - p)) as u32);
    }
    assert(!t[q]) by {
        assert(t[q] == code[m - 1]);
        lemma_run_prefix_bits(m as u32, 0);
    }
    lemma_ones_end_run(t, p, q);
    assert forall|i: int| 0 <= i < m implies #[trigger] t.subrange(p + m, p + 2 * m)[i] == lo[i] by {
        assert(t[p + m + i] == t.subrange(p, p + code.len())[m + i]);
        assert(code[m + i] == lo[i]);
    }
    assert(t.subrange(p + m, p + 2 * m) =~= lo);
    assert(((n + 1 - f) as u32) < (1u32 << m as u32));
    lemma_msb_value_of_bits((n + 1 - f) as u32, m);
    assert(zeros((2 * (pow2(m) - 1 + msb_value(lo))) as nat) == zeros(2 * n));
}

/// The decoder state that corresponds to an encoder state.
pub open spec fn dec_state_of(st: State) -> PkDecompressorState {
    match st {
        State::Zeroes(_) => PkDecompressorState::Rle,
        State::Root(_, _, i) => if i == 1 {
            PkDecompressorState::StartVerbatim
        } else {
            PkDecompressorState::Verbatim
        },
    }
}

/// The pairs whose bits the decoder has produced once the encoder, after
/// `k` pairs, is in `st`: all but the pending run, or all but the last pair.
pub open spec fn done_pairs(st: State, k: int) -> int {
    match st {
        State::Zeroes(n) => k - n,
        State::Root(_, _, _) => k - 1,
    }
}

/// What the encoder's state after `k` pairs records of the pairs of `s`.
pub open spec fn pending_ok(s: Seq<bool>, k: int, st: State) -> bool {
    match st {
        State::Zeroes(n) => 1 <= n <= k && forall|j: int| 2 * (k - n) <= j < 2 * k ==> !#[trigger] s[j],
        State::Root(b1, b2, i) => 1 <= i <= k && s[2 * k - 2] == b1 && s[2 * k - 1] == b2 && (b1 || b2),
    }
}

proof fn lemma_prefix_state(s: Seq<bool>, k: int)
    requires
        s.len() % 2 == 0,
        s.len() < 0x1_0000_0000,
        1 <= k <= s.len() / 2,
    ensures
        pending_ok(s, k, run_prefix(s, k).0),
        run_prefix(s, k).1.len() >= 1,
        run_prefix(s, k).1[0] == (s[0] || s[1]),
    decreases k,
{
    if k > 1 {
        lemma_prefix_state(s, k - 1);
        let (st, o) = run_prefix(s, k - 1);
        let (b1, b2) = pair_at(s, k - 1);
        let (st2, o2) = step(st, b1, b2);
        assert(b1 == s[2 * k - 2] && b2 == s[2 * k - 1]);
        assert((o + o2)[0] == o[0]);
        match st {
            State::Zeroes(n) => {
                if !b1 && !b2 {
                    assert forall|j: int| 2 * (k - (n + 1)) <= j < 2 * k implies !#[trigger] s[j] by {
                        if j < 2 * (k - 1) {
                            assert(2 * (k - 1 - n) <= j);
                        }
                    }
                }
            },
            State::Root(_, _, i) => {},
        }
    }
}

proof fn lemma_dec_isolated(t: Seq<bool>, p: int, b: bool)
    requires
        0 <= p,
        p + 2 <= t.len(),
        !t[p],
        t[p + 1] == b,
    ensures
        dec_run(t, p, PkDecompressorState::StartVerbatim) == seq![b, !b] + dec_run(t, p + 2, PkDecompressorState::Rle),
{
}

proof fn lemma_dec_verbatim(t: Seq<bool>, p: int, b1: bool, b2: bool)
    requires
        0 <= p,
        p + 2 <= t.len(),
        t[p] == b1,
        t[p + 1] == b2,
        b1 || b2,
    ensures
        dec_run(t, p, PkDecompressorState::Verbatim) == seq![b1, b2] + dec_run(t, p + 2, PkDecompressorState::Verbatim),
{
}

proof fn lemma_dec_verbatim_end(t: Seq<bool>, p: int)
    requires
        0 <= p,
        p + 2 <= t.len(),
        !t[p],
        !t[p + 1],
    ensures
        dec_run(t, p, PkDecompressorState::Verbatim) == dec_run(t, p + 2, PkDecompressorState::Rle),
{
    assert(Seq::<bool>::empty() + dec_run(t, p + 2, PkDecompressorState::Rle) =~= dec_run(t, p + 2, PkDecompressorState::Rle));
}

proof fn lemma_dec_more(t: Seq<bool>, p: int)
    requires
        0 <= p,
        p + 1 <= t.len(),
        t[p],
    ensures
        dec_run(t, p, PkDecompressorState::StartVerbatim) == dec_run(t, p + 1, PkDecompressorState::Verbatim),
{
    assert(Seq::<bool>::empty() + dec_run(t, p + 1, PkDecompressorState::Verbatim) =~= dec_run(t, p + 1, PkDecompressorState::Verbatim));
}

proof fn lemma_dec_run_code(t: Seq<bool>, p: int, n: nat)
    requires
        1 <= n,
        n + 1 < 0x1_0000_0000,
        0 <= p,
        p + run_code(n).len() <= t.len(),
        t.subrange(p, p + run_code(n).len()) == run_code(n),
    ensures
        dec_run(t, p, PkDecompressorState::Rle) == zeros(2 * n) + dec_run(t, p + run_code(n).len(), PkDecompressorState::StartVerbatim),
{
    lemma_run_code_decodes(t, p, n);
}

proof fn lemma_step_zeroes(s: Seq<bool>, k: int, t: Seq<bool>, p: int, n: usize, b1: bool, b2: bool)
    requires
        s.len() % 2 == 0,
        2 <= k <= s.len() / 2,
        s.len() < 0x1_0000_0000,
        pending_ok(s, k - 1, State::Zeroes(n)),
        b1 == s[2 * k - 2],
        b2 == s[2 * k - 1],
        0 <= p,
        p + step(State::Zeroes(n), b1, b2).1.len() <= t.len(),
        forall|j: int| 0 <= j < step(State::Zeroes(n), b1, b2).1.len() ==> t[p + j] == step(State::Zeroes(n), b1, b2).1[j],
    ensures
        ({
            let (st1, out) = step(State::Zeroes(n), b1, b2);
            dec_run(t, p, dec_state_of(State::Zeroes(n))) == s.subrange(
                2 * done_pairs(State::Zeroes(n), k - 1),
                2 * done_pairs(st1, k),
            ) + dec_run(t, p + out.len(), dec_state_of(st1))
        }),
{
    let (st1, out) = step(State::Zeroes(n), b1, b2);
    let lo = 2 * done_pairs(State::Zeroes(n), k - 1);
    let hi = 2 * done_pairs(st1, k);
    if !b1 && !b2 {
        assert(s.subrange(lo, hi) =~= Seq::<bool>::empty());
        assert(out =~= Seq::<bool>::empty());
        assert(Seq::<bool>::empty() + dec_run(t, p, PkDecompressorState::Rle) =~= dec_run(t, p, PkDecompressorState::Rle));
    } else {
        assert(out == run_code(n as nat));
        assert(t.subrange(p, p + run_code(n as nat).len()) =~= run_code(n as nat));
        lemma_dec_run_code(t, p, n as nat);
        assert(s.subrange(lo, hi) =~= zeros(2 * n as nat));
    }
}

proof fn lemma_step_root(s: Seq<bool>, k: int, t: Seq<bool>, p: int, lb1: bool, lb2: bool, i: usize, b1: bool, b2: bool)
    requires
        s.len() % 2 == 0,
        2 <= k <= s.len() / 2,
        s.len() < 0x1_0000_0000,
        pending_ok(s, k - 1, State::Root(lb1, lb2, i)),
        b1 == s[2 * k - 2],
        b2 == s[2 * k - 1],
        0 <= p,
        p + step(State::Root(lb1, lb2, i), b1, b2).1.len() <= t.len(),
        forall|j: int|
            0 <= j < step(State::Root(lb1, lb2, i), b1, b2).1.len() ==> t[p + j] == step(State::Root(lb1, lb2, i), b1, b2).1[j],
    ensures
        ({
            let (st1, out) = step(State::Root(lb1, lb2, i), b1, b2);
            dec_run(t, p, dec_state_of(State::Root(lb1, lb2, i))) == s.subrange(
                2 * done_pairs(State::Root(lb1, lb2, i), k - 1),
                2 * done_pairs(st1, k),
            ) + dec_run(t, p + out.len(), dec_state_of(st1))
        }),
{
    let (st1, out) = step(State::Root(lb1, lb2, i), b1, b2);
    let lo = 2 * done_pairs(State::Root(lb1, lb2, i), k - 1);
    let hi = 2 * done_pairs(st1, k);
    assert(lo == 2 * k - 4 && hi == 2 * k - 2);
    assert(s.subrange(lo, hi) =~= seq![lb1, lb2]);
    if !b1 && !b2 {
        if i == 1 && !(lb1 && lb2) {
            assert(t[p + 0] == out[0] && t[p + 1] == out[1]);
            lemma_dec_isolated(t, p, lb1);
        } else if i == 1 {
            assert(t[p + 0] == out[0] && t[p + 1] == out[1] && t[p + 2] == out[2]);
            assert(t[p + 3] == out[3] && t[p + 4] == out[4]);
            lemma_dec_more(t, p);
            lemma_dec_verbatim(t, p + 1, lb1, lb2);
            lemma_dec_verbatim_end(t, p + 3);
        } else {
            assert(t[p + 0] == out[0] && t[p + 1] == out[1] && t[p + 2] == out[2] && t[p + 3] == out[3]);
            lemma_dec_verbatim(t, p, lb1, lb2);
            lemma_dec_verbatim_end(t, p + 2);
        }
    } else {
        if i == 1 {
            assert(t[p + 0] == out[0] && t[p + 1] == out[1] && t[p + 2] == out[2]);
            lemma_dec_more(t, p);
            lemma_dec_verbatim(t, p + 1, lb1, lb2);
        } else {
            assert(t[p + 0] == out[0] && t[p + 1] == out[1]);
            lemma_dec_verbatim(t, p, lb1, lb2);
        }
    }
}

proof fn lemma_prefix_decodes(s: Seq<bool>, k: int, t: Seq<bool>)
    requires
        s.len() % 2 == 0,
        s.len() < 0x1_0000_0000,
        1 <= k <= s.len() / 2,
        run_prefix(s, k).1.len() <= t.len(),
        t.subrange(0, run_prefix(s, k).1.len() as int) == run_prefix(s, k).1,
    ensures
        0 <= done_pairs(run_prefix(s, k).0, k) <= k,
        decoded(t) == s.take(2 * done_pairs(run_prefix(s, k).0, k)) + dec_run(
            t,
            run_prefix(s, k).1.len() as int,
            dec_state_of(run_prefix(s, k).0),
        ),
    decreases k,
{
    lemma_prefix_state(s, k);
    let (st1, o1) = run_prefix(s, k);
    assert(t[0] == o1[0]) by {
        assert(t.subrange(0, o1.len() as int)[0] == t[0]);
    }
    if k == 1 {
        assert(s.take(0) =~= Seq::<bool>::empty());
        assert(Seq::<bool>::empty() + dec_run(t, 1, dec_state_of(st1)) =~= dec_run(t, 1, dec_state_of(st1)));
    } else {
        let (st0, o0) = run_prefix(s, k - 1);
        let (b1, b2) = pair_at(s, k - 1);
        assert(b1 == s[2 * k - 2] && b2 == s[2 * k - 1]);
        let out = step(st0, b1, b2).1;
        assert(o1 == o0 + out);
        let p = o0.len() as int;
        assert(t.subrange(0, p) =~= o0) by {
            assert forall|j: int| 0 <= j < p implies t.subrange(0, p)[j] == o0[j] by {
                assert(t.subrange(0, o1.len() as int)[j] == o1[j]);
            }
        }
        lemma_prefix_decodes(s, k - 1, t);
        lemma_prefix_state(s, k - 1);
        assert forall|j: int| 0 <= j < out.len() implies t[p + j] == out[j] by {
            assert(t[p + j] == t.subrange(0, o1.len() as int)[p + j]);
            assert(o1[p + j] == out[j]);
        }
        match st0 {
            State::Zeroes(n) => {
                lemma_step_zeroes(s, k, t, p, n, b1, b2);
            },
            State::Root(lb1, lb2, i) => {
                lemma_step_root(s, k, t, p, lb1, lb2, i, b1, b2);
            },
        }
        let d0 = done_pairs(st0, k - 1);
        let d1 = done_pairs(st1, k);
        assert(0 <= d0 <= d1 <= k);
        assert(s.take(2 * d0) + s.subrange(2 * d0, 2 * d1) =~= s.take(2 * d1));
        assert(s.take(2 * d0) + (s.subrange(2 * d0, 2 * d1) + dec_run(t, o1.len() as int, dec_state_of(st1)))
            =~= s.take(2 * d1) + dec_run(t, o1.len() as int, dec_state_of(st1)));
    }
}

/// Entropy decoding reads back the bits that entropy encoding wrote, for
/// every bit sequence of even length.
#[verifier::rlimit(60)]
pub proof fn lemma_entropy_round_trip(s: Seq<bool>)
    requires
        s.len() % 2 == 0,
        2 <= s.len() < 0x1_0000_0000,
    ensures
        decoded(padded(entropy_bits(s))).len() >= s.len(),
        decoded(padded(entropy_bits(s))).take(s.len() as int) == s,
{
    let k = num_pairs(s);
    assert(k == s.len() / 2);
    let (st, o) = run_prefix(s, k);
    let e = entropy_bits(s);
    let t = padded(e);
    let fl = flush(st);
    assert(e == o + fl);
    assert(t.subrange(0, o.len() as int) =~= o);
    lemma_prefix_decodes(s, k, t);
    lemma_prefix_state(s, k);
    let p = o.len() as int;
    assert forall|j: int| 0 <= j < fl.len() implies t[p + j] == fl[j] by {
        assert(e[p + j] == fl[j]);
    }
    match st {
        State::Zeroes(n) => {
            assert(t.subrange(p, p + run_code(n as nat).len()) =~= run_code(n as nat));
            lemma_dec_run_code(t, p, n as nat);
            let rest = dec_run(t, p + run_code(n as nat).len(), PkDecompressorState::StartVerbatim);
            assert(s.take(2 * (k - n)) + zeros(2 * n as nat) =~= s);
            assert(decoded(t) =~= s + rest);
        },
        State::Root(b1, b2, i) => {
            assert(s.take(2 * (k - 1)) + seq![b1, b2] =~= s);
            if i != 1 {
                assert(t[p + 0] == fl[0] && t[p + 1] == fl[1]);
                lemma_dec_verbatim(t, p, b1, b2);
                let rest = dec_run(t, p + 2, PkDecompressorState::Verbatim);
                assert(decoded(t) =~= s + rest);
            } else if b1 && b2 {
                assert(t[p + 0] == fl[0] && t[p + 1] == fl[1] && t[p + 2] == fl[2]);
                lemma_dec_more(t, p);
                lemma_dec_verbatim(t, p + 1, b1, b2);
                let rest = dec_run(t, p + 3, PkDecompressorState::Verbatim);
                assert(decoded(t) =~= s + rest);
            } else {
                assert(t[p + 0] == fl[0] && t[p + 1] == fl[1]);
                lemma_dec_isolated(t, p, b1);
                assert(seq![b1, !b1] == seq![b1, b2]);
                let rest = dec_run(t, p + 2, PkDecompressorState::Rle);
                assert(decoded(t) =~= s + rest);
            }
        },
    }
    assert(decoded(t).take(s.len() as int) =~= s);
}

proof fn lemma_delta_times_len(s: Seq<bool>, k: nat)
    ensures
        delta_times(s, k).len() == s.len(),
    decreases k,
{
    if k > 0 {
        lemma_delta_times_len(s, (k - 1) as nat);
    }
}

proof fn lemma_jump_times_len(s: Seq<bool>, j: int, k: nat)
    ensures
        jump_times(s, j, k).len() == s.len(),
    decreases k,
{
    if k > 0 {
        lemma_jump_times_len(s, j, (k - 1) as nat);
    }
}

proof fn lemma_delta_dec_times_inner(y: Seq<bool>, k: nat)
    requires
        k >= 1,
    ensures
        delta_dec_times(y, k) == delta_dec_times(delta_dec(y), (k - 1) as nat),
    decreases k,
{
    if k > 1 {
        lemma_delta_dec_times_inner(y, (k - 1) as nat);
        assert(delta_dec_times(delta_dec(y), (k - 1) as nat) == delta_dec(
            delta_dec_times(delta_dec(y), (k - 2) as nat),
        ));
    } else {
        assert(delta_dec_times(y, 0) == y);
        assert(delta_dec_times(delta_dec(y), 0) == delta_dec(y));
    }
}

proof fn lemma_jump_dec_times_inner(y: Seq<bool>, j: int, k: nat)
    requires
        k >= 1,
    ensures
        jump_dec_times(y, j, k) == jump_dec_times(jump_dec(y, j), j, (k - 1) as nat),
    decreases k,
{
    if k > 1 {
        lemma_jump_dec_times_inner(y, j, (k - 1) as nat);
        assert(jump_dec_times(jump_dec(y, j), j, (k - 1) as nat) == jump_dec(
            jump_dec_times(jump_dec(y, j), j, (k - 2) as nat),
            j,
        ));
    } else {
        assert(jump_dec_times(y, j, 0) == y);
        assert(jump_dec_times(jump_dec(y, j), j, 0) == jump_dec(y, j));
    }
}

/// `k` passes of delta decoding undo `k` passes of delta encoding.
pub proof fn lemma_delta_passes_round_trip(s: Seq<bool>, k: nat)
    ensures
        delta_dec_times(delta_times(s, k), k) == s,
    decreases k,
{
    if k > 0 {
        let km = (k - 1) as nat;
        lemma_delta_dec_times_inner(delta_times(s, k), k);
        lemma_delta_round_trip(delta_times(s, km));
        lemma_delta_passes_round_trip(s, km);
    }
}

/// `k` passes of jump delta decoding undo `k` passes of jump delta encoding
/// with the same positive stride.
pub proof fn lemma_jump_passes_round_trip(s: Seq<bool>, j: int, k: nat)
    requires
        j > 0,
    ensures
        jump_dec_times(jump_times(s, j, k), j, k) == s,
    decreases k,
{
    if k > 0 {
        let km = (k - 1) as nat;
        lemma_jump_dec_times_inner(jump_times(s, j, k), j, k);
        lemma_jump_round_trip(jump_times(s, j, km), j);
        lemma_jump_passes_round_trip(s, j, km);
    }
}

/// The buffer that the encoder entropy-codes for the raster bits `s` under
/// the codec header byte `b` and jump size `jump_size`.
pub open spec fn header_transformed(s: Seq<bool>, b: u8, jump_size: u8) -> Seq<bool> {
    jump_times(
        delta_times(planes(s, b & 1u8 == 1, b & 2u8 != 0), ((b & 0b0011_1100u8) >> 2u8) as nat),
        jump_size as int,
        ((b & 0b1100_0000u8) >> 6u8) as nat,
    )
}

/// The raster that the decoder makes of a destination that ends the entropy
/// stage holding `raw`, under the header byte `b` and jump size `jump_size`.
pub open spec fn header_restored(raw: Seq<bool>, n_bytes: int, b: u8, jump_size: u8) -> Seq<bool> {
    let mixed = unmixed(raw, n_bytes, b, jump_size);
    if b & 1u8 == 1 { interleaved(mixed) } else { mixed }
}

proof fn lemma_planes_restored(s: Seq<bool>, b: u8)
    requires
        s.len() % 16 == 0,
        b & 1u8 == 1,
    ensures
        planes(s, true, b & 2u8 != 0).len() == s.len(),
        interleaved(
            if b & 2u8 != 0 {
                xor_halves(planes(s, true, true), s.len() as int / 2)
            } else {
                planes(s, true, false)
            },
        ) == s,
{
    let l = padded(evens(s));
    let r = padded(odds(s));
    assert(l =~= evens(s));
    assert(r =~= odds(s));
    let x = planes(s, true, b & 2u8 != 0);
    let y = if b & 2u8 != 0 { xor_halves(planes(s, true, true), s.len() as int / 2) } else { planes(s, true, false) };
    assert(y =~= l + r);
    assert forall|q: int| 0 <= q < s.len() implies #[trigger] interleaved(y)[q] == s[q] by {
        if q % 2 == 0 {
            assert(y[q / 2] == l[q / 2]);
        } else {
            assert(y[s.len() / 2 + q / 2] == r[q / 2]);
        }
    }
    assert(interleaved(y) =~= s);
}

/// Decompression restores a raster whatever the destination held before:
/// the entropy coding is read back, the jump delta and delta passes that the
/// header byte `b` names are undone, the bitplanes XORed back and
/// reassembled. Splitting needs an even number of raster bytes, so that each
/// bitplane fills whole bytes, and XOR comes only with splitting.
pub proof fn lemma_header_round_trip(s: Seq<bool>, before: Seq<bool>, b: u8, jump_size: u8)
    requires
        s.len() % 8 == 0,
        8 <= s.len() < 0x1_0000_0000,
        before.len() == s.len(),
        b & 1u8 == 1 ==> s.len() % 16 == 0,
        b & 1u8 == 0 ==> b & 2u8 == 0,
        jump_size >= 1,
    ensures
        header_restored(
            filled(before, decoded(padded(entropy_bits(header_transformed(s, b, jump_size)))), s.len() as int),
            s.len() as int / 8,
            b,
            jump_size,
        ) == s,
{
    let split = b & 1u8 == 1;
    let xor = b & 2u8 != 0;
    let seq_n = ((b & 0b0011_1100u8) >> 2u8) as nat;
    let jump_n = ((b & 0b1100_0000u8) >> 6u8) as nat;
    let pl = planes(s, split, xor);
    if split {
        lemma_planes_restored(s, b);
    }
    assert(pl.len() == s.len());
    let d = delta_times(pl, seq_n);
    let t = header_transformed(s, b, jump_size);
    lemma_delta_times_len(pl, seq_n);
    lemma_jump_times_len(d, jump_size as int, jump_n);
    lemma_entropy_round_trip(t);
    let dec = decoded(padded(entropy_bits(t)));
    let raw = filled(before, dec, s.len() as int);
    assert(raw =~= t) by {
        assert forall|i: int| 0 <= i < raw.len() implies raw[i] == t[i] by {
            assert(dec.take(s.len() as int)[i] == dec[i]);
        }
    }
    lemma_jump_passes_round_trip(d, jump_size as int, jump_n);
    lemma_delta_passes_round_trip(pl, seq_n);
    let deltas = delta_dec_times(jump_dec_times(raw, jump_size as int, jump_n), seq_n);
    assert(deltas == pl);
    let nb = s.len() as int / 8;
    if split {
        assert(8 * (nb / 2) == s.len() as int / 2);
        if xor {
            assert(unmixed(raw, nb, b, jump_size) == xor_halves(planes(s, true, true), s.len() as int / 2));
        } else {
            assert(unmixed(raw, nb, b, jump_size) == planes(s, true, false));
        }
    } else {
        assert(b & 1u8 == 0) by (bit_vector)
            requires
                !(b & 1u8 == 1),
        ;
        assert(pl == s);
        assert(unmixed(raw, nb, b, jump_size) == s);
    }
}

proof fn lemma_header_fields(split: u8, xor: u8, seq_n: u8, jump_n: u8)
    requires
        split <= 1,
        xor <= 1,
        seq_n <= 4,
        jump_n <= 2,
    ensures
        ({
            let b = (split + 2 * xor + 4 * seq_n + 64 * jump_n) as u8;
            &&& (b & 1u8 == 1) == (split == 1)
            &&& (b & 2u8 != 0) == (xor == 1)
            &&& (b & 0b0011_1100u8) >> 2u8 == seq_n
            &&& (b & 0b1100_0000u8) >> 6u8 == jump_n
        }),
{
    let b = (split + 2 * xor + 4 * seq_n + 64 * jump_n) as u8;
    assert((b & 1u8 == 1) == (split == 1) && (b & 2u8 != 0) == (xor == 1) && (b & 0b0011_1100u8) >> 2u8
        == seq_n && (b & 0b1100_0000u8) >> 6u8 == jump_n) by (bit_vector)
        requires
            split <= 1,
            xor <= 1,
            seq_n <= 4,
            jump_n <= 2,
            b == (split + 2 * xor + 4 * seq_n + 64 * jump_n) as u8,
    ;
}

/// Round trip through the search: decompressing the header byte, jump size
/// and content that the search yields for a raster restores it, whatever the
/// destination held before. When the search keeps a split choice, this needs
/// an even number of raster bytes.
pub proof fn lemma_search_round_trip(s: Seq<bool>, before: Seq<bool>)
    requires
        s.len() % 8 == 0,
        8 <= s.len() < 0x1_0000_0000,
        before.len() == s.len(),
        grid_params(best_upto(s, GRID_SIZE as int)).split ==> s.len() % 16 == 0,
    ensures
        ({
            let p = grid_params(best_upto(s, GRID_SIZE as int));
            header_restored(
                filled(before, decoded(padded(encoded_with(s, p))), s.len() as int),
                s.len() as int / 8,
                param_byte(p) as u8,
                p.jump_size as u8,
            ) == s
        }),
{
    let t = best_upto(s, GRID_SIZE as int);
    lemma_search_optimal(s);
    let p = grid_params(t);
    let sp: u8 = if p.split { 1 } else { 0 };
    let xr: u8 = if p.xor { 1 } else { 0 };
    let seq_n = p.seq_delta as u8;
    let jump_n = p.jump_delta as u8;
    lemma_header_fields(sp, xr, seq_n, jump_n);
    let b = param_byte(p) as u8;
    assert(b == (sp + 2 * xr + 4 * seq_n + 64 * jump_n) as u8);
    let js = p.jump_size as u8;
    assert(js as int == p.jump_size as int);
    assert(header_transformed(s, b, js) == transformed(s, p.split, p.xor, p.seq_delta as nat, p.jump_delta as nat, p.jump_size as int));
    lemma_header_round_trip(s, before, b, js);
}

proof fn lemma_sorted_unique(a: Seq<u128>, b: Seq<u128>)
    requires
        strictly_descending(a),
        strictly_descending(b),
        forall|x: u128| a.contains(x) <==> b.contains(x),
    ensures
        a == b,
    decreases a.len(),
{
    if a.len() == 0 {
        if b.len() > 0 {
            assert(b.contains(b[0]));
        }
        assert(a =~= b);
    } else {
        if b.len() == 0 {
            assert(a.contains(a[0]));
        }
        assert(b.contains(a[0]));
        assert(a.contains(b[0]));
        let j = choose|j: int| 0 <= j < b.len() && b[j] == a[0];
        let i = choose|i: int| 0 <= i < a.len() && a[i] == b[0];
        assert(a[0] == b[0]);
        let a2 = a.drop_first();
        let b2 = b.drop_first();
        assert forall|x: u128| a2.contains(x) <==> b2.contains(x) by {
            if a2.contains(x) {
                let p = choose|p: int| 0 <= p < a2.len() && a2[p] == x;
                assert(a.contains(x) && a[p + 1] == x);
                let q = choose|q: int| 0 <= q < b.len() && b[q] == x;
                assert(q != 0);
                assert(b2[q - 1] == x);
            }
            if b2.contains(x) {
                let p = choose|p: int| 0 <= p < b2.len() && b2[p] == x;
                assert(b.contains(x) && b[p + 1] == x);
                let q = choose|q: int| 0 <= q < a.len() && a[q] == x;
                assert(q != 0);
                assert(a2[q - 1] == x);
            }
        }
        lemma_sorted_unique(a2, b2);
        assert(a =~= seq![a[0]] + a2);
        assert(b =~= seq![b[0]] + b2);
    }
}

/// Palette stability: two palettes that hold the same colours, each colour
/// keyed by one injective function of its bytes, are put in the same order,
/// whatever order the colours were found in.
pub proof fn lemma_ordering_stable(
    p1: Seq<Seq<u8>>,
    k1: Seq<u128>,
    o1: Seq<Seq<u8>>,
    ok1: Seq<u128>,
    p2: Seq<Seq<u8>>,
    k2: Seq<u128>,
    o2: Seq<Seq<u8>>,
    ok2: Seq<u128>,
    key: spec_fn(Seq<u8>) -> u128,
)
    requires
        is_ordering(p1, k1, o1, ok1),
        is_ordering(p2, k2, o2, ok2),
        forall|c: Seq<u8>| p1.contains(c) <==> p2.contains(c),
        forall|i: int| 0 <= i < p1.len() ==> k1[i] == key(#[trigger] p1[i]),
        forall|i: int| 0 <= i < p2.len() ==> k2[i] == key(#[trigger] p2[i]),
        forall|c: Seq<u8>, d: Seq<u8>| #[trigger] key(c) == #[trigger] key(d) ==> c == d,
    ensures
        o1 == o2,
{
    assert forall|x: u128| ok1.contains(x) <==> ok2.contains(x) by {
        if ok1.contains(x) {
            let m = choose|m: int| 0 <= m < ok1.len() && ok1[m] == x;
            let i = choose|i: int| 0 <= i < p1.len() && #[trigger] o1[m] == p1[i] && ok1[m] == k1[i];
            assert(p1.contains(p1[i]));
            let j = choose|j: int| 0 <= j < p2.len() && p2[j] == p1[i];
            let m2 = choose|m2: int| 0 <= m2 < o2.len() && o2[m2] == #[trigger] p2[j] && ok2[m2] == k2[j];
            assert(ok2[m2] == x);
        }
        if ok2.contains(x) {
            let m = choose|m: int| 0 <= m < ok2.len() && ok2[m] == x;
            let i = choose|i: int| 0 <= i < p2.len() && #[trigger] o2[m] == p2[i] && ok2[m] == k2[i];
            assert(p2.contains(p2[i]));
            let j = choose|j: int| 0 <= j < p1.len() && p1[j] == p2[i];
            let m2 = choose|m2: int| 0 <= m2 < o1.len() && o1[m2] == #[trigger] p1[j] && ok1[m2] == k1[j];
            assert(ok1[m2] == x);
        }
    }
    lemma_sorted_unique(ok1, ok2);
    assert forall|m: int| 0 <= m < o1.len() implies o1[m] == o2[m] by {
        let i = choose|i: int| 0 <= i < p1.len() && #[trigger] o1[m] == p1[i] && ok1[m] == k1[i];
        let j = choose|j: int| 0 <= j < p2.len() && #[trigger] o2[m] == p2[j] && ok2[m] == k2[j];
        assert(key(o1[m]) == key(o2[m]));
    }
    assert(o1 =~= o2);
}

/// Round trip: the sprite that the compressor's outcome `c` for the raster
/// `png` makes (sprite header, codec header, content) decompresses to `png`,
/// whatever the destination held before. When the compressor splits the
/// bitplanes, this needs an even number of raster bytes.
pub proof fn lemma_codec_round_trip(png: Seq<u8>, c: CompressionResult, w: u8, h: u8, f: u8, before: Seq<u8>)
    requires
        compresses(png, c),
        1 <= png.len(),
        codable(png.len() as nat),
        f <= 1,
        png.len() == raster_len(w, h, f),
        before.len() >= png.len(),
        c.params.split ==> png.len() % 2 == 0,
    ensures
        pk_raster(seq![w, h, f] + c.header_bytes@ + c.content_bytes@, before) == bits_of(png),
        seq![w, h, f] + c.header_bytes@ + c.content_bytes@ == seq![w, h, f, c.header_bytes@[0], c.header_bytes@[1]]
            + c.content_bytes@,
{
    let s = bits_of(png);
    let n = png.len() as int;
    let bytes = seq![w, h, f] + c.header_bytes@ + c.content_bytes@;
    assert(bytes =~= seq![w, h, f, c.header_bytes@[0], c.header_bytes@[1]] + c.content_bytes@);
    assert(bytes.subrange(5, bytes.len() as int) =~= c.content_bytes@);
    let prior = bits_of(before.subrange(0, n));
    assert(prior.len() == s.len());
    lemma_search_round_trip(s, prior);
}

} // verus!
