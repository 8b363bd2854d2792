//! Reversible transforms on the bits of byte buffers, as the encoder applies
//! them: bitplane splitting and XOR, sequential delta and jump delta.
use vstd::prelude::*;
use crate::bitfiddle::{addressable, bits_of, padded, tight_bytes, BitReader, BitVecWriter};

verus! {

/// Each bit XOR the bit before it (the first one XOR a clear bit).
pub open spec fn delta_enc(s: Seq<bool>) -> Seq<bool> {
    Seq::new(s.len(), |i: int| s[i] != (i > 0 && s[i - 1]))
}

/// XOR of the first `n` bits of `s`.
pub open spec fn prefix_parity(s: Seq<bool>, n: int) -> bool
    decreases n,
{
    if n <= 0 {
        false
    } else {
        prefix_parity(s, n - 1) != s[n - 1]
    }
}

/// Each bit replaced by the XOR of all bits up to it: the inverse of `delta_enc`.
pub open spec fn delta_dec(s: Seq<bool>) -> Seq<bool> {
    Seq::new(s.len(), |i: int| prefix_parity(s, i + 1))
}

/// The first `j` bits kept, each later bit XOR the bit `j` places before it.
pub open spec fn jump_enc(s: Seq<bool>, j: int) -> Seq<bool> {
    Seq::new(s.len(), |i: int| if i < j { s[i] } else { s[i] != s[i - j] })
}

/// Bit `i` of the inverse of `jump_enc(_, j)` applied to `s`.
pub open spec fn jump_dec_at(s: Seq<bool>, j: int, i: int) -> bool
    decreases i,
{
    if i < j {
        s[i]
    } else if j <= 0 || i < 0 {
        false
    } else {
        s[i] != jump_dec_at(s, j, i - j)
    }
}

/// The inverse of `jump_enc(_, j)` applied to `s`.
pub open spec fn jump_dec(s: Seq<bool>, j: int) -> Seq<bool> {
    Seq::new(s.len(), |i: int| jump_dec_at(s, j, i))
}

/// The bits at even positions.
pub open spec fn evens(s: Seq<bool>) -> Seq<bool> {
    Seq::new(((s.len() + 1) / 2) as nat, |i: int| s[2 * i])
}

/// The bits at odd positions.
pub open spec fn odds(s: Seq<bool>) -> Seq<bool> {
    Seq::new(s.len() / 2, |i: int| s[2 * i + 1])
}

/// `b` with each byte that `a` also has replaced by the XOR of the two.
pub open spec fn xor_bytes(a: Seq<u8>, b: Seq<u8>) -> Seq<u8> {
    Seq::new(b.len(), |i: int| if i < a.len() { a[i] ^ b[i] } else { b[i] })
}

proof fn lemma_whole_bytes(v: Seq<u8>, pos: int)
    requires
        tight_bytes(v, pos),
        pos % 8 == 0,
        pos >= 0,
    ensures
        bits_of(v) == bits_of(v).take(pos),
{
    assert(bits_of(v) =~= bits_of(v).take(pos));
}

/// Sequential delta encoding: `out_bytes` is emptied and receives `delta_enc` of the bits of `in_bytes`.
pub fn delta_encode(in_bytes: &Vec<u8>, out_bytes: &mut Vec<u8>)
    requires
        addressable(in_bytes@.len() as nat),
    ensures
        bits_of(final(out_bytes)@) == delta_enc(bits_of(in_bytes@)),
{
    let ghost s = bits_of(in_bytes@);
    let mut writer = BitVecWriter::new(out_bytes);
    let mut reader = BitReader::new(in_bytes.as_slice());
    let n = in_bytes.len() * 8;
    let mut last = false;
    while reader.pos < n
        invariant
            reader.inv(),
            reader.to_read@ == in_bytes@,
            s == bits_of(in_bytes@),
            n == s.len(),
            writer.pos == reader.pos,
            writer.tight(),
            writer.written() == delta_enc(s).take(reader.pos as int),
            last == (reader.pos > 0 && s[reader.pos - 1]),
            final(writer.to_write)@ == after_borrow(out_bytes)@,
        decreases n - reader.pos,
    {
        let b1 = reader.read_bit().unwrap();
        if b1 == last {
            writer.write_bit(0);
        } else {
            writer.write_bit(1);
        }
        last = b1;
        assert(writer.written() =~= delta_enc(s).take(reader.pos as int));
    }
    proof {
        lemma_whole_bytes(writer.to_write@, writer.pos as int);
        assert(delta_enc(s).take(n as int) =~= delta_enc(s));
    }
}

/// Sequential delta decoding: `out_bytes` is emptied and receives `delta_dec` of the bits of `in_bytes`.
pub fn delta_decode(in_bytes: &Vec<u8>, out_bytes: &mut Vec<u8>)
    requires
        addressable(in_bytes@.len() as nat),
    ensures
        bits_of(final(out_bytes)@) == delta_dec(bits_of(in_bytes@)),
{
    let ghost s = bits_of(in_bytes@);
    let mut writer = BitVecWriter::new(out_bytes);
    let mut reader = BitReader::new(in_bytes.as_slice());
    let n = in_bytes.len() * 8;
    let mut cur: u8 = 0;
    while reader.pos < n
        invariant
            reader.inv(),
            reader.to_read@ == in_bytes@,
            s == bits_of(in_bytes@),
            n == s.len(),
            writer.pos == reader.pos,
            writer.tight(),
            writer.written() == delta_dec(s).take(reader.pos as int),
            cur <= 1,
            (cur == 1) == prefix_parity(s, reader.pos as int),
            final(writer.to_write)@ == after_borrow(out_bytes)@,
        decreases n - reader.pos,
    {
        let b1 = reader.read_bit().unwrap();
        if b1 {
            cur = 1 - cur;
        }
        writer.write_bit(cur);
        assert(writer.written() =~= delta_dec(s).take(reader.pos as int));
    }
    proof {
        lemma_whole_bytes(writer.to_write@, writer.pos as int);
        assert(delta_dec(s).take(n as int) =~= delta_dec(s));
    }
}

/// Jump delta encoding: `out_bytes` is emptied and receives `jump_enc` of the
/// bits of `in_bytes` with stride `jump`.
pub fn delta_encode_by_jump(in_bytes: &Vec<u8>, out_bytes: &mut Vec<u8>, jump: usize)
    requires
        addressable(in_bytes@.len() as nat),
    ensures
        bits_of(final(out_bytes)@) == jump_enc(bits_of(in_bytes@), jump as int),
{
    let ghost s = bits_of(in_bytes@);
    let mut writer = BitVecWriter::new(out_bytes);
    let mut reader = BitReader::new(in_bytes.as_slice());
    let n = in_bytes.len() * 8;
    let head = if jump < n { jump } else { n };
    while reader.pos < head
        invariant
            reader.inv(),
            reader.to_read@ == in_bytes@,
            s == bits_of(in_bytes@),
            n == s.len(),
            head <= n,
            head <= jump,
            reader.pos <= head,
            writer.pos == reader.pos,
            writer.tight(),
            writer.written() == jump_enc(s, jump as int).take(reader.pos as int),
            final(writer.to_write)@ == after_borrow(out_bytes)@,
        decreases head - reader.pos,
    {
        let b = reader.read_bit().unwrap();
        writer.write_bit(b as u8);
        assert(writer.written() =~= jump_enc(s, jump as int).take(reader.pos as int));
    }
    let mut i = head;
    while i < n
        invariant
            reader.inv(),
            reader.to_read@ == in_bytes@,
            s == bits_of(in_bytes@),
            n == s.len(),
            head <= i <= n,
            head == jump || head == n,
            writer.pos == i,
            writer.tight(),
            writer.written() == jump_enc(s, jump as int).take(i as int),
            final(writer.to_write)@ == after_borrow(out_bytes)@,
        decreases n - i,
    {
        let b1 = reader.read_at(i - jump).unwrap();
        let b2 = reader.read_at(i).unwrap();
        if b1 == b2 {
            writer.write_bit(0);
        } else {
            writer.write_bit(1);
        }
        i = i + 1;
        assert(writer.written() =~= jump_enc(s, jump as int).take(i as int));
    }
    proof {
        lemma_whole_bytes(writer.to_write@, writer.pos as int);
        assert(jump_enc(s, jump as int).take(n as int) =~= jump_enc(s, jump as int));
    }
}

/// Splits the bits of `in_bytes` into two bitplanes: `out_left` (emptied
/// first) receives the bits at even positions, `out_right` those at odd
/// positions, each padded to whole bytes.
pub fn split_bitplanes(in_bytes: &Vec<u8>, out_left: &mut Vec<u8>, out_right: &mut Vec<u8>)
    requires
        addressable(in_bytes@.len() as nat),
    ensures
        bits_of(final(out_left)@) == padded(evens(bits_of(in_bytes@))),
        bits_of(final(out_right)@) == padded(odds(bits_of(in_bytes@))),
        final(out_left)@.len() == (4 * in_bytes@.len() + 7) / 8,
        final(out_right)@.len() == (4 * in_bytes@.len() + 7) / 8,
{
    let ghost s = bits_of(in_bytes@);
    let mut writer_1 = BitVecWriter::new(out_left);
    let mut writer_2 = BitVecWriter::new(out_right);
    let mut reader = BitReader::new(in_bytes.as_slice());
    let n = in_bytes.len() * 8;
    let mut write_1 = true;
    while reader.pos < n
        invariant
            reader.inv(),
            reader.to_read@ == in_bytes@,
            s == bits_of(in_bytes@),
            n == s.len(),
            write_1 == (reader.pos % 2 == 0),
            writer_1.pos == (reader.pos + 1) / 2,
            writer_2.pos == reader.pos / 2,
            writer_1.tight(),
            writer_2.tight(),
            writer_1.written() == evens(s.take(reader.pos as int)),
            writer_2.written() == odds(s.take(reader.pos as int)),
            final(writer_1.to_write)@ == after_borrow(out_left)@,
            final(writer_2.to_write)@ == after_borrow(out_right)@,
        decreases n - reader.pos,
    {
        let ghost p = reader.pos;
        let b1 = reader.read_bit().unwrap();
        if write_1 {
            writer_1.write_bit(b1 as u8);
        } else {
            writer_2.write_bit(b1 as u8);
        }
        write_1 = !write_1;
        assert(writer_1.written() =~= evens(s.take(reader.pos as int)));
        assert(writer_2.written() =~= odds(s.take(reader.pos as int)));
    }
    proof {
        assert(s.take(n as int) =~= s);
        crate::bitfiddle::lemma_tight_padded(writer_1.to_write@, writer_1.pos as int);
        crate::bitfiddle::lemma_tight_padded(writer_2.to_write@, writer_2.pos as int);
    }
}

/// XORs `bp1` into `bp2`, byte by byte, over the bytes that both have.
pub fn xor_bitplanes(bp1: &Vec<u8>, bp2: &mut Vec<u8>)
    ensures
        final(bp2)@ == xor_bytes(bp1@, old(bp2)@),
{
    let mut i: usize = 0;
    while i < bp1.len() && i < bp2.len()
        invariant
            bp2@.len() == old(bp2)@.len(),
            i <= bp2@.len(),
            forall|k: int|
                0 <= k < bp2@.len() ==> #[trigger] bp2@[k] == if k < i && k < bp1@.len() {
                    bp1@[k] ^ old(bp2)@[k]
                } else {
                    old(bp2)@[k]
                },
        decreases bp2@.len() - i,
    {
        let x = bp1[i] ^ bp2[i];
        bp2.set(i, x);
        i = i + 1;
    }
    assert(bp2@ =~= xor_bytes(bp1@, old(bp2)@));
}

} // verus!
