//! Bit-level reading and writing over byte buffers.
//!
//! Bit `p` of a buffer lives in byte `p / 8`, at bit `p % 8` counted from the
//! least significant bit.
use vstd::prelude::*;

verus! {

/// Bit `p` of `bytes`.
pub open spec fn bit_at(bytes: Seq<u8>, p: int) -> bool {
    bytes[p / 8] & (1u8 << ((p % 8) as u8)) != 0
}

/// All bits of `bytes`, in stream order.
pub open spec fn bits_of(bytes: Seq<u8>) -> Seq<bool> {
    Seq::new((8 * bytes.len()) as nat, |p: int| bit_at(bytes, p))
}

/// `new` is `old`, extended with clear bits as needed, with bit `p` set to `b`.
pub open spec fn placed(old: Seq<bool>, new: Seq<bool>, p: int, b: bool) -> bool {
    &&& old.len() <= new.len()
    &&& 0 <= p < new.len()
    &&& new[p] == b
    &&& forall|q: int| 0 <= q < new.len() && q != p ==> #[trigger] new[q] == (q < old.len() && old[q])
}

/// The `len` low bits of `val`, most significant first.
pub open spec fn msb_bits(val: u32, len: nat) -> Seq<bool> {
    Seq::new(len, |k: int| (val >> ((len - 1 - k) as u32)) & 1u32 == 1u32)
}

/// `b` followed by clear bits up to the next whole byte.
pub open spec fn padded(b: Seq<bool>) -> Seq<bool> {
    Seq::new((((b.len() + 7) / 8) * 8) as nat, |i: int| i < b.len() && b[i])
}

/// `v` holds exactly the bytes that its first `pos` bits touch, and every
/// later bit is clear.
pub open spec fn tight_bytes(v: Seq<u8>, pos: int) -> bool {
    &&& v.len() == (pos + 7) / 8
    &&& forall|q: int| pos <= q < bits_of(v).len() ==> !#[trigger] bits_of(v)[q]
}

/// Tight bytes are their first `pos` bits, padded to whole bytes.
pub proof fn lemma_tight_padded(v: Seq<u8>, pos: int)
    requires
        0 <= pos,
        tight_bytes(v, pos),
    ensures
        bits_of(v) == padded(bits_of(v).take(pos)),
{
    assert(bits_of(v) =~= padded(bits_of(v).take(pos)));
}

/// A bit position that can be formed for every bit of a buffer of `len` bytes.
pub open spec fn addressable(len: nat) -> bool {
    8 * len < usize::MAX
}

proof fn lemma_byte_bit(x: u8, b: u8, k: u8, j: u8)
    requires
        k < 8,
        j < 8,
        b <= 1,
    ensures
        (((x & !(1u8 << k)) | (b << k)) & (1u8 << j) != 0) == if j == k {
            b == 1
        } else {
            x & (1u8 << j) != 0
        },
{
    assert((((x & !(1u8 << k)) | (b << k)) & (1u8 << j) != 0) == if j == k {
        b == 1
    } else {
        x & (1u8 << j) != 0
    }) by (bit_vector)
        requires
            k < 8,
            j < 8,
            b <= 1,
    ;
}

proof fn lemma_zero_byte(j: u8)
    requires
        j < 8,
    ensures
        0u8 & (1u8 << j) == 0,
{
    assert(0u8 & (1u8 << j) == 0) by (bit_vector);
}

/// Overwrites bit `p` of `bytes` with `bit`.
pub fn set_bit(bytes: &mut [u8], p: usize, bit: u8)
    requires
        p / 8 < old(bytes)@.len(),
        bit <= 1,
    ensures
        final(bytes)@.len() == old(bytes)@.len(),
        bits_of(final(bytes)@) == bits_of(old(bytes)@).update(p as int, bit == 1),
{
    let off = p / 8;
    let k = (p % 8) as u8;
    let x = bytes[off];
    bytes[off] = (x & !(1u8 << k)) | (bit << k);
    proof {
        let o = bits_of(old(bytes)@);
        let n = bits_of(bytes@);
        assert forall|q: int| 0 <= q < n.len() implies #[trigger] n[q] == o.update(p as int, bit == 1)[q] by {
            if q / 8 == off as int {
                lemma_byte_bit(x, bit, k, (q % 8) as u8);
            }
        }
        assert(n =~= o.update(p as int, bit == 1));
    }
}

/// Reads bit `p` of `bytes`.
pub fn get_bit(bytes: &[u8], p: usize) -> (r: bool)
    requires
        p / 8 < bytes@.len(),
    ensures
        r == bit_at(bytes@, p as int),
{
    bytes[p / 8] & (1u8 << ((p % 8) as u8)) != 0
}

/// Overwrites bit `p` of `v`, first growing it with zero bytes until it holds bit `p`.
pub fn place_bit(v: &mut Vec<u8>, p: usize, bit: u8)
    requires
        bit <= 1,
    ensures
        placed(bits_of(old(v)@), bits_of(final(v)@), p as int, bit == 1),
        final(v)@.len() == if p / 8 < old(v)@.len() { old(v)@.len() as int } else { p / 8 + 1 },
{
    let off = p / 8;
    let ghost o = bits_of(v@);
    let ghost ov = v@;
    while v.len() <= off
        invariant
            off == p / 8,
            ov.len() <= v@.len() <= off + 1 || v@.len() == ov.len(),
            v@.subrange(0, ov.len() as int) == ov,
            forall|i: int| ov.len() <= i < v@.len() ==> v@[i] == 0u8,
        decreases off + 1 - v.len(),
    {
        v.push(0);
    }
    let ghost mid = v@;
    let k = (p % 8) as u8;
    let x = v[off];
    v.set(off, (x & !(1u8 << k)) | (bit << k));
    proof {
        let n = bits_of(v@);
        assert forall|q: int| 0 <= q < n.len() implies #[trigger] n[q] == if q == p {
            bit == 1
        } else {
            q < o.len() && o[q]
        } by {
            if q / 8 == off as int {
                lemma_byte_bit(x, bit, k, (q % 8) as u8);
            }
            if q / 8 >= ov.len() && q / 8 != off as int {
                assert(v@[q / 8] == mid[q / 8]);
                lemma_zero_byte((q % 8) as u8);
            }
            if q / 8 >= ov.len() && q / 8 == off as int && q != p {
                lemma_zero_byte((q % 8) as u8);
            }
            if q / 8 < ov.len() {
                assert(mid[q / 8] == ov[q / 8]);
            }
        }
    }
}

/// Reads a byte buffer bit by bit.
pub struct BitReader<'a> {
    pub to_read: &'a [u8],
    pub pos: usize,
}

impl<'a> BitReader<'a> {
    /// The reader's well-formedness: its cursor lies within the bits.
    pub open spec fn inv(&self) -> bool {
        &&& addressable(self.to_read@.len() as nat)
        &&& self.pos <= 8 * self.to_read@.len()
    }

    /// The bits being read.
    pub open spec fn bits(&self) -> Seq<bool> {
        bits_of(self.to_read@)
    }

    pub fn new(to_read: &'a [u8]) -> (r: Self)
        requires
            addressable(to_read@.len() as nat),
        ensures
            r.inv(),
            r.to_read == to_read,
            r.pos == 0,
    {
        Self { to_read, pos: 0 }
    }

    /// The bit under the cursor, after which the cursor advances; `None` past the end.
    pub fn read_bit(&mut self) -> (r: Option<bool>)
        requires
            old(self).inv(),
        ensures
            final(self).inv(),
            final(self).to_read == old(self).to_read,
            old(self).pos < old(self).bits().len() ==> r == Some(old(self).bits()[old(self).pos as int])
                && final(self).pos == old(self).pos + 1,
            old(self).pos >= old(self).bits().len() ==> r is None && final(self).pos == old(self).pos,
    {
        let off = self.pos / 8;
        if off >= self.to_read.len() {
            return None;
        }
        let read = get_bit(self.to_read, self.pos);
        self.pos = self.pos + 1;
        Some(read)
    }

    /// The bit at `bit_pos`, leaving the cursor where it is; `None` past the end.
    pub fn read_at(&mut self, bit_pos: usize) -> (r: Option<bool>)
        requires
            old(self).inv(),
        ensures
            *final(self) == *old(self),
            bit_pos < old(self).bits().len() ==> r == Some(old(self).bits()[bit_pos as int]),
            bit_pos >= old(self).bits().len() ==> r is None,
    {
        let off = bit_pos / 8;
        if off >= self.to_read.len() {
            return None;
        }
        Some(get_bit(self.to_read, bit_pos))
    }

    /// The bit under the cursor, without advancing; `None` past the end.
    pub fn peek_bit(&self) -> (r: Option<bool>)
        requires
            self.inv(),
        ensures
            self.pos < self.bits().len() ==> r == Some(self.bits()[self.pos as int]),
            self.pos >= self.bits().len() ==> r is None,
    {
        let off = self.pos / 8;
        if off >= self.to_read.len() {
            return None;
        }
        Some(get_bit(self.to_read, self.pos))
    }
}

/// Writing bits into a buffer, with a cursor for sequential writes.
pub trait BitWriter {
    /// The bits of the buffer.
    spec fn bits(&self) -> Seq<bool>;

    /// Where the next sequential write goes.
    spec fn cursor(&self) -> int;

    /// Whether a bit can be written at position `p`.
    spec fn room(&self, p: int) -> bool;

    /// The writer's well-formedness.
    spec fn inv(&self) -> bool;

    /// Writes `bit` under the cursor and advances it.
    fn write_bit(&mut self, bit: u8)
        requires
            old(self).inv(),
            bit <= 1,
            old(self).room(old(self).cursor()),
        ensures
            final(self).inv(),
            final(self).cursor() == old(self).cursor() + 1,
            placed(old(self).bits(), final(self).bits(), old(self).cursor(), bit == 1),
    ;

    /// Overwrites the bit at `bit_pos`; the cursor stays.
    fn write_bit_at(&mut self, bit: u8, bit_pos: usize)
        requires
            old(self).inv(),
            bit <= 1,
            old(self).room(bit_pos as int),
        ensures
            final(self).inv(),
            final(self).cursor() == old(self).cursor(),
            placed(old(self).bits(), final(self).bits(), bit_pos as int, bit == 1),
    ;

    /// Writes the `len` low bits of `val`, most significant first.
    fn write(&mut self, val: u32, len: usize)
        requires
            old(self).inv(),
            len <= 32,
            forall|p: int| old(self).cursor() <= p < old(self).cursor() + len ==> old(self).room(p),
        ensures
            final(self).inv(),
            final(self).cursor() == old(self).cursor() + len,
            final(self).bits().len() >= old(self).cursor() + len,
            final(self).bits().subrange(old(self).cursor(), old(self).cursor() + len) == msb_bits(
                val,
                len as nat,
            ),
            forall|q: int|
                0 <= q < old(self).cursor() && q < old(self).bits().len() ==> #[trigger] final(self).bits()[q]
                    == old(self).bits()[q],
    ;

    /// The bit at `bit_pos`; `None` past the end.
    fn read_at(&self, bit_pos: usize) -> (r: Option<bool>)
        requires
            self.inv(),
        ensures
            bit_pos < self.bits().len() ==> r == Some(self.bits()[bit_pos as int]),
            bit_pos >= self.bits().len() ==> r is None,
    ;

    /// Exchanges the bits at two positions.
    fn swap(&mut self, bit_pos_1: usize, bit_pos_2: usize)
        requires
            old(self).inv(),
            bit_pos_1 < old(self).bits().len(),
            bit_pos_2 < old(self).bits().len(),
            old(self).room(bit_pos_1 as int),
            old(self).room(bit_pos_2 as int),
        ensures
            final(self).inv(),
            final(self).cursor() == old(self).cursor(),
            final(self).bits() == old(self).bits().update(
                bit_pos_1 as int,
                old(self).bits()[bit_pos_2 as int],
            ).update(bit_pos_2 as int, old(self).bits()[bit_pos_1 as int]),
    ;
}

/// Appends bits to a growable byte vector.
pub struct BitVecWriter<'a> {
    pub to_write: &'a mut Vec<u8>,
    pub pos: usize,
}

impl<'a> BitVecWriter<'a> {
    /// The bits written so far.
    pub open spec fn written(&self) -> Seq<bool> {
        bits_of(self.to_write@).take(self.pos as int)
    }

    /// The vector holds exactly the bytes that the written bits touch, and
    /// every bit past the cursor is clear.
    pub open spec fn tight(&self) -> bool {
        tight_bytes(self.to_write@, self.pos as int)
    }

    /// Starts writing at the beginning of `to_write`, which is emptied.
    pub fn new(to_write: &'a mut Vec<u8>) -> (r: Self)
        ensures
            r.to_write@ == Seq::<u8>::empty(),
            final(to_write)@ == final(r.to_write)@,
            r.pos == 0,
            r.tight(),
    {
        to_write.clear();
        Self { to_write, pos: 0 }
    }

    /// Overwrites the bit under the cursor with `bit`, growing the vector as
    /// needed, and advances the cursor.
    pub fn write_bit(&mut self, bit: u8)
        requires
            bit <= 1,
            old(self).pos < usize::MAX,
        ensures
            final(self).pos == old(self).pos + 1,
            placed(bits_of(old(self).to_write@), bits_of(final(self).to_write@), old(self).pos as int, bit == 1),
            old(self).tight() ==> final(self).tight(),
            old(self).tight() ==> final(self).written() == old(self).written().push(bit == 1),
            final(final(self).to_write)@ == final(old(self).to_write)@,
    {
        let ghost ob = bits_of(self.to_write@);
        place_bit(self.to_write, self.pos, bit);
        self.pos = self.pos + 1;
        proof {
            let nb = bits_of(self.to_write@);
            if old(self).tight() {
                assert(self.written() =~= old(self).written().push(bit == 1));
            }
        }
    }

    /// Writes the `len` low bits of `val`, most significant first.
    pub fn write(&mut self, val: u32, len: usize)
        requires
            len <= 32,
            old(self).pos + len < usize::MAX,
            old(self).pos <= bits_of(old(self).to_write@).len(),
        ensures
            final(self).pos == old(self).pos + len,
            bits_of(final(self).to_write@).len() >= final(self).pos,
            bits_of(final(self).to_write@).subrange(old(self).pos as int, final(self).pos as int)
                == msb_bits(val, len as nat),
            forall|q: int|
                0 <= q < old(self).pos && q < bits_of(old(self).to_write@).len() ==> #[trigger] bits_of(
                    final(self).to_write@,
                )[q] == bits_of(old(self).to_write@)[q],
            bits_of(old(self).to_write@).len() <= bits_of(final(self).to_write@).len(),
            old(self).tight() ==> final(self).tight(),
            old(self).tight() ==> final(self).written() == old(self).written() + msb_bits(val, len as nat),
            final(final(self).to_write)@ == final(old(self).to_write)@,
    {
        let ghost start = self.pos;
        let ghost ob = bits_of(self.to_write@);
        let mut i: usize = len;
        while i > 0
            invariant
                i <= len <= 32,
                self.pos == start + (len - i),
                start + len < usize::MAX,
                bits_of(self.to_write@).len() >= self.pos,
                ob.len() <= bits_of(self.to_write@).len(),
                bits_of(self.to_write@).subrange(start as int, self.pos as int) == msb_bits(val, len as nat).take(len - i),
                forall|q: int| 0 <= q < start && q < ob.len() ==> #[trigger] bits_of(self.to_write@)[q] == ob[q],
                old(self).tight() ==> self.tight(),
                old(self).tight() ==> self.written() == old(self).written() + msb_bits(val, len as nat).take(len - i),
                final(self.to_write)@ == final(old(self).to_write)@,
            decreases i,
        {
            i = i - 1;
            let ghost before = bits_of(self.to_write@);
            let ghost wbefore = self.written();
            #[verifier::truncate]
            let b = ((val >> (i as u32)) & 1u32) as u8;
            assert(b <= 1) by (bit_vector)
                requires
                    b == ((val >> (i as u32)) & 1u32) as u8,
            ;
            self.write_bit(b);
            proof {
                let m = msb_bits(val, len as nat);
                let nb = bits_of(self.to_write@);
                assert(m[len - 1 - i] == (b == 1)) by {
                    assert(((val >> (i as u32)) & 1u32 == 1u32) == (((val >> (i as u32)) & 1u32) as u8 == 1)) by (bit_vector);
                }
                assert(nb.subrange(start as int, self.pos as int) =~= m.take(len - i));
                if old(self).tight() {
                    assert(self.written() =~= old(self).written() + m.take(len - i));
                }
            }
        }
        proof {
            assert(msb_bits(val, len as nat).take(len as int) =~= msb_bits(val, len as nat));
        }
    }
}

impl<'a> BitWriter for BitVecWriter<'a> {
    open spec fn bits(&self) -> Seq<bool> {
        bits_of(self.to_write@)
    }

    open spec fn cursor(&self) -> int {
        self.pos as int
    }

    open spec fn room(&self, p: int) -> bool {
        0 <= p < usize::MAX - 1
    }

    open spec fn inv(&self) -> bool {
        &&& self.pos < usize::MAX
        &&& self.pos <= bits_of(self.to_write@).len()
    }

    fn write_bit(&mut self, bit: u8) {
        BitVecWriter::write_bit(self, bit);
    }

    fn write_bit_at(&mut self, bit: u8, bit_pos: usize) {
        place_bit(self.to_write, bit_pos, bit);
    }

    fn write(&mut self, val: u32, len: usize) {
        if len > 0 {
            assert(self.room(self.cursor() + len - 1));
        }
        BitVecWriter::write(self, val, len);
    }

    fn read_at(&self, bit_pos: usize) -> (r: Option<bool>) {
        let off = bit_pos / 8;
        if off >= self.to_write.len() {
            return None;
        }
        Some(get_bit(self.to_write.as_slice(), bit_pos))
    }

    fn swap(&mut self, bit_pos_1: usize, bit_pos_2: usize) {
        let b1 = get_bit(self.to_write.as_slice(), bit_pos_1);
        let b2 = get_bit(self.to_write.as_slice(), bit_pos_2);
        let ghost o = bits_of(self.to_write@);
        place_bit(self.to_write, bit_pos_2, b1 as u8);
        place_bit(self.to_write, bit_pos_1, b2 as u8);
        assert(bits_of(self.to_write@) =~= o.update(bit_pos_1 as int, o[bit_pos_2 as int]).update(
            bit_pos_2 as int,
            o[bit_pos_1 as int],
        ));
    }
}

/// `s` with the bits of `[start, end)` in reverse order.
pub open spec fn reversed_range(s: Seq<bool>, start: int, end: int) -> Seq<bool> {
    Seq::new(s.len(), |q: int| if start <= q < end { s[start + end - 1 - q] } else { s[q] })
}

/// `s` with the bits of `[start, end)` rotated right by `amt` places.
pub open spec fn rotated_right(s: Seq<bool>, start: int, end: int, amt: int) -> Seq<bool> {
    Seq::new(
        s.len(),
        |q: int|
            if start <= q < start + amt {
                s[end - amt + (q - start)]
            } else if start + amt <= q < end {
                s[q - amt]
            } else {
                s[q]
            },
    )
}

/// Writes bits in place into a fixed byte slice.
pub struct BitSliceWriter<'a> {
    pub bit_slice: &'a mut [u8],
    pub pos: usize,
}

impl<'a> BitSliceWriter<'a> {
    /// The bits of the slice.
    pub open spec fn bits(&self) -> Seq<bool> {
        bits_of(self.bit_slice@)
    }

    /// The writer's well-formedness: every bit is addressable and the cursor
    /// lies within them.
    pub open spec fn inv(&self) -> bool {
        &&& addressable(self.bit_slice@.len() as nat)
        &&& self.pos <= 8 * self.bit_slice@.len()
    }

    /// Starts writing at the first bit of `bit_slice`.
    pub fn new(bit_slice: &'a mut [u8]) -> (r: Self)
        requires
            addressable(old(bit_slice)@.len() as nat),
        ensures
            r.inv(),
            r.bit_slice@ == old(bit_slice)@,
            final(bit_slice)@ == final(r.bit_slice)@,
            r.pos == 0,
    {
        Self { bit_slice, pos: 0 }
    }

    /// Rotates the bits of `[start, end)` right by `amt` places, as three reversals.
    pub fn rotate_right(&mut self, start: usize, end: usize, amt: usize)
        requires
            old(self).inv(),
            start + amt <= end <= old(self).bits().len(),
        ensures
            final(self).inv(),
            final(self).pos == old(self).pos,
            final(self).bits() == rotated_right(old(self).bits(), start as int, end as int, amt as int),
            final(self).bit_slice@.len() == old(self).bit_slice@.len(),
            final(final(self).bit_slice)@ == final(old(self).bit_slice)@,
    {
        let ghost o = self.bits();
        self.reverse(start, end);
        let ghost r1 = self.bits();
        self.reverse(start, start + amt);
        let ghost r2 = self.bits();
        self.reverse(start + amt, end);
        assert(self.bits() =~= rotated_right(o, start as int, end as int, amt as int));
    }

    /// Reverses the order of the bits of `[start, end)`.
    pub fn reverse(&mut self, start: usize, end: usize)
        requires
            old(self).inv(),
            start <= end <= old(self).bits().len(),
        ensures
            final(self).inv(),
            final(self).pos == old(self).pos,
            final(self).bits() == reversed_range(old(self).bits(), start as int, end as int),
            final(self).bit_slice@.len() == old(self).bit_slice@.len(),
            final(final(self).bit_slice)@ == final(old(self).bit_slice)@,
    {
        let ghost o = self.bits();
        if start >= end {
            assert(self.bits() =~= reversed_range(o, start as int, end as int));
            return;
        }
        let mut i = start;
        let mut j = end - 1;
        while i < j
            invariant
                self.inv(),
                self.pos == old(self).pos,
                self.bit_slice@.len() == old(self).bit_slice@.len(),
                start <= i,
                j < end,
                end <= o.len(),
                i + j == start + end - 1,
                i <= j + 1,
                o.len() == self.bits().len(),
                forall|q: int|
                    0 <= q < o.len() ==> #[trigger] self.bits()[q] == if (start <= q < i || j < q < end) {
                        o[start + end - 1 - q]
                    } else {
                        o[q]
                    },
                final(self.bit_slice)@ == final(old(self).bit_slice)@,
            decreases end - i,
        {
            BitSliceWriter::swap(self, i, j);
            i += 1;
            j -= 1;
        }
        assert(self.bits() =~= reversed_range(o, start as int, end as int));
    }

    /// The cursor.
    pub fn get_end(&self) -> (r: usize)
        ensures
            r == self.pos,
    {
        self.pos
    }

    /// Overwrites the bit under the cursor with `bit` and advances the cursor.
    pub fn write_bit(&mut self, bit: u8)
        requires
            old(self).inv(),
            bit <= 1,
            old(self).pos < old(self).bits().len(),
        ensures
            final(self).inv(),
            final(self).pos == old(self).pos + 1,
            final(self).bits() == old(self).bits().update(old(self).pos as int, bit == 1),
            final(self).bit_slice@.len() == old(self).bit_slice@.len(),
            final(final(self).bit_slice)@ == final(old(self).bit_slice)@,
    {
        set_bit(self.bit_slice, self.pos, bit);
        self.pos = self.pos + 1;
    }

    /// Overwrites the bit at `bit_pos` with `bit`; the cursor stays.
    pub fn write_bit_at(&mut self, bit: u8, bit_pos: usize)
        requires
            old(self).inv(),
            bit <= 1,
            bit_pos < old(self).bits().len(),
        ensures
            final(self).inv(),
            final(self).pos == old(self).pos,
            final(self).bits() == old(self).bits().update(bit_pos as int, bit == 1),
            final(self).bit_slice@.len() == old(self).bit_slice@.len(),
            final(final(self).bit_slice)@ == final(old(self).bit_slice)@,
    {
        set_bit(self.bit_slice, bit_pos, bit);
    }

    /// Writes the `len` low bits of `val` under the cursor, most significant first.
    pub fn write(&mut self, val: u32, len: usize)
        requires
            old(self).inv(),
            len <= 32,
            old(self).pos + len <= old(self).bits().len(),
        ensures
            final(self).inv(),
            final(self).pos == old(self).pos + len,
            final(self).bits() == old(self).bits().take(old(self).pos as int) + msb_bits(val, len as nat)
                + old(self).bits().skip(old(self).pos + len),
            final(self).bit_slice@.len() == old(self).bit_slice@.len(),
            final(final(self).bit_slice)@ == final(old(self).bit_slice)@,
    {
        let ghost start = self.pos;
        let ghost o = self.bits();
        let mut i: usize = len;
        while i > 0
            invariant
                self.inv(),
                i <= len <= 32,
                self.pos == start + (len - i),
                start + len <= o.len(),
                self.bit_slice@.len() == old(self).bit_slice@.len(),
                self.bits() == o.take(start as int) + msb_bits(val, len as nat).take(len - i) + o.skip(
                    self.pos as int,
                ),
                final(self.bit_slice)@ == final(old(self).bit_slice)@,
            decreases i,
        {
            i = i - 1;
            #[verifier::truncate]
            let b = ((val >> (i as u32)) & 1u32) as u8;
            assert(b <= 1) by (bit_vector)
                requires
                    b == ((val >> (i as u32)) & 1u32) as u8,
            ;
            let ghost before = self.bits();
            BitSliceWriter::write_bit(self, b);
            proof {
                let m = msb_bits(val, len as nat);
                assert(m[len - 1 - i] == (b == 1)) by {
                    assert(((val >> (i as u32)) & 1u32 == 1u32) == (((val >> (i as u32)) & 1u32) as u8
                        == 1)) by (bit_vector);
                }
                assert(self.bits() =~= o.take(start as int) + m.take(len - i) + o.skip(self.pos as int));
            }
        }
        assert(msb_bits(val, len as nat).take(len as int) =~= msb_bits(val, len as nat));
    }

    /// The bit at `bit_pos`; `None` past the end.
    pub fn read_at(&self, bit_pos: usize) -> (r: Option<bool>)
        requires
            self.inv(),
        ensures
            bit_pos < self.bits().len() ==> r == Some(self.bits()[bit_pos as int]),
            bit_pos >= self.bits().len() ==> r is None,
    {
        let off = bit_pos / 8;
        if off >= self.bit_slice.len() {
            return None;
        }
        Some(get_bit(self.bit_slice, bit_pos))
    }

    /// Exchanges the bits at two positions.
    pub fn swap(&mut self, bit_pos_1: usize, bit_pos_2: usize)
        requires
            old(self).inv(),
            bit_pos_1 < old(self).bits().len(),
            bit_pos_2 < old(self).bits().len(),
        ensures
            final(self).inv(),
            final(self).pos == old(self).pos,
            final(self).bits() == old(self).bits().update(bit_pos_1 as int, old(self).bits()[bit_pos_2 as int]).update(
                bit_pos_2 as int,
                old(self).bits()[bit_pos_1 as int],
            ),
            final(self).bit_slice@.len() == old(self).bit_slice@.len(),
            final(final(self).bit_slice)@ == final(old(self).bit_slice)@,
    {
        let b1 = get_bit(self.bit_slice, bit_pos_1);
        let b2 = get_bit(self.bit_slice, bit_pos_2);
        BitSliceWriter::write_bit_at(self, b1 as u8, bit_pos_2);
        BitSliceWriter::write_bit_at(self, b2 as u8, bit_pos_1);
    }
}

impl<'a> BitWriter for BitSliceWriter<'a> {
    open spec fn bits(&self) -> Seq<bool> {
        bits_of(self.bit_slice@)
    }

    open spec fn cursor(&self) -> int {
        self.pos as int
    }

    open spec fn room(&self, p: int) -> bool {
        0 <= p < bits_of(self.bit_slice@).len()
    }

    open spec fn inv(&self) -> bool {
        &&& addressable(self.bit_slice@.len() as nat)
        &&& self.pos <= 8 * self.bit_slice@.len()
    }

    fn write_bit(&mut self, bit: u8) {
        BitSliceWriter::write_bit(self, bit);
    }

    fn write_bit_at(&mut self, bit: u8, bit_pos: usize) {
        BitSliceWriter::write_bit_at(self, bit, bit_pos);
    }

    fn write(&mut self, val: u32, len: usize) {
        let ghost o = bits_of(self.bit_slice@);
        if len > 0 {
            assert(self.room(self.cursor() + len - 1));
        }
        BitSliceWriter::write(self, val, len);
        assert(bits_of(self.bit_slice@).subrange(old(self).pos as int, old(self).pos + len) =~= msb_bits(val, len as nat));
    }

    fn read_at(&self, bit_pos: usize) -> (r: Option<bool>) {
        BitSliceWriter::read_at(self, bit_pos)
    }

    fn swap(&mut self, bit_pos_1: usize, bit_pos_2: usize) {
        BitSliceWriter::swap(self, bit_pos_1, bit_pos_2);
    }
}

} // verus!
