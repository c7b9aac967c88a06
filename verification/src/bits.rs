//! Bit-level substrate of the codec.
//!
//! A datagram is modelled as a sequence of bits; every multi-bit field
//! is encoded most-significant bit first.  [`BitCursor`] is the
//! consumable, ordered view every decoder reads from: each read
//! consumes a prefix and leaves the cursor immediately past the
//! consumed value.

use vstd::prelude::*;

use crate::error::MDNSError;

verus! {

/// 2 to the power `n`, as a mathematical integer.
pub open spec fn pow2(n: nat) -> nat
    decreases n,
{
    if n == 0 {
        1
    } else {
        2 * pow2((n - 1) as nat)
    }
}

/// The unsigned value of a bit string, most-significant bit first.
pub open spec fn bits_val(s: Seq<bool>) -> nat
    decreases s.len(),
{
    if s.len() == 0 {
        0
    } else {
        2 * bits_val(s.drop_last()) + (if s.last() {
            1nat
        } else {
            0nat
        })
    }
}

/// The width-`n`, most-significant-bit-first encoding of `v`
/// (of `v % pow2(n)` if `v` does not fit).
pub open spec fn bits_of(v: nat, n: nat) -> Seq<bool>
    decreases n,
{
    if n == 0 {
        Seq::empty()
    } else {
        bits_of(v / 2, (n - 1) as nat).push(v % 2 == 1)
    }
}

/// The bits of one byte, most-significant first.
pub open spec fn byte_bits(b: u8) -> Seq<bool> {
    bits_of(b as nat, 8)
}

/// The concatenated bits of a byte string.
pub open spec fn bytes_bits(bs: Seq<u8>) -> Seq<bool>
    decreases bs.len(),
{
    if bs.len() == 0 {
        Seq::empty()
    } else {
        byte_bits(bs[0]) + bytes_bits(bs.skip(1))
    }
}

/// The bytes spelled by a bit string, one byte per 8 bits
/// (trailing bits that do not fill a byte are ignored).
pub open spec fn bytes_of_bits(s: Seq<bool>) -> Seq<u8> {
    Seq::new((s.len() / 8) as nat, |i: int| bits_val(s.subrange(8 * i, 8 * i + 8)) as u8)
}

pub broadcast proof fn lemma_bits_of_len(v: nat, n: nat)
    ensures
        (#[trigger] bits_of(v, n)).len() == n,
    decreases n,
{
    if n > 0 {
        lemma_bits_of_len(v / 2, (n - 1) as nat);
    }
}

pub broadcast proof fn lemma_bits_val_bound(s: Seq<bool>)
    ensures
        #[trigger] bits_val(s) < pow2(s.len()),
    decreases s.len(),
{
    if s.len() > 0 {
        lemma_bits_val_bound(s.drop_last());
    }
}

pub proof fn lemma_pow2_mono(i: nat, j: nat)
    requires
        i <= j,
    ensures
        pow2(i) <= pow2(j),
    decreases j,
{
    if i < j {
        lemma_pow2_mono(i, (j - 1) as nat);
    }
}

/// The handful of powers of two the codec's widths use.
pub proof fn lemma_pow2_values()
    ensures
        pow2(1) == 2,
        pow2(2) == 4,
        pow2(3) == 8,
        pow2(4) == 16,
        pow2(6) == 64,
        pow2(8) == 256,
        pow2(14) == 0x4000,
        pow2(16) == 0x10000,
        pow2(31) == 0x80000000,
        pow2(32) == 0x100000000,
{
    reveal_with_fuel(pow2, 33);
}

/// Decoding inverts encoding: the value of the width-`n` encoding of
/// `v` is `v` itself, provided `v` fits in `n` bits.
pub proof fn lemma_bits_val_of(v: nat, n: nat)
    requires
        v < pow2(n),
    ensures
        bits_val(bits_of(v, n)) == v,
    decreases n,
{
    broadcast use lemma_bits_of_len;

    if n > 0 {
        lemma_bits_val_of(v / 2, (n - 1) as nat);
        assert(bits_of(v, n).drop_last() =~= bits_of(v / 2, (n - 1) as nat));
    }
}

/// The value of a concatenation: the left part is shifted left by the
/// width of the right part.
pub proof fn lemma_bits_val_append(a: Seq<bool>, b: Seq<bool>)
    ensures
        bits_val(a + b) == bits_val(a) * pow2(b.len()) + bits_val(b),
    decreases b.len(),
{
    if b.len() == 0 {
        assert(a + b =~= a);
        assert(pow2(0) == 1);
        assert(bits_val(a) * 1 == bits_val(a)) by (nonlinear_arith);
        assert(bits_val(a + b) == bits_val(a) * pow2(b.len()) + bits_val(b));
    } else {
        lemma_bits_val_append(a, b.drop_last());
        assert((a + b).drop_last() =~= a + b.drop_last());
        assert(bits_val(a + b) == 2 * bits_val(a + b.drop_last()) + (if b.last() {
            1nat
        } else {
            0nat
        }));
        assert(bits_val(b) == 2 * bits_val(b.drop_last()) + (if b.last() {
            1nat
        } else {
            0nat
        }));
        let x = bits_val(a);
        let y = pow2(b.drop_last().len());
        assert(pow2(b.len()) == 2 * y);
        assert(x * (2 * y) == 2 * (x * y)) by (nonlinear_arith);
        assert(bits_val(a + b) == 2 * (x * y + bits_val(b.drop_last())) + (if b.last() {
            1nat
        } else {
            0nat
        }));
        assert(bits_val(a + b) == bits_val(a) * pow2(b.len()) + bits_val(b));
    }
}

pub broadcast proof fn lemma_bytes_bits_len(bs: Seq<u8>)
    ensures
        (#[trigger] bytes_bits(bs)).len() == 8 * bs.len(),
    decreases bs.len(),
{
    broadcast use lemma_bits_of_len;

    if bs.len() > 0 {
        lemma_bytes_bits_len(bs.skip(1));
    }
}

/// Appending one byte appends its eight bits.
pub proof fn lemma_bytes_bits_push(bs: Seq<u8>, b: u8)
    ensures
        bytes_bits(bs.push(b)) == bytes_bits(bs) + byte_bits(b),
    decreases bs.len(),
{
    if bs.len() == 0 {
        assert(bs.push(b).skip(1) =~= Seq::<u8>::empty());
        assert(bs.push(b)[0] == b);
        assert(bytes_bits(Seq::<u8>::empty()) == Seq::<bool>::empty());
        assert(bytes_bits(bs.push(b)) == byte_bits(b) + bytes_bits(bs.push(b).skip(1)));
        assert(byte_bits(b) + Seq::<bool>::empty() =~= byte_bits(b));
        assert(bytes_bits(bs) + byte_bits(b) =~= byte_bits(b));
    } else {
        lemma_bytes_bits_push(bs.skip(1), b);
        assert(bs.push(b).skip(1) =~= bs.skip(1).push(b));
        assert(byte_bits(bs[0]) + (bytes_bits(bs.skip(1)) + byte_bits(b)) =~= (byte_bits(bs[0])
            + bytes_bits(bs.skip(1))) + byte_bits(b));
    }
}

/// The value of a single bit.
pub proof fn lemma_bits_val_single(t: Seq<bool>)
    requires
        t.len() == 1,
    ensures
        bits_val(t) == (if t[0] {
            1nat
        } else {
            0nat
        }),
{
    assert(t.drop_last() =~= Seq::<bool>::empty());
    assert(bits_val(Seq::<bool>::empty()) == 0);
    assert(t.last() == t[0]);
}

/// Reading bytes back out of their bits yields the original bytes.
pub proof fn lemma_bytes_of_bits_of_bytes(bs: Seq<u8>)
    ensures
        bytes_of_bits(bytes_bits(bs)) == bs,
    decreases bs.len(),
{
    broadcast use lemma_bytes_bits_len;

    lemma_pow2_values();
    if bs.len() == 0 {
        assert(bytes_of_bits(bytes_bits(bs)) =~= bs);
    } else {
        lemma_bytes_of_bits_of_bytes(bs.skip(1));
        let s = bytes_bits(bs);
        assert forall|j: int| 0 <= j < bs.len() implies bits_val(s.subrange(8 * j, 8 * j + 8))
            == bs[j] as nat by {
            if j == 0 {
                assert(s.subrange(0, 8) =~= byte_bits(bs[0]));
                lemma_bits_val_of(bs[0] as nat, 8);
            } else {
                assert(s.subrange(8 * j, 8 * j + 8) =~= bytes_bits(bs.skip(1)).subrange(
                    8 * (j - 1),
                    8 * (j - 1) + 8,
                ));
                lemma_bits_val_bound(s.subrange(8 * j, 8 * j + 8));
                assert(bytes_of_bits(bytes_bits(bs.skip(1)))[j - 1] == bs.skip(1)[j - 1]);
            }
        }
        assert(bytes_of_bits(s) =~= bs);
    }
}

/// A sequence of bits consumed strictly from the front; every read
/// advances the position and never looks back.
pub struct BitCursor {
    pub data: Vec<bool>,
    pub pos: usize,
}

impl BitCursor {
    /// The cursor's position never passes the end of its data.
    pub open spec fn wf(self) -> bool {
        self.pos <= self.data@.len()
    }

    /// Every bit the cursor was created over, consumed or not.
    pub open spec fn all_bits(self) -> Seq<bool> {
        self.data@
    }

    /// The bits that have not been consumed yet.
    pub open spec fn remaining(self) -> Seq<bool> {
        self.data@.skip(self.pos as int)
    }

    /// How many bits have been consumed.
    pub open spec fn position(self) -> int {
        self.pos as int
    }

    pub fn new(data: Vec<bool>) -> (r: BitCursor)
        ensures
            r.wf(),
            r.all_bits() == data@,
            r.remaining() == data@,
            r.position() == 0,
    {
        let r = BitCursor { data, pos: 0 };
        proof {
            assert(r.remaining() =~= r.data@);
        }
        r
    }

    /// A cursor over `data` that has already consumed `pos` bits.
    pub fn at_position(data: Vec<bool>, pos: usize) -> (r: BitCursor)
        requires
            pos <= data@.len(),
        ensures
            r.wf(),
            r.all_bits() == data@,
            r.position() == pos,
    {
        BitCursor { data, pos }
    }

    pub fn remaining_len(&self) -> (n: usize)
        requires
            self.wf(),
        ensures
            n == self.remaining().len(),
    {
        self.data.len() - self.pos
    }

    /// A fresh copy of the bits not yet consumed.
    pub fn remaining_vec(&self) -> (r: Vec<bool>)
        requires
            self.wf(),
        ensures
            r@ == self.remaining(),
    {
        let mut out: Vec<bool> = Vec::new();
        let mut i: usize = self.pos;
        while i < self.data.len()
            invariant
                self.wf(),
                self.pos <= i <= self.data@.len(),
                out@ == self.data@.subrange(self.pos as int, i as int),
            decreases self.data@.len() - i,
        {
            out.push(self.data[i]);
            proof {
                assert(self.data@.subrange(self.pos as int, i as int).push(self.data@[i as int])
                    =~= self.data@.subrange(self.pos as int, i + 1));
            }
            i = i + 1;
        }
        proof {
            assert(self.data@.subrange(self.pos as int, self.data@.len() as int)
                =~= self.remaining());
        }
        out
    }

    /// Consume `width` bits and return their value, most-significant
    /// bit first; fail without consuming anything if fewer remain.
    pub fn read_uint(&mut self, width: usize) -> (r: Result<u32, MDNSError>)
        requires
            old(self).wf(),
            width <= 32,
        ensures
            final(self).wf(),
            final(self).all_bits() == old(self).all_bits(),
            match r {
                Ok(v) => {
                    &&& old(self).remaining().len() >= width
                    &&& v as nat == bits_val(old(self).remaining().take(width as int))
                    &&& final(self).position() == old(self).position() + width
                },
                Err(e) => {
                    &&& e == MDNSError::InsufficientBits
                    &&& old(self).remaining().len() < width
                    &&& final(self).position() == old(self).position()
                },
            },
    {
        if self.data.len() - self.pos < width {
            return Err(MDNSError::InsufficientBits);
        }
        let total = self.data.len();
        let ghost rem0: Seq<bool> = self.remaining();
        let ghost pos0: int = self.pos as int;
        let mut acc: u32 = 0;
        let mut i: usize = 0;
        while i < width
            invariant
                self.wf(),
                i <= width,
                width <= 32,
                width <= rem0.len(),
                self.data@ == old(self).data@,
                rem0 == old(self).remaining(),
                pos0 == old(self).position(),
                self.data@.len() == total,
                pos0 + width <= total,
                self.pos == pos0 + i,
                acc as nat == bits_val(rem0.take(i as int)),
            decreases width - i,
        {
            proof {
                lemma_bits_val_bound(rem0.take(i as int));
                lemma_pow2_mono(i as nat, 31);
                lemma_pow2_values();
            }
            let b = self.data[self.pos];
            proof {
                assert(rem0.take(i + 1).drop_last() =~= rem0.take(i as int));
                assert(rem0.take(i + 1).last() == rem0[i as int]);
                assert(rem0[i as int] == self.data@[pos0 + i]);
            }
            acc = acc * 2 + (if b {
                1
            } else {
                0
            });
            self.pos = self.pos + 1;
            i = i + 1;
        }
        proof {
            assert(rem0.take(width as int) =~= rem0.take(width as int));
        }
        Ok(acc)
    }

    /// Consume `8 * count` bits as `count` bytes; fail without
    /// consuming anything if fewer remain.
    pub fn read_bytes(&mut self, count: usize) -> (r: Result<Vec<u8>, MDNSError>)
        requires
            old(self).wf(),
            count <= 0x10000,
        ensures
            final(self).wf(),
            final(self).all_bits() == old(self).all_bits(),
            match r {
                Ok(v) => {
                    &&& old(self).remaining().len() >= 8 * count
                    &&& v@ == bytes_of_bits(old(self).remaining().take(8 * count as int))
                    &&& v@.len() == count
                    &&& final(self).position() == old(self).position() + 8 * count
                },
                Err(e) => {
                    &&& e == MDNSError::InsufficientBits
                    &&& old(self).remaining().len() < 8 * count
                    &&& final(self).position() == old(self).position()
                },
            },
    {
        if (self.data.len() - self.pos) / 8 < count {
            return Err(MDNSError::InsufficientBits);
        }
        let ghost rem0: Seq<bool> = self.remaining();
        let ghost pos0: int = self.pos as int;
        let mut out: Vec<u8> = Vec::new();
        let mut i: usize = 0;
        while i < count
            invariant
                self.wf(),
                i <= count,
                count <= 0x10000,
                8 * count <= rem0.len(),
                self.data@ == old(self).data@,
                rem0 == old(self).remaining(),
                pos0 == old(self).position(),
                self.pos == pos0 + 8 * i,
                out@.len() == i,
                forall|j: int|
                    0 <= j < i ==> out@[j] as nat == bits_val(rem0.subrange(8 * j, 8 * j + 8)),
            decreases count - i,
        {
            proof {
                assert(self.remaining() =~= rem0.skip(8 * i));
            }
            let ghost pre = *self;
            let r = self.read_uint(8);
            let v = match r {
                Ok(v) => v,
                Err(_) => {
                    // Unreachable: at least `8 * (count - i)` bits remain.
                    return Err(MDNSError::InsufficientBits);
                },
            };
            proof {
                assert(pre.remaining().take(8) =~= rem0.subrange(8 * i, 8 * i + 8));
                lemma_bits_val_bound(rem0.subrange(8 * i, 8 * i + 8));
                lemma_pow2_values();
                assert(v < 256);
            }
            out.push(v as u8);
            i = i + 1;
        }
        proof {
            assert forall|j: int| 0 <= j < count implies bytes_of_bits(
                rem0.take(8 * count as int),
            )[j] == out@[j] by {
                assert(rem0.take(8 * count as int).subrange(8 * j, 8 * j + 8) =~= rem0.subrange(
                    8 * j,
                    8 * j + 8,
                ));
            }
            assert(out@ =~= bytes_of_bits(rem0.take(8 * count as int)));
        }
        Ok(out)
    }
}

/// Append the width-`width` encoding of `v` to `out`,
/// most-significant bit first.
pub fn push_uint(out: &mut Vec<bool>, v: u32, width: usize)
    requires
        width <= 32,
        (v as nat) < pow2(width as nat),
    ensures
        final(out)@ == old(out)@ + bits_of(v as nat, width as nat),
    decreases width,
{
    if width == 0 {
        proof {
            assert(old(out)@ + bits_of(v as nat, 0) =~= old(out)@);
        }
    } else {
        push_uint(out, v / 2, width - 1);
        out.push(v % 2 == 1);
        proof {
            assert((old(out)@ + bits_of((v / 2) as nat, (width - 1) as nat)).push(v as nat % 2 == 1)
                =~= old(out)@ + bits_of(v as nat, width as nat));
        }
    }
}

/// Append the bits of every byte of `bs` to `out`.
pub fn push_bytes(out: &mut Vec<bool>, bs: &Vec<u8>)
    ensures
        final(out)@ == old(out)@ + bytes_bits(bs@),
{
    let mut i: usize = 0;
    proof {
        assert(old(out)@ + bytes_bits(bs@.take(0)) =~= old(out)@);
    }
    while i < bs.len()
        invariant
            i <= bs@.len(),
            out@ == old(out)@ + bytes_bits(bs@.take(i as int)),
        decreases bs@.len() - i,
    {
        proof {
            lemma_pow2_values();
        }
        push_uint(out, bs[i] as u32, 8);
        proof {
            lemma_bytes_bits_push(bs@.take(i as int), bs@[i as int]);
            assert(bs@.take(i as int).push(bs@[i as int]) =~= bs@.take(i + 1));
            assert((old(out)@ + bytes_bits(bs@.take(i as int))) + byte_bits(bs@[i as int]) =~= old(
                out,
            )@ + bytes_bits(bs@.take(i + 1)));
        }
        i = i + 1;
    }
    proof {
        assert(bs@.take(bs@.len() as int) =~= bs@);
    }
}

/// A fresh copy of a bit buffer.
pub fn copy_bits(v: &Vec<bool>) -> (r: Vec<bool>)
    ensures
        r@ == v@,
{
    let mut out: Vec<bool> = Vec::new();
    let mut i: usize = 0;
    while i < v.len()
        invariant
            i <= v@.len(),
            out@ == v@.take(i as int),
        decreases v@.len() - i,
    {
        out.push(v[i]);
        proof {
            assert(v@.take(i as int).push(v@[i as int]) =~= v@.take(i + 1));
        }
        i = i + 1;
    }
    proof {
        assert(v@.take(v@.len() as int) =~= v@);
    }
    out
}

/// A fresh copy of a byte buffer.
pub fn copy_bytes(v: &Vec<u8>) -> (r: Vec<u8>)
    ensures
        r@ == v@,
{
    let mut out: Vec<u8> = Vec::new();
    let mut i: usize = 0;
    while i < v.len()
        invariant
            i <= v@.len(),
            out@ == v@.take(i as int),
        decreases v@.len() - i,
    {
        out.push(v[i]);
        proof {
            assert(v@.take(i as int).push(v@[i as int]) =~= v@.take(i + 1));
        }
        i = i + 1;
    }
    proof {
        assert(v@.take(v@.len() as int) =~= v@);
    }
    out
}

/// Turn a datagram's bytes into the bit sequence the cursor reads.
pub fn bytes_to_bits(bs: &Vec<u8>) -> (r: Vec<bool>)
    ensures
        r@ == bytes_bits(bs@),
{
    let mut out: Vec<bool> = Vec::new();
    push_bytes(&mut out, bs);
    proof {
        assert(Seq::<bool>::empty() + bytes_bits(bs@) =~= bytes_bits(bs@));
    }
    out
}

/// Turn a whole bit buffer back into bytes; the buffer must hold a
/// whole number of bytes.
pub fn bits_to_bytes(bits: &Vec<bool>) -> (r: Vec<u8>)
    requires
        bits@.len() % 8 == 0,
        bits@.len() <= 8 * 0x10000,
    ensures
        r@ == bytes_of_bits(bits@),
{
    let count = bits.len() / 8;
    let mut c = BitCursor::new(copy_bits(bits));
    let r = c.read_bytes(count);
    match r {
        Ok(v) => {
            proof {
                assert(bits@.take(8 * count as int) =~= bits@);
            }
            v
        },
        Err(_) => {
            // Unreachable: the cursor holds exactly `8 * count` bits.
            proof {
                assert(false);
            }
            Vec::new()
        },
    }
}

} // verus!
