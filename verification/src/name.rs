//! The domain-name codec: label sequences and compression pointers.
//!
//! On the wire a name is a run of length-prefixed labels ended either
//! by a zero length byte (a complete, literal name) or by a two-byte
//! compression pointer whose low 14 bits are a byte offset into the
//! datagram.  The first structural pass never dereferences a pointer:
//! it only records the target offset and leaves the name pending, so
//! each byte of the datagram is touched at most once.

use vstd::prelude::*;

use crate::bits::{
    bits_val, byte_bits, bytes_bits, bytes_of_bits, lemma_bits_val_append, lemma_bits_val_bound,
    lemma_bits_val_of, lemma_bytes_bits_len, lemma_bits_of_len,
    lemma_pow2_values, push_bytes, push_uint, BitCursor,
};
use crate::error::MDNSError;

verus! {

/// The mathematical value of a domain name: the labels decoded so far,
/// and the compression-pointer target still to be resolved, if any.
pub ghost struct NameSpec {
    pub labels: Seq<Seq<u8>>,
    pub pending: Option<int>,
}

/// Every label carries between 1 and 63 bytes; the empty label is
/// reserved for the terminator and longer ones cannot be encoded.
pub open spec fn labels_wf(ls: Seq<Seq<u8>>) -> bool {
    forall|i: int| 0 <= i < ls.len() ==> 1 <= (#[trigger] ls[i]).len() <= 63
}

/// Well-formed label sequences concatenate to a well-formed one.
pub proof fn lemma_labels_wf_concat(a: Seq<Seq<u8>>, b: Seq<Seq<u8>>)
    requires
        labels_wf(a),
        labels_wf(b),
    ensures
        labels_wf(a + b),
{
    assert forall|i: int| 0 <= i < (a + b).len() implies 1 <= (#[trigger] (a + b)[i]).len() <= 63 by {
        if i < a.len() {
            assert((a + b)[i] == a[i]);
        } else {
            assert((a + b)[i] == b[i - a.len()]);
        }
    }
}

impl NameSpec {
    /// A resolved name has a concrete label sequence and no pending
    /// pointer; only resolved names can be encoded.
    pub open spec fn is_resolved(self) -> bool {
        self.pending is None
    }

    pub open spec fn wf(self) -> bool {
        labels_wf(self.labels)
    }
}

/// A domain name as the decoder holds it: literal labels, plus the
/// byte offset of a pending compression pointer when the wire form
/// ended in one.
#[derive(Debug, Clone, PartialEq, Eq)]
pub struct DomainName {
    pub labels: Vec<Vec<u8>>,
    pub pending: Option<u16>,
}

/// The mathematical value of an executable label sequence.
pub open spec fn labels_view(v: Seq<Vec<u8>>) -> Seq<Seq<u8>> {
    Seq::new(v.len(), |i: int| v[i]@)
}

impl View for DomainName {
    type V = NameSpec;

    open spec fn view(&self) -> NameSpec {
        NameSpec {
            labels: labels_view(self.labels@),
            pending: match self.pending {
                Some(p) => Some(p as int),
                None => None,
            },
        }
    }
}

impl DomainName {
    pub open spec fn wf(self) -> bool {
        self@.wf()
    }

    /// A resolved name made of the given labels; rejected as
    /// `InvalidEncoding` exactly when some label is empty or longer
    /// than 63 bytes.
    pub fn from_labels(labels: Vec<Vec<u8>>) -> (r: Result<DomainName, MDNSError>)
        ensures
            match r {
                Ok(n) => {
                    &&& labels_wf(labels_view(labels@))
                    &&& n@ == (NameSpec { labels: labels_view(labels@), pending: None::<int> })
                    &&& n.wf()
                },
                Err(e) => e == MDNSError::InvalidEncoding && !labels_wf(labels_view(labels@)),
            },
    {
        let mut i: usize = 0;
        while i < labels.len()
            invariant
                i <= labels@.len(),
                forall|j: int|
                    0 <= j < i ==> 1 <= (#[trigger] labels_view(labels@)[j]).len() <= 63,
            decreases labels@.len() - i,
        {
            if labels[i].len() < 1 || labels[i].len() > 63 {
                proof {
                    assert(labels_view(labels@)[i as int].len() == labels@[i as int]@.len());
                }
                return Err(MDNSError::InvalidEncoding);
            }
            i = i + 1;
        }
        Ok(DomainName { labels, pending: None })
    }

}

/// What decoding a name from the front of `s` yields: the name (its
/// labels, and its pending pointer target if it ended in one) and the
/// number of bits consumed; or the first error.
pub open spec fn parse_name(s: Seq<bool>) -> Result<(NameSpec, int), MDNSError>
    decreases s.len(),
{
    if s.len() < 8 {
        Err(MDNSError::InsufficientBits)
    } else {
        let b = bits_val(s.take(8));
        if b == 0 {
            Ok((NameSpec { labels: Seq::empty(), pending: None }, 8))
        } else if b < 64 {
            if s.len() < 8 + 8 * b {
                Err(MDNSError::InsufficientBits)
            } else {
                let label = bytes_of_bits(s.subrange(8, 8 + 8 * (b as int)));
                match parse_name(s.skip(8 + 8 * (b as int))) {
                    Err(e) => Err(e),
                    Ok((rest, c)) => Ok(
                        (
                            NameSpec { labels: seq![label] + rest.labels, pending: rest.pending },
                            8 + 8 * b + c,
                        ),
                    ),
                }
            }
        } else if b >= 192 {
            if s.len() < 16 {
                Err(MDNSError::InsufficientBits)
            } else {
                Ok(
                    (
                        NameSpec {
                            labels: Seq::empty(),
                            pending: Some(bits_val(s.take(16)) - 0xC000),
                        },
                        16,
                    ),
                )
            }
        } else {
            Err(MDNSError::InvalidEncoding)
        }
    }
}

/// The literal wire form of a label sequence: each label length-
/// prefixed, in order.
pub open spec fn labels_bits(ls: Seq<Seq<u8>>) -> Seq<bool>
    decreases ls.len(),
{
    if ls.len() == 0 {
        Seq::empty()
    } else {
        byte_bits(ls[0].len() as u8) + bytes_bits(ls[0]) + labels_bits(ls.skip(1))
    }
}

/// The full literal wire form of a resolved name: its labels followed
/// by the zero terminator.  Encoding never emits compression.
pub open spec fn name_bits(n: NameSpec) -> Seq<bool> {
    labels_bits(n.labels) + byte_bits(0)
}

/// Composing a step of the name decoder: prepend the labels already
/// consumed and account for the bits they took.
pub open spec fn name_step(acc: Seq<Seq<u8>>, used: int, r: Result<(NameSpec, int), MDNSError>) -> Result<
    (NameSpec, int),
    MDNSError,
> {
    match r {
        Err(e) => Err(e),
        Ok((n, c)) => Ok((NameSpec { labels: acc + n.labels, pending: n.pending }, used + c)),
    }
}

impl DomainName {
    /// Decode a name from the cursor.  Stops at the terminator or at
    /// the first compression pointer, which is recorded, never
    /// followed.
    pub fn unpack(cursor: &mut BitCursor) -> (r: Result<DomainName, MDNSError>)
        requires
            old(cursor).wf(),
        ensures
            final(cursor).wf(),
            final(cursor).all_bits() == old(cursor).all_bits(),
            final(cursor).position() >= old(cursor).position(),
            match r {
                Ok(n) => {
                    &&& parse_name(old(cursor).remaining()) == Ok::<_, MDNSError>(
                        (n@, final(cursor).position() - old(cursor).position()),
                    )
                    &&& n.wf()
                    &&& final(cursor).remaining() == old(cursor).remaining().skip(
                        final(cursor).position() - old(cursor).position(),
                    )
                },
                Err(e) => parse_name(old(cursor).remaining()) == Err::<(NameSpec, int), _>(e),
            },
    {
        let ghost rem0: Seq<bool> = old(cursor).remaining();
        let ghost pos0: int = old(cursor).position();
        let mut labels: Vec<Vec<u8>> = Vec::new();
        proof {
            assert(labels_view(labels@) =~= Seq::<Seq<u8>>::empty());
        }
        loop
            invariant
                cursor.wf(),
                cursor.all_bits() == old(cursor).all_bits(),
                rem0 == old(cursor).remaining(),
                pos0 == old(cursor).position(),
                cursor.position() >= pos0,
                cursor.remaining() == rem0.skip(cursor.position() - pos0),
                parse_name(rem0) == name_step(
                    labels_view(labels@),
                    cursor.position() - pos0,
                    parse_name(cursor.remaining()),
                ),
                forall|i: int|
                    0 <= i < labels@.len() ==> 1 <= (#[trigger] labels@[i])@.len() <= 63,
            decreases cursor.remaining().len(),
        {
            let ghost rem_cur: Seq<bool> = cursor.remaining();
            let ghost used: int = cursor.position() - pos0;
            let ghost acc: Seq<Seq<u8>> = labels_view(labels@);
            let b = match cursor.read_uint(8) {
                Ok(v) => v,
                Err(e) => {
                    return Err(e);
                },
            };
            proof {
                lemma_bits_val_bound(rem_cur.take(8));
                lemma_pow2_values();
            }
            if b == 0 {
                let n = DomainName { labels, pending: None };
                proof {
                    assert(acc + Seq::<Seq<u8>>::empty() =~= acc);
                    assert(cursor.remaining() =~= rem0.skip(cursor.position() - pos0));
                }
                return Ok(n);
            } else if b < 64 {
                let ghost pre = *cursor;
                let lab = match cursor.read_bytes(b as usize) {
                    Ok(v) => v,
                    Err(e) => {
                        proof {
                            assert(pre.remaining() =~= rem_cur.skip(8));
                            assert(rem_cur.len() < 8 + 8 * (b as int));
                        }
                        return Err(e);
                    },
                };
                proof {
                    assert(pre.remaining() =~= rem_cur.skip(8));
                    assert(pre.remaining().take(8 * (b as int)) =~= rem_cur.subrange(
                        8,
                        8 + 8 * (b as int),
                    ));
                    assert(cursor.remaining() =~= rem_cur.skip(8 + 8 * (b as int)));
                    assert(cursor.remaining() =~= rem0.skip(cursor.position() - pos0));
                }
                labels.push(lab);
                proof {
                    // One decoder step: the new accumulator absorbs this label.
                    assert(labels_view(labels@) =~= acc.push(lab@));
                    let rest = parse_name(rem_cur.skip(8 + 8 * (b as int)));
                    match rest {
                        Err(e) => {},
                        Ok((n2, c2)) => {
                            assert(acc + (seq![lab@] + n2.labels) =~= acc.push(lab@) + n2.labels);
                        },
                    }
                }
            } else if b >= 192 {
                let ghost pre = *cursor;
                let b2 = match cursor.read_uint(8) {
                    Ok(v) => v,
                    Err(e) => {
                        proof {
                            assert(pre.remaining() =~= rem_cur.skip(8));
                            assert(rem_cur.len() < 16);
                        }
                        return Err(e);
                    },
                };
                proof {
                    assert(pre.remaining() =~= rem_cur.skip(8));
                    assert(pre.remaining().take(8) =~= rem_cur.subrange(8, 16));
                    lemma_bits_val_append(rem_cur.take(8), rem_cur.subrange(8, 16));
                    assert(rem_cur.take(8) + rem_cur.subrange(8, 16) =~= rem_cur.take(16));
                    lemma_bits_val_bound(rem_cur.subrange(8, 16));
                    assert(bits_val(rem_cur.take(16)) == (b as nat) * 256 + b2 as nat);
                }
                let off: u32 = (b - 192) * 256 + b2;
                let n = DomainName { labels, pending: Some(off as u16) };
                proof {
                    assert(acc + Seq::<Seq<u8>>::empty() =~= acc);
                    assert(n@.pending == Some(bits_val(rem_cur.take(16)) - 0xC000));
                }
                return Ok(n);
            } else {
                return Err(MDNSError::InvalidEncoding);
            }
        }
    }

    /// Append the literal, uncompressed wire form of a resolved name.
    pub fn pack(&self, out: &mut Vec<bool>)
        requires
            self.wf(),
            self@.is_resolved(),
        ensures
            final(out)@ == old(out)@ + name_bits(self@),
    {
        let ghost ls: Seq<Seq<u8>> = self@.labels;
        let mut i: usize = 0;
        proof {
            lemma_labels_bits_take_step_zero(ls);
        }
        while i < self.labels.len()
            invariant
                self.wf(),
                ls == self@.labels,
                i <= self.labels@.len(),
                out@ == old(out)@ + labels_bits(ls.take(i as int)),
            decreases self.labels@.len() - i,
        {
            proof {
                lemma_pow2_values();
                assert(ls[i as int] == self.labels@[i as int]@);
                assert(1 <= ls[i as int].len() <= 63);
            }
            let lab = &self.labels[i];
            push_uint(out, lab.len() as u32, 8);
            push_bytes(out, lab);
            proof {
                lemma_labels_bits_snoc(ls.take(i as int), ls[i as int]);
                assert(ls.take(i as int).push(ls[i as int]) =~= ls.take(i + 1));
                assert(ls[i as int] == lab@);
                assert(((old(out)@ + labels_bits(ls.take(i as int))) + byte_bits(lab@.len() as u8))
                    + bytes_bits(lab@) =~= old(out)@ + (labels_bits(ls.take(i as int)) + (byte_bits(
                    lab@.len() as u8,
                ) + bytes_bits(lab@))));
            }
            i = i + 1;
        }
        proof {
            assert(ls.take(ls.len() as int) =~= ls);
            lemma_pow2_values();
        }
        push_uint(out, 0, 8);
        proof {
            assert((old(out)@ + labels_bits(ls)) + byte_bits(0) =~= old(out)@ + name_bits(self@));
        }
    }
}

proof fn lemma_labels_bits_take_step_zero(ls: Seq<Seq<u8>>)
    ensures
        labels_bits(ls.take(0)) == Seq::<bool>::empty(),
{
    assert(ls.take(0) =~= Seq::<Seq<u8>>::empty());
}

/// Appending one label to a sequence appends its wire form.
proof fn lemma_labels_bits_snoc(ls: Seq<Seq<u8>>, l: Seq<u8>)
    ensures
        labels_bits(ls.push(l)) == labels_bits(ls) + (byte_bits(l.len() as u8) + bytes_bits(l)),
    decreases ls.len(),
{
    if ls.len() == 0 {
        assert(ls.push(l)[0] == l);
        assert(ls.push(l).skip(1) =~= Seq::<Seq<u8>>::empty());
        assert(labels_bits(Seq::<Seq<u8>>::empty()) == Seq::<bool>::empty());
        assert(labels_bits(ls.push(l)) == byte_bits(l.len() as u8) + bytes_bits(l) + labels_bits(
            ls.push(l).skip(1),
        ));
        assert(byte_bits(l.len() as u8) + bytes_bits(l) + Seq::<bool>::empty() =~= byte_bits(
            l.len() as u8,
        ) + bytes_bits(l));
        assert(labels_bits(ls) + (byte_bits(l.len() as u8) + bytes_bits(l)) =~= byte_bits(
            l.len() as u8,
        ) + bytes_bits(l));
    } else {
        lemma_labels_bits_snoc(ls.skip(1), l);
        assert(ls.push(l).skip(1) =~= ls.skip(1).push(l));
        assert(ls.push(l)[0] == ls[0]);
        assert(byte_bits(ls[0].len() as u8) + bytes_bits(ls[0]) + (labels_bits(ls.skip(1)) + (
        byte_bits(l.len() as u8) + bytes_bits(l))) =~= (byte_bits(ls[0].len() as u8) + bytes_bits(
            ls[0],
        ) + labels_bits(ls.skip(1))) + (byte_bits(l.len() as u8) + bytes_bits(l)));
    }
}

/// Decoding inverts encoding for names: parsing the literal wire form
/// of a resolved, well-formed name yields that name back, whatever
/// follows it in the stream.
pub proof fn lemma_parse_name_bits(n: NameSpec, rest: Seq<bool>)
    requires
        n.wf(),
        n.is_resolved(),
    ensures
        name_bits(n).len() % 8 == 0,
        parse_name(name_bits(n) + rest) == Ok::<_, MDNSError>((n, name_bits(n).len() as int)),
    decreases n.labels.len(),
{
    broadcast use lemma_bytes_bits_len, lemma_bits_of_len;

    lemma_pow2_values();
    let s = name_bits(n) + rest;
    if n.labels.len() == 0 {
        assert(labels_bits(n.labels) == Seq::<bool>::empty());
        assert(name_bits(n) =~= byte_bits(0));
        assert(s.take(8) =~= byte_bits(0));
        lemma_bits_val_of(0, 8);
        let parsed = parse_name(s);
        assert(parsed == Ok::<_, MDNSError>(
            (NameSpec { labels: Seq::<Seq<u8>>::empty(), pending: None }, 8int),
        ));
        assert(NameSpec { labels: Seq::<Seq<u8>>::empty(), pending: None } == n) by {
            assert(Seq::<Seq<u8>>::empty() =~= n.labels);
        }
    } else {
        let l0 = n.labels[0];
        let m = NameSpec { labels: n.labels.skip(1), pending: None };
        assert(m.wf()) by {
            assert(forall|i: int|
                0 <= i < m.labels.len() ==> m.labels[i] == n.labels[i + 1] && 1 <= (
                #[trigger] m.labels[i]).len() <= 63);
        }
        assert(labels_bits(n.labels) == byte_bits(l0.len() as u8) + bytes_bits(l0) + labels_bits(
            n.labels.skip(1),
        ));
        let blen = l0.len() as u8;
        assert(1 <= blen <= 63);
        assert(s.take(8) =~= byte_bits(blen));
        lemma_bits_val_of(blen as nat, 8);
        let b = bits_val(s.take(8));
        assert(b == blen as nat);
        let lb: int = 8 + 8 * (b as int);
        assert(s.len() >= lb);
        assert(s.subrange(8, lb) =~= bytes_bits(l0));
        crate::bits::lemma_bytes_of_bits_of_bytes(l0);
        assert(bytes_of_bits(s.subrange(8, lb)) == l0);
        lemma_parse_name_bits(m, rest);
        assert(s.skip(lb) =~= name_bits(m) + rest);
        let c = name_bits(m).len() as int;
        assert(parse_name(s.skip(lb)) == Ok::<_, MDNSError>((m, c)));
        assert(parse_name(s) == Ok::<_, MDNSError>(
            (NameSpec { labels: seq![l0] + m.labels, pending: None }, lb + c),
        ));
        assert(seq![l0] + m.labels =~= n.labels);
        assert(lb + c == name_bits(n).len());
    }
}

/// A fresh copy of a label sequence.
pub fn copy_labels(v: &Vec<Vec<u8>>) -> (r: Vec<Vec<u8>>)
    ensures
        labels_view(r@) == labels_view(v@),
        r@.len() == v@.len(),
{
    let mut out: Vec<Vec<u8>> = Vec::new();
    let mut i: usize = 0;
    while i < v.len()
        invariant
            i <= v@.len(),
            out@.len() == i,
            forall|j: int| 0 <= j < i ==> (#[trigger] out@[j])@ == v@[j]@,
        decreases v@.len() - i,
    {
        out.push(crate::bits::copy_bytes(&v[i]));
        i = i + 1;
    }
    proof {
        assert(labels_view(out@) =~= labels_view(v@));
    }
    out
}

} // verus!
