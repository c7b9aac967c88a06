//! A resource record: a typed name/value binding carried in the
//! answer, authority and additional sections.
//!
//! The rdata payload is read as exactly `rdata length` bytes and kept
//! opaque at structural-decode time; type-specific interpretation is
//! deferred to the caller, since an embedded name only makes sense
//! once the whole datagram's resolve context exists.

use vstd::prelude::*;

use crate::bits::{bits_val, bits_of, bytes_bits, bytes_of_bits, copy_bytes, lemma_bits_of_len,
    lemma_bits_val_bound, lemma_bits_val_of, lemma_bytes_bits_len, lemma_pow2_values, push_bytes,
    push_uint, BitCursor};
use crate::error::MDNSError;
use crate::name::{copy_labels, name_bits, parse_name, DomainName, NameSpec};

verus! {

/// The record-type codes the codec's callers commonly query for.
/// The wire carries a bare 16-bit code, so records of other types
/// decode fine; this enumeration only names the usual ones.
#[derive(Clone, Copy, Debug, PartialEq, Eq, Structural)]
pub enum MDNSTYPE {
    A,
    NS,
    CNAME,
    SOA,
    PTR,
    MX,
    TXT,
    AAAA,
    SRV,
    ANY,
}

/// The 16-bit wire code of each named record type.
pub open spec fn type_code(t: MDNSTYPE) -> u16 {
    match t {
        MDNSTYPE::A => 1,
        MDNSTYPE::NS => 2,
        MDNSTYPE::CNAME => 5,
        MDNSTYPE::SOA => 6,
        MDNSTYPE::PTR => 12,
        MDNSTYPE::MX => 15,
        MDNSTYPE::TXT => 16,
        MDNSTYPE::AAAA => 28,
        MDNSTYPE::SRV => 33,
        MDNSTYPE::ANY => 255,
    }
}

impl MDNSTYPE {
    pub fn code(&self) -> (r: u16)
        ensures
            r == type_code(*self),
    {
        match self {
            MDNSTYPE::A => 1,
            MDNSTYPE::NS => 2,
            MDNSTYPE::CNAME => 5,
            MDNSTYPE::SOA => 6,
            MDNSTYPE::PTR => 12,
            MDNSTYPE::MX => 15,
            MDNSTYPE::TXT => 16,
            MDNSTYPE::AAAA => 28,
            MDNSTYPE::SRV => 33,
            MDNSTYPE::ANY => 255,
        }
    }
}

/// The mathematical value of a resource record.
pub ghost struct RecordSpec {
    pub name: NameSpec,
    pub rr_type: u16,
    pub rr_class: u16,
    pub ttl: u32,
    pub rdata: Seq<u8>,
}

impl RecordSpec {
    pub open spec fn wf(self) -> bool {
        self.name.wf() && self.rdata.len() <= 0xFFFF
    }

    pub open spec fn is_resolved(self) -> bool {
        self.name.is_resolved()
    }
}

/// One resource record of an mDNS message; rdata is held opaquely.
#[derive(Debug, Clone, PartialEq, Eq)]
pub struct MDNSResourceRecord {
    pub rr_name: DomainName,
    pub rr_type: u16,
    pub rr_class: u16,
    pub ttl: u32,
    pub rdata: Vec<u8>,
}

impl View for MDNSResourceRecord {
    type V = RecordSpec;

    open spec fn view(&self) -> RecordSpec {
        RecordSpec {
            name: self.rr_name@,
            rr_type: self.rr_type,
            rr_class: self.rr_class,
            ttl: self.ttl,
            rdata: self.rdata@,
        }
    }
}

impl MDNSResourceRecord {
    pub open spec fn wf(self) -> bool {
        self@.wf()
    }

    /// A fresh copy of this record.
    pub fn duplicate(&self) -> (r: MDNSResourceRecord)
        ensures
            r@ == self@,
    {
        let r = MDNSResourceRecord {
            rr_name: DomainName {
                labels: copy_labels(&self.rr_name.labels),
                pending: match self.rr_name.pending {
                    Some(p) => Some(p),
                    None => None,
                },
            },
            rr_type: self.rr_type,
            rr_class: self.rr_class,
            ttl: self.ttl,
            rdata: copy_bytes(&self.rdata),
        };
        r
    }
}

/// What decoding a resource record from the front of `s` yields: the
/// record and the bits consumed, or the first error.  The payload is
/// exactly `rdata length` bytes, stored opaquely.
pub open spec fn parse_record(s: Seq<bool>) -> Result<(RecordSpec, int), MDNSError> {
    match parse_name(s) {
        Err(e) => Err(e),
        Ok((n, c)) => if s.len() < c + 80 {
            Err(MDNSError::InsufficientBits)
        } else {
            let rdlen = bits_val(s.subrange(c + 64, c + 80));
            if s.len() < c + 80 + 8 * (rdlen as int) {
                Err(MDNSError::InsufficientBits)
            } else {
                Ok(
                    (
                        RecordSpec {
                            name: n,
                            rr_type: bits_val(s.subrange(c, c + 16)) as u16,
                            rr_class: bits_val(s.subrange(c + 16, c + 32)) as u16,
                            ttl: bits_val(s.subrange(c + 32, c + 64)) as u32,
                            rdata: bytes_of_bits(
                                s.subrange(c + 80, c + 80 + 8 * (rdlen as int)),
                            ),
                        },
                        c + 80 + 8 * rdlen,
                    ),
                )
            }
        },
    }
}

/// The wire form of a resolved record: literal name, fixed fields,
/// then the length-prefixed opaque payload.
pub open spec fn record_bits(r: RecordSpec) -> Seq<bool> {
    name_bits(r.name) + bits_of(r.rr_type as nat, 16) + bits_of(r.rr_class as nat, 16) + bits_of(
        r.ttl as nat,
        32,
    ) + bits_of(r.rdata.len() as nat, 16) + bytes_bits(r.rdata)
}

impl MDNSResourceRecord {
    /// Decode a record: its name (possibly pending), the fixed fields
    /// in declaration order, then exactly `rdata length` payload bytes.
    pub fn unpack(cursor: &mut BitCursor) -> (r: Result<MDNSResourceRecord, MDNSError>)
        requires
            old(cursor).wf(),
        ensures
            final(cursor).wf(),
            final(cursor).all_bits() == old(cursor).all_bits(),
            final(cursor).position() >= old(cursor).position(),
            match r {
                Ok(rec) => {
                    &&& parse_record(old(cursor).remaining()) == Ok::<_, MDNSError>(
                        (rec@, final(cursor).position() - old(cursor).position()),
                    )
                    &&& rec.wf()
                    &&& final(cursor).remaining() == old(cursor).remaining().skip(
                        final(cursor).position() - old(cursor).position(),
                    )
                },
                Err(e) => parse_record(old(cursor).remaining()) == Err::<(RecordSpec, int), _>(e),
            },
    {
        let ghost s: Seq<bool> = old(cursor).remaining();
        let rr_name = match DomainName::unpack(cursor) {
            Ok(n) => n,
            Err(e) => {
                return Err(e);
            },
        };
        let ghost c: int = cursor.position() - old(cursor).position();
        let ghost pre1 = *cursor;
        let rr_type = match cursor.read_uint(16) {
            Ok(v) => v,
            Err(e) => {
                return Err(e);
            },
        };
        proof {
            assert(pre1.remaining().take(16) =~= s.subrange(c, c + 16));
            assert(cursor.remaining() =~= pre1.remaining().skip(16));
            assert(pre1.remaining().skip(16) =~= s.skip(c + 16));
            lemma_bits_val_bound(s.subrange(c, c + 16));
            lemma_pow2_values();
        }
        let ghost pre2 = *cursor;
        let rr_class = match cursor.read_uint(16) {
            Ok(v) => v,
            Err(e) => {
                proof {
                    assert(s.len() < c + 80);
                }
                return Err(e);
            },
        };
        proof {
            assert(pre2.remaining().take(16) =~= s.subrange(c + 16, c + 32));
            assert(cursor.remaining() =~= pre2.remaining().skip(16));
            assert(pre2.remaining().skip(16) =~= s.skip(c + 32));
            lemma_bits_val_bound(s.subrange(c + 16, c + 32));
            lemma_pow2_values();
        }
        let ghost pre3 = *cursor;
        let ttl = match cursor.read_uint(32) {
            Ok(v) => v,
            Err(e) => {
                proof {
                    assert(s.len() < c + 80);
                }
                return Err(e);
            },
        };
        proof {
            assert(pre3.remaining().take(32) =~= s.subrange(c + 32, c + 64));
            assert(cursor.remaining() =~= pre3.remaining().skip(32));
            assert(pre3.remaining().skip(32) =~= s.skip(c + 64));
            lemma_bits_val_bound(s.subrange(c + 32, c + 64));
            lemma_pow2_values();
        }
        let ghost pre4 = *cursor;
        let rdlen = match cursor.read_uint(16) {
            Ok(v) => v,
            Err(e) => {
                proof {
                    assert(s.len() < c + 80);
                }
                return Err(e);
            },
        };
        proof {
            assert(pre4.remaining().take(16) =~= s.subrange(c + 64, c + 80));
            assert(cursor.remaining() =~= pre4.remaining().skip(16));
            assert(pre4.remaining().skip(16) =~= s.skip(c + 80));
            lemma_bits_val_bound(s.subrange(c + 64, c + 80));
            lemma_pow2_values();
        }
        let ghost pre5 = *cursor;
        let rdata = match cursor.read_bytes(rdlen as usize) {
            Ok(v) => v,
            Err(e) => {
                proof {
                    assert(s.len() < c + 80 + 8 * (rdlen as int));
                }
                return Err(e);
            },
        };
        proof {
            assert(pre5.remaining().take(8 * (rdlen as int)) =~= s.subrange(
                c + 80,
                c + 80 + 8 * (rdlen as int),
            ));
            assert(cursor.remaining() =~= pre5.remaining().skip(8 * (rdlen as int)));
            assert(pre5.remaining().skip(8 * (rdlen as int)) =~= s.skip(
                c + 80 + 8 * (rdlen as int),
            ));
        }
        Ok(
            MDNSResourceRecord {
                rr_name,
                rr_type: rr_type as u16,
                rr_class: rr_class as u16,
                ttl: ttl as u32,
                rdata,
            },
        )
    }

    /// Append the wire form of a resolved record; the name is written
    /// literally and the payload length prefix is the payload's real
    /// length.
    pub fn pack(&self, out: &mut Vec<bool>)
        requires
            self.wf(),
            self@.is_resolved(),
        ensures
            final(out)@ == old(out)@ + record_bits(self@),
    {
        proof {
            lemma_pow2_values();
        }
        self.rr_name.pack(out);
        push_uint(out, self.rr_type as u32, 16);
        push_uint(out, self.rr_class as u32, 16);
        push_uint(out, self.ttl, 32);
        push_uint(out, self.rdata.len() as u32, 16);
        push_bytes(out, &self.rdata);
        proof {
            assert(out@ =~= old(out)@ + record_bits(self@));
        }
    }
}

/// Decoding inverts encoding for records.
pub proof fn lemma_parse_record_bits(r: RecordSpec, rest: Seq<bool>)
    requires
        r.wf(),
        r.is_resolved(),
    ensures
        record_bits(r).len() % 8 == 0,
        parse_record(record_bits(r) + rest) == Ok::<_, MDNSError>((r, record_bits(r).len() as int)),
{
    broadcast use lemma_bits_of_len, lemma_bytes_bits_len;

    lemma_pow2_values();
    let s = record_bits(r) + rest;
    let tail = bits_of(r.rr_type as nat, 16) + bits_of(r.rr_class as nat, 16) + bits_of(
        r.ttl as nat,
        32,
    ) + bits_of(r.rdata.len() as nat, 16) + bytes_bits(r.rdata) + rest;
    assert(s =~= name_bits(r.name) + tail);
    crate::name::lemma_parse_name_bits(r.name, tail);
    let c = name_bits(r.name).len() as int;
    assert(parse_name(s) == Ok::<_, MDNSError>((r.name, c)));
    assert(s.subrange(c, c + 16) =~= bits_of(r.rr_type as nat, 16));
    lemma_bits_val_of(r.rr_type as nat, 16);
    assert(s.subrange(c + 16, c + 32) =~= bits_of(r.rr_class as nat, 16));
    lemma_bits_val_of(r.rr_class as nat, 16);
    assert(s.subrange(c + 32, c + 64) =~= bits_of(r.ttl as nat, 32));
    lemma_bits_val_of(r.ttl as nat, 32);
    assert(s.subrange(c + 64, c + 80) =~= bits_of(r.rdata.len() as nat, 16));
    lemma_bits_val_of(r.rdata.len() as nat, 16);
    let rdlen = r.rdata.len() as int;
    assert(s.subrange(c + 80, c + 80 + 8 * rdlen) =~= bytes_bits(r.rdata));
    crate::bits::lemma_bytes_of_bits_of_bytes(r.rdata);
    assert(record_bits(r).len() == c + 80 + 8 * rdlen);
}

} // verus!
