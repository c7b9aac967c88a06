//! A query: a domain name followed by a 16-bit query type and a
//! 16-bit query class.

use vstd::prelude::*;

use crate::bits::{bits_val, bits_of, lemma_bits_of_len, lemma_bits_val_bound, lemma_bits_val_of,
    lemma_pow2_values, push_uint, BitCursor};
use crate::error::MDNSError;
use crate::name::{name_bits, parse_name, DomainName, NameSpec};

verus! {

/// The mathematical value of a query.
pub ghost struct QuerySpec {
    pub name: NameSpec,
    pub qtype: u16,
    pub qclass: u16,
}

impl QuerySpec {
    pub open spec fn wf(self) -> bool {
        self.name.wf()
    }

    pub open spec fn is_resolved(self) -> bool {
        self.name.is_resolved()
    }
}

/// One question of an mDNS message.
#[derive(Debug, Clone, PartialEq, Eq)]
pub struct MDNSQuery {
    pub name: DomainName,
    pub qtype: u16,
    pub qclass: u16,
}

impl View for MDNSQuery {
    type V = QuerySpec;

    open spec fn view(&self) -> QuerySpec {
        QuerySpec { name: self.name@, qtype: self.qtype, qclass: self.qclass }
    }
}

impl MDNSQuery {
    pub open spec fn wf(self) -> bool {
        self@.wf()
    }
}

/// What decoding a query from the front of `s` yields: the query and
/// the bits consumed, or the first error.
pub open spec fn parse_query(s: Seq<bool>) -> Result<(QuerySpec, int), MDNSError> {
    match parse_name(s) {
        Err(e) => Err(e),
        Ok((n, c)) => if s.len() < c + 32 {
            Err(MDNSError::InsufficientBits)
        } else {
            Ok(
                (
                    QuerySpec {
                        name: n,
                        qtype: bits_val(s.subrange(c, c + 16)) as u16,
                        qclass: bits_val(s.subrange(c + 16, c + 32)) as u16,
                    },
                    c + 32,
                ),
            )
        },
    }
}

/// The wire form of a resolved query: its name, literal and
/// uncompressed, then type and class.
pub open spec fn query_bits(q: QuerySpec) -> Seq<bool> {
    name_bits(q.name) + bits_of(q.qtype as nat, 16) + bits_of(q.qclass as nat, 16)
}

impl MDNSQuery {
    /// Decode a query: its name (possibly left pending on a
    /// compression pointer), then the fixed fields in order.
    pub fn unpack(cursor: &mut BitCursor) -> (r: Result<MDNSQuery, MDNSError>)
        requires
            old(cursor).wf(),
        ensures
            final(cursor).wf(),
            final(cursor).all_bits() == old(cursor).all_bits(),
            final(cursor).position() >= old(cursor).position(),
            match r {
                Ok(q) => {
                    &&& parse_query(old(cursor).remaining()) == Ok::<_, MDNSError>(
                        (q@, final(cursor).position() - old(cursor).position()),
                    )
                    &&& q.wf()
                    &&& final(cursor).remaining() == old(cursor).remaining().skip(
                        final(cursor).position() - old(cursor).position(),
                    )
                },
                Err(e) => parse_query(old(cursor).remaining()) == Err::<(QuerySpec, int), _>(e),
            },
    {
        let ghost s: Seq<bool> = old(cursor).remaining();
        let name = match DomainName::unpack(cursor) {
            Ok(n) => n,
            Err(e) => {
                return Err(e);
            },
        };
        let ghost c: int = cursor.position() - old(cursor).position();
        let ghost pre1 = *cursor;
        let qtype = match cursor.read_uint(16) {
            Ok(v) => v,
            Err(e) => {
                return Err(e);
            },
        };
        proof {
            assert(pre1.remaining().take(16) =~= s.subrange(c, c + 16));
            assert(cursor.remaining() =~= pre1.remaining().skip(16));
            assert(pre1.remaining().skip(16) =~= s.skip(c + 16));
            lemma_bits_val_bound(s.subrange(c, c + 16));
            lemma_pow2_values();
        }
        let ghost pre2 = *cursor;
        let qclass = match cursor.read_uint(16) {
            Ok(v) => v,
            Err(e) => {
                proof {
                    assert(s.len() < c + 32);
                }
                return Err(e);
            },
        };
        proof {
            assert(pre2.remaining().take(16) =~= s.subrange(c + 16, c + 32));
            assert(cursor.remaining() =~= pre2.remaining().skip(16));
            assert(pre2.remaining().skip(16) =~= s.skip(c + 32));
            lemma_bits_val_bound(s.subrange(c + 16, c + 32));
            lemma_pow2_values();
        }
        Ok(MDNSQuery { name, qtype: qtype as u16, qclass: qclass as u16 })
    }

    /// Append the wire form of a resolved query; names are always
    /// written literally, never compressed.
    pub fn pack(&self, out: &mut Vec<bool>)
        requires
            self.wf(),
            self@.is_resolved(),
        ensures
            final(out)@ == old(out)@ + query_bits(self@),
    {
        proof {
            lemma_pow2_values();
        }
        self.name.pack(out);
        push_uint(out, self.qtype as u32, 16);
        push_uint(out, self.qclass as u32, 16);
        proof {
            assert(out@ =~= old(out)@ + query_bits(self@));
        }
    }
}

/// Decoding inverts encoding for queries.
pub proof fn lemma_parse_query_bits(q: QuerySpec, rest: Seq<bool>)
    requires
        q.wf(),
        q.is_resolved(),
    ensures
        query_bits(q).len() % 8 == 0,
        parse_query(query_bits(q) + rest) == Ok::<_, MDNSError>((q, query_bits(q).len() as int)),
{
    broadcast use lemma_bits_of_len;

    lemma_pow2_values();
    let s = query_bits(q) + rest;
    let tail = bits_of(q.qtype as nat, 16) + bits_of(q.qclass as nat, 16) + rest;
    assert(s =~= name_bits(q.name) + tail);
    crate::name::lemma_parse_name_bits(q.name, tail);
    let c = name_bits(q.name).len() as int;
    assert(parse_name(s) == Ok::<_, MDNSError>((q.name, c)));
    assert(s.subrange(c, c + 16) =~= bits_of(q.qtype as nat, 16));
    lemma_bits_val_of(q.qtype as nat, 16);
    assert(s.subrange(c + 16, c + 32) =~= bits_of(q.qclass as nat, 16));
    lemma_bits_val_of(q.qclass as nat, 16);
}

} // verus!
