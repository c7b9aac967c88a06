//! Count-prefixed sections: decoding exactly N queries or records in
//! sequence, resolving every name of a section, and the section-level
//! pieces of the round-trip argument.

use vstd::prelude::*;

use crate::bits::BitCursor;
use crate::error::MDNSError;
use crate::query::{lemma_parse_query_bits, parse_query, query_bits, MDNSQuery, QuerySpec};
use crate::resolver::{cache_wf, spec_resolve_name, PointerCache};
use crate::resource_record::{
    lemma_parse_record_bits, parse_record, record_bits, MDNSResourceRecord, RecordSpec,
};

verus! {

/// The mathematical value of an executable query sequence.
pub open spec fn queries_view(v: Seq<MDNSQuery>) -> Seq<QuerySpec> {
    Seq::new(v.len(), |i: int| v[i]@)
}

/// The mathematical value of an executable record sequence.
pub open spec fn records_view(v: Seq<MDNSResourceRecord>) -> Seq<RecordSpec> {
    Seq::new(v.len(), |i: int| v[i]@)
}

pub open spec fn queries_wf(qs: Seq<QuerySpec>) -> bool {
    forall|i: int| 0 <= i < qs.len() ==> (#[trigger] qs[i]).wf()
}

pub open spec fn records_wf(rs: Seq<RecordSpec>) -> bool {
    forall|i: int| 0 <= i < rs.len() ==> (#[trigger] rs[i]).wf()
}

pub open spec fn queries_resolved(qs: Seq<QuerySpec>) -> bool {
    forall|i: int| 0 <= i < qs.len() ==> (#[trigger] qs[i]).is_resolved()
}

pub open spec fn records_resolved(rs: Seq<RecordSpec>) -> bool {
    forall|i: int| 0 <= i < rs.len() ==> (#[trigger] rs[i]).is_resolved()
}

/// What decoding exactly `n` queries from the front of `s` yields.
/// A query that fails for want of bits makes the whole section an
/// `InsufficientData` failure: the count promised more elements than
/// the buffer holds.
pub open spec fn parse_queries(s: Seq<bool>, n: nat) -> Result<(Seq<QuerySpec>, int), MDNSError>
    decreases n,
{
    if n == 0 {
        Ok((Seq::empty(), 0))
    } else {
        match parse_query(s) {
            Err(MDNSError::InsufficientBits) => Err(MDNSError::InsufficientData),
            Err(e) => Err(e),
            Ok((q, c)) => match parse_queries(s.skip(c), (n - 1) as nat) {
                Err(e) => Err(e),
                Ok((qs, c2)) => Ok((seq![q] + qs, c + c2)),
            },
        }
    }
}

/// What decoding exactly `n` resource records yields; as for queries.
pub open spec fn parse_records(s: Seq<bool>, n: nat) -> Result<(Seq<RecordSpec>, int), MDNSError>
    decreases n,
{
    if n == 0 {
        Ok((Seq::empty(), 0))
    } else {
        match parse_record(s) {
            Err(MDNSError::InsufficientBits) => Err(MDNSError::InsufficientData),
            Err(e) => Err(e),
            Ok((r, c)) => match parse_records(s.skip(c), (n - 1) as nat) {
                Err(e) => Err(e),
                Ok((rs, c2)) => Ok((seq![r] + rs, c + c2)),
            },
        }
    }
}

/// The wire form of a section: the independent encodings of its
/// elements, in order, with nothing between them.
pub open spec fn queries_bits(qs: Seq<QuerySpec>) -> Seq<bool>
    decreases qs.len(),
{
    if qs.len() == 0 {
        Seq::empty()
    } else {
        query_bits(qs[0]) + queries_bits(qs.skip(1))
    }
}

pub open spec fn records_bits(rs: Seq<RecordSpec>) -> Seq<bool>
    decreases rs.len(),
{
    if rs.len() == 0 {
        Seq::empty()
    } else {
        record_bits(rs[0]) + records_bits(rs.skip(1))
    }
}

/// What the resolve pass makes of a query section, in document order,
/// stopping at the first error.
pub open spec fn resolve_queries(data: Seq<bool>, qs: Seq<QuerySpec>) -> Result<
    Seq<QuerySpec>,
    MDNSError,
>
    decreases qs.len(),
{
    if qs.len() == 0 {
        Ok(Seq::empty())
    } else {
        match spec_resolve_name(data, qs[0].name) {
            Err(e) => Err(e),
            Ok(nm) => match resolve_queries(data, qs.skip(1)) {
                Err(e) => Err(e),
                Ok(rest) => Ok(
                    seq![QuerySpec { name: nm, qtype: qs[0].qtype, qclass: qs[0].qclass }] + rest,
                ),
            },
        }
    }
}

pub open spec fn resolve_records(data: Seq<bool>, rs: Seq<RecordSpec>) -> Result<
    Seq<RecordSpec>,
    MDNSError,
>
    decreases rs.len(),
{
    if rs.len() == 0 {
        Ok(Seq::empty())
    } else {
        match spec_resolve_name(data, rs[0].name) {
            Err(e) => Err(e),
            Ok(nm) => match resolve_records(data, rs.skip(1)) {
                Err(e) => Err(e),
                Ok(rest) => Ok(
                    seq![
                        RecordSpec {
                            name: nm,
                            rr_type: rs[0].rr_type,
                            rr_class: rs[0].rr_class,
                            ttl: rs[0].ttl,
                            rdata: rs[0].rdata,
                        },
                    ] + rest,
                ),
            },
        }
    }
}

/// Composing a section-decoder step: prepend the elements already
/// decoded and account for the bits they took.
pub open spec fn queries_step(acc: Seq<QuerySpec>, used: int, r: Result<
    (Seq<QuerySpec>, int),
    MDNSError,
>) -> Result<(Seq<QuerySpec>, int), MDNSError> {
    match r {
        Err(e) => Err(e),
        Ok((qs, c)) => Ok((acc + qs, used + c)),
    }
}

pub open spec fn records_step(acc: Seq<RecordSpec>, used: int, r: Result<
    (Seq<RecordSpec>, int),
    MDNSError,
>) -> Result<(Seq<RecordSpec>, int), MDNSError> {
    match r {
        Err(e) => Err(e),
        Ok((rs, c)) => Ok((acc + rs, used + c)),
    }
}

/// Decode exactly `n` queries in sequence from the cursor.
pub fn unpack_queries(cursor: &mut BitCursor, n: u16) -> (r: Result<Vec<MDNSQuery>, MDNSError>)
    requires
        old(cursor).wf(),
    ensures
        final(cursor).wf(),
        final(cursor).all_bits() == old(cursor).all_bits(),
        final(cursor).position() >= old(cursor).position(),
        match r {
            Ok(v) => {
                &&& parse_queries(old(cursor).remaining(), n as nat) == Ok::<_, MDNSError>(
                    (queries_view(v@), final(cursor).position() - old(cursor).position()),
                )
                &&& v@.len() == n
                &&& queries_wf(queries_view(v@))
                &&& final(cursor).remaining() == old(cursor).remaining().skip(
                    final(cursor).position() - old(cursor).position(),
                )
            },
            Err(e) => parse_queries(old(cursor).remaining(), n as nat) == Err::<
                (Seq<QuerySpec>, int),
                _,
            >(e),
        },
{
    let ghost rem0: Seq<bool> = old(cursor).remaining();
    let ghost pos0: int = old(cursor).position();
    let mut out: Vec<MDNSQuery> = Vec::new();
    let mut i: u16 = 0;
    proof {
        assert(queries_view(out@) =~= Seq::<QuerySpec>::empty());
    }
    while i < n
        invariant
            cursor.wf(),
            cursor.all_bits() == old(cursor).all_bits(),
            rem0 == old(cursor).remaining(),
            pos0 == old(cursor).position(),
            i <= n,
            out@.len() == i,
            cursor.position() >= pos0,
            cursor.remaining() == rem0.skip(cursor.position() - pos0),
            parse_queries(rem0, n as nat) == queries_step(
                queries_view(out@),
                cursor.position() - pos0,
                parse_queries(cursor.remaining(), (n - i) as nat),
            ),
            queries_wf(queries_view(out@)),
        decreases n - i,
    {
        let ghost rem_cur: Seq<bool> = cursor.remaining();
        let ghost acc: Seq<QuerySpec> = queries_view(out@);
        let q = match MDNSQuery::unpack(cursor) {
            Ok(q) => q,
            Err(e) => {
                match e {
                    MDNSError::InsufficientBits => {
                        return Err(MDNSError::InsufficientData);
                    },
                    _ => {
                        return Err(e);
                    },
                }
            },
        };
        proof {
            assert(cursor.remaining() =~= rem0.skip(cursor.position() - pos0));
            let rest = parse_queries(cursor.remaining(), (n - i - 1) as nat);
            match rest {
                Err(e) => {},
                Ok((qs2, c2)) => {
                    assert(acc + (seq![q@] + qs2) =~= acc.push(q@) + qs2);
                },
            }
        }
        out.push(q);
        proof {
            assert(queries_view(out@) =~= acc.push(q@));
        }
        i = i + 1;
    }
    proof {
        assert(queries_view(out@) + Seq::<QuerySpec>::empty() =~= queries_view(out@));
    }
    Ok(out)
}

/// Decode exactly `n` resource records in sequence from the cursor.
pub fn unpack_records(cursor: &mut BitCursor, n: u16) -> (r: Result<
    Vec<MDNSResourceRecord>,
    MDNSError,
>)
    requires
        old(cursor).wf(),
    ensures
        final(cursor).wf(),
        final(cursor).all_bits() == old(cursor).all_bits(),
        final(cursor).position() >= old(cursor).position(),
        match r {
            Ok(v) => {
                &&& parse_records(old(cursor).remaining(), n as nat) == Ok::<_, MDNSError>(
                    (records_view(v@), final(cursor).position() - old(cursor).position()),
                )
                &&& v@.len() == n
                &&& records_wf(records_view(v@))
                &&& final(cursor).remaining() == old(cursor).remaining().skip(
                    final(cursor).position() - old(cursor).position(),
                )
            },
            Err(e) => parse_records(old(cursor).remaining(), n as nat) == Err::<
                (Seq<RecordSpec>, int),
                _,
            >(e),
        },
{
    let ghost rem0: Seq<bool> = old(cursor).remaining();
    let ghost pos0: int = old(cursor).position();
    let mut out: Vec<MDNSResourceRecord> = Vec::new();
    let mut i: u16 = 0;
    proof {
        assert(records_view(out@) =~= Seq::<RecordSpec>::empty());
    }
    while i < n
        invariant
            cursor.wf(),
            cursor.all_bits() == old(cursor).all_bits(),
            rem0 == old(cursor).remaining(),
            pos0 == old(cursor).position(),
            i <= n,
            out@.len() == i,
            cursor.position() >= pos0,
            cursor.remaining() == rem0.skip(cursor.position() - pos0),
            parse_records(rem0, n as nat) == records_step(
                records_view(out@),
                cursor.position() - pos0,
                parse_records(cursor.remaining(), (n - i) as nat),
            ),
            records_wf(records_view(out@)),
        decreases n - i,
    {
        let ghost rem_cur: Seq<bool> = cursor.remaining();
        let ghost acc: Seq<RecordSpec> = records_view(out@);
        let rec = match MDNSResourceRecord::unpack(cursor) {
            Ok(rec) => rec,
            Err(e) => {
                match e {
                    MDNSError::InsufficientBits => {
                        return Err(MDNSError::InsufficientData);
                    },
                    _ => {
                        return Err(e);
                    },
                }
            },
        };
        proof {
            assert(cursor.remaining() =~= rem0.skip(cursor.position() - pos0));
            let rest = parse_records(cursor.remaining(), (n - i - 1) as nat);
            match rest {
                Err(e) => {},
                Ok((rs2, c2)) => {
                    assert(acc + (seq![rec@] + rs2) =~= acc.push(rec@) + rs2);
                },
            }
        }
        out.push(rec);
        proof {
            assert(records_view(out@) =~= acc.push(rec@));
        }
        i = i + 1;
    }
    proof {
        assert(records_view(out@) + Seq::<RecordSpec>::empty() =~= records_view(out@));
    }
    Ok(out)
}

/// Prefixing a section resolution with elements already resolved.
pub open spec fn queries_prepend(p: Seq<QuerySpec>, r: Result<Seq<QuerySpec>, MDNSError>) -> Result<
    Seq<QuerySpec>,
    MDNSError,
> {
    match r {
        Err(e) => Err(e),
        Ok(rest) => Ok(p + rest),
    }
}

pub open spec fn records_prepend(p: Seq<RecordSpec>, r: Result<Seq<RecordSpec>, MDNSError>) -> Result<
    Seq<RecordSpec>,
    MDNSError,
> {
    match r {
        Err(e) => Err(e),
        Ok(rest) => Ok(p + rest),
    }
}

/// Resolve every query name of a section, in order, sharing the
/// message's cache.
pub fn resolve_queries_vec(qs: Vec<MDNSQuery>, data: &Vec<bool>, cache: &mut PointerCache) -> (r:
    Result<Vec<MDNSQuery>, MDNSError>)
    requires
        queries_wf(queries_view(qs@)),
        cache_wf(old(cache)@, data@),
    ensures
        cache_wf(final(cache)@, data@),
        match r {
            Ok(out) => {
                &&& resolve_queries(data@, queries_view(qs@)) == Ok::<_, MDNSError>(
                    queries_view(out@),
                )
                &&& out@.len() == qs@.len()
                &&& queries_wf(queries_view(out@))
                &&& queries_resolved(queries_view(out@))
            },
            Err(e) => resolve_queries(data@, queries_view(qs@)) == Err::<Seq<QuerySpec>, _>(e),
        },
{
    let ghost qs0: Seq<QuerySpec> = queries_view(qs@);
    let mut rest = qs;
    let mut out: Vec<MDNSQuery> = Vec::new();
    proof {
        assert(queries_view(out@) =~= Seq::<QuerySpec>::empty());
    }
    while rest.len() > 0
        invariant
            cache_wf(cache@, data@),
            qs0 == queries_view(qs@),
            out@.len() + rest@.len() == qs0.len(),
            queries_wf(queries_view(rest@)),
            queries_wf(queries_view(out@)),
            queries_resolved(queries_view(out@)),
            resolve_queries(data@, qs0) == queries_prepend(
                queries_view(out@),
                resolve_queries(data@, queries_view(rest@)),
            ),
        decreases rest@.len(),
    {
        let ghost rv: Seq<QuerySpec> = queries_view(rest@);
        let ghost acc: Seq<QuerySpec> = queries_view(out@);
        let mut q = rest.remove(0);
        proof {
            assert(queries_view(rest@) =~= rv.skip(1));
            assert(q@ == rv[0]);
            assert(rv[0].wf());
        }
        match crate::resolver::resolve_name(&mut q.name, data, cache) {
            Ok(_) => {},
            Err(e) => {
                proof {
                    assert(spec_resolve_name(data@, rv[0].name) == Err::<
                        crate::name::NameSpec,
                        _,
                    >(e));
                    assert(resolve_queries(data@, rv) == Err::<Seq<QuerySpec>, _>(e));
                }
                return Err(e);
            },
        }
        proof {
            let rr = resolve_queries(data@, rv.skip(1));
            match rr {
                Err(e) => {},
                Ok(tail) => {
                    assert(acc + (seq![q@] + tail) =~= acc.push(q@) + tail);
                },
            }
        }
        out.push(q);
        proof {
            assert(queries_view(out@) =~= acc.push(q@));
        }
    }
    proof {
        assert(queries_view(rest@) =~= Seq::<QuerySpec>::empty());
        assert(queries_view(out@) + Seq::<QuerySpec>::empty() =~= queries_view(out@));
    }
    Ok(out)
}

/// Resolve every record name of a section, in order, sharing the
/// message's cache.
pub fn resolve_records_vec(rs: Vec<MDNSResourceRecord>, data: &Vec<bool>, cache: &mut PointerCache) -> (r:
    Result<Vec<MDNSResourceRecord>, MDNSError>)
    requires
        records_wf(records_view(rs@)),
        cache_wf(old(cache)@, data@),
    ensures
        cache_wf(final(cache)@, data@),
        match r {
            Ok(out) => {
                &&& resolve_records(data@, records_view(rs@)) == Ok::<_, MDNSError>(
                    records_view(out@),
                )
                &&& out@.len() == rs@.len()
                &&& records_wf(records_view(out@))
                &&& records_resolved(records_view(out@))
            },
            Err(e) => resolve_records(data@, records_view(rs@)) == Err::<Seq<RecordSpec>, _>(e),
        },
{
    let ghost rs0: Seq<RecordSpec> = records_view(rs@);
    let mut rest = rs;
    let mut out: Vec<MDNSResourceRecord> = Vec::new();
    proof {
        assert(records_view(out@) =~= Seq::<RecordSpec>::empty());
    }
    while rest.len() > 0
        invariant
            cache_wf(cache@, data@),
            rs0 == records_view(rs@),
            out@.len() + rest@.len() == rs0.len(),
            records_wf(records_view(rest@)),
            records_wf(records_view(out@)),
            records_resolved(records_view(out@)),
            resolve_records(data@, rs0) == records_prepend(
                records_view(out@),
                resolve_records(data@, records_view(rest@)),
            ),
        decreases rest@.len(),
    {
        let ghost rv: Seq<RecordSpec> = records_view(rest@);
        let ghost acc: Seq<RecordSpec> = records_view(out@);
        let mut rec = rest.remove(0);
        proof {
            assert(records_view(rest@) =~= rv.skip(1));
            assert(rec@ == rv[0]);
            assert(rv[0].wf());
        }
        match crate::resolver::resolve_name(&mut rec.rr_name, data, cache) {
            Ok(_) => {},
            Err(e) => {
                proof {
                    assert(spec_resolve_name(data@, rv[0].name) == Err::<
                        crate::name::NameSpec,
                        _,
                    >(e));
                    assert(resolve_records(data@, rv) == Err::<Seq<RecordSpec>, _>(e));
                }
                return Err(e);
            },
        }
        proof {
            let rr = resolve_records(data@, rv.skip(1));
            match rr {
                Err(e) => {},
                Ok(tail) => {
                    assert(acc + (seq![rec@] + tail) =~= acc.push(rec@) + tail);
                },
            }
        }
        out.push(rec);
        proof {
            assert(records_view(out@) =~= acc.push(rec@));
        }
    }
    proof {
        assert(records_view(rest@) =~= Seq::<RecordSpec>::empty());
        assert(records_view(out@) + Seq::<RecordSpec>::empty() =~= records_view(out@));
    }
    Ok(out)
}

/// Appending one query to a section appends its wire form.
proof fn lemma_queries_bits_snoc(qs: Seq<QuerySpec>, q: QuerySpec)
    ensures
        queries_bits(qs.push(q)) == queries_bits(qs) + query_bits(q),
    decreases qs.len(),
{
    if qs.len() == 0 {
        assert(qs.push(q)[0] == q);
        assert(qs.push(q).skip(1) =~= Seq::<QuerySpec>::empty());
        assert(queries_bits(Seq::<QuerySpec>::empty()) == Seq::<bool>::empty());
        assert(query_bits(q) + Seq::<bool>::empty() =~= query_bits(q));
        assert(queries_bits(qs) + query_bits(q) =~= query_bits(q));
    } else {
        lemma_queries_bits_snoc(qs.skip(1), q);
        assert(qs.push(q).skip(1) =~= qs.skip(1).push(q));
        assert(qs.push(q)[0] == qs[0]);
        assert(query_bits(qs[0]) + (queries_bits(qs.skip(1)) + query_bits(q)) =~= (query_bits(
            qs[0],
        ) + queries_bits(qs.skip(1))) + query_bits(q));
    }
}

/// Appending one record to a section appends its wire form.
proof fn lemma_records_bits_snoc(rs: Seq<RecordSpec>, r: RecordSpec)
    ensures
        records_bits(rs.push(r)) == records_bits(rs) + record_bits(r),
    decreases rs.len(),
{
    if rs.len() == 0 {
        assert(rs.push(r)[0] == r);
        assert(rs.push(r).skip(1) =~= Seq::<RecordSpec>::empty());
        assert(records_bits(Seq::<RecordSpec>::empty()) == Seq::<bool>::empty());
        assert(record_bits(r) + Seq::<bool>::empty() =~= record_bits(r));
        assert(records_bits(rs) + record_bits(r) =~= record_bits(r));
    } else {
        lemma_records_bits_snoc(rs.skip(1), r);
        assert(rs.push(r).skip(1) =~= rs.skip(1).push(r));
        assert(rs.push(r)[0] == rs[0]);
        assert(record_bits(rs[0]) + (records_bits(rs.skip(1)) + record_bits(r)) =~= (record_bits(
            rs[0],
        ) + records_bits(rs.skip(1))) + record_bits(r));
    }
}

/// Append the independent wire forms of a whole query section.
pub fn pack_queries(qs: &Vec<MDNSQuery>, out: &mut Vec<bool>)
    requires
        queries_wf(queries_view(qs@)),
        queries_resolved(queries_view(qs@)),
    ensures
        final(out)@ == old(out)@ + queries_bits(queries_view(qs@)),
{
    let ghost qv: Seq<QuerySpec> = queries_view(qs@);
    let mut i: usize = 0;
    proof {
        assert(qv.take(0) =~= Seq::<QuerySpec>::empty());
        assert(old(out)@ + queries_bits(qv.take(0)) =~= old(out)@);
    }
    while i < qs.len()
        invariant
            i <= qs@.len(),
            qv == queries_view(qs@),
            queries_wf(qv),
            queries_resolved(qv),
            out@ == old(out)@ + queries_bits(qv.take(i as int)),
        decreases qs@.len() - i,
    {
        proof {
            assert(qv[i as int] == qs@[i as int]@);
            assert(qv[i as int].wf() && qv[i as int].is_resolved());
        }
        qs[i].pack(out);
        proof {
            lemma_queries_bits_snoc(qv.take(i as int), qv[i as int]);
            assert(qv.take(i as int).push(qv[i as int]) =~= qv.take(i + 1));
            assert((old(out)@ + queries_bits(qv.take(i as int))) + query_bits(qv[i as int]) =~= old(
                out,
            )@ + queries_bits(qv.take(i + 1)));
        }
        i = i + 1;
    }
    proof {
        assert(qv.take(qv.len() as int) =~= qv);
    }
}

/// Append the independent wire forms of a whole record section.
pub fn pack_records(rs: &Vec<MDNSResourceRecord>, out: &mut Vec<bool>)
    requires
        records_wf(records_view(rs@)),
        records_resolved(records_view(rs@)),
    ensures
        final(out)@ == old(out)@ + records_bits(records_view(rs@)),
{
    let ghost rv: Seq<RecordSpec> = records_view(rs@);
    let mut i: usize = 0;
    proof {
        assert(rv.take(0) =~= Seq::<RecordSpec>::empty());
        assert(old(out)@ + records_bits(rv.take(0)) =~= old(out)@);
    }
    while i < rs.len()
        invariant
            i <= rs@.len(),
            rv == records_view(rs@),
            records_wf(rv),
            records_resolved(rv),
            out@ == old(out)@ + records_bits(rv.take(i as int)),
        decreases rs@.len() - i,
    {
        proof {
            assert(rv[i as int] == rs@[i as int]@);
            assert(rv[i as int].wf() && rv[i as int].is_resolved());
        }
        rs[i].pack(out);
        proof {
            lemma_records_bits_snoc(rv.take(i as int), rv[i as int]);
            assert(rv.take(i as int).push(rv[i as int]) =~= rv.take(i + 1));
            assert((old(out)@ + records_bits(rv.take(i as int))) + record_bits(rv[i as int]) =~= old(
                out,
            )@ + records_bits(rv.take(i + 1)));
        }
        i = i + 1;
    }
    proof {
        assert(rv.take(rv.len() as int) =~= rv);
    }
}

/// Decoding inverts encoding for whole query sections.
#[verifier::rlimit(100)]
#[verifier::spinoff_prover]
pub proof fn lemma_parse_queries_bits(qs: Seq<QuerySpec>, rest: Seq<bool>)
    requires
        queries_wf(qs),
        queries_resolved(qs),
    ensures
        queries_bits(qs).len() % 8 == 0,
        parse_queries(queries_bits(qs) + rest, qs.len()) == Ok::<_, MDNSError>(
            (qs, queries_bits(qs).len() as int),
        ),
    decreases qs.len(),
{
    if qs.len() == 0 {
        assert(queries_bits(qs) + rest =~= rest);
        assert(Seq::<QuerySpec>::empty() =~= qs);
    } else {
        let s = queries_bits(qs) + rest;
        let tail = queries_bits(qs.skip(1)) + rest;
        assert(s =~= query_bits(qs[0]) + tail);
        assert(qs[0].wf());
        lemma_parse_query_bits(qs[0], tail);
        let c = query_bits(qs[0]).len() as int;
        assert(s.skip(c) =~= tail);
        assert(queries_wf(qs.skip(1)) && queries_resolved(qs.skip(1))) by {
            assert(forall|i: int|
                0 <= i < qs.skip(1).len() ==> #[trigger] qs.skip(1)[i] == qs[i + 1]);
        }
        lemma_parse_queries_bits(qs.skip(1), rest);
        assert(seq![qs[0]] + qs.skip(1) =~= qs);
    }
}

/// Decoding inverts encoding for whole record sections.
#[verifier::rlimit(100)]
#[verifier::spinoff_prover]
pub proof fn lemma_parse_records_bits(rs: Seq<RecordSpec>, rest: Seq<bool>)
    requires
        records_wf(rs),
        records_resolved(rs),
    ensures
        records_bits(rs).len() % 8 == 0,
        parse_records(records_bits(rs) + rest, rs.len()) == Ok::<_, MDNSError>(
            (rs, records_bits(rs).len() as int),
        ),
    decreases rs.len(),
{
    if rs.len() == 0 {
        assert(records_bits(rs) + rest =~= rest);
        assert(Seq::<RecordSpec>::empty() =~= rs);
    } else {
        let s = records_bits(rs) + rest;
        let tail = records_bits(rs.skip(1)) + rest;
        assert(s =~= record_bits(rs[0]) + tail);
        assert(rs[0].wf());
        lemma_parse_record_bits(rs[0], tail);
        let c = record_bits(rs[0]).len() as int;
        assert(s.skip(c) =~= tail);
        assert(records_wf(rs.skip(1)) && records_resolved(rs.skip(1))) by {
            assert(forall|i: int|
                0 <= i < rs.skip(1).len() ==> #[trigger] rs.skip(1)[i] == rs[i + 1]);
        }
        lemma_parse_records_bits(rs.skip(1), rest);
        assert(seq![rs[0]] + rs.skip(1) =~= rs);
    }
}

/// Resolving a section whose names are already resolved changes
/// nothing.
pub proof fn lemma_resolve_queries_resolved(data: Seq<bool>, qs: Seq<QuerySpec>)
    requires
        queries_resolved(qs),
    ensures
        resolve_queries(data, qs) == Ok::<_, MDNSError>(qs),
    decreases qs.len(),
{
    if qs.len() == 0 {
        assert(Seq::<QuerySpec>::empty() =~= qs);
    } else {
        assert(qs[0].is_resolved());
        assert(queries_resolved(qs.skip(1))) by {
            assert(forall|i: int|
                0 <= i < qs.skip(1).len() ==> #[trigger] qs.skip(1)[i] == qs[i + 1]);
        }
        lemma_resolve_queries_resolved(data, qs.skip(1));
        assert(QuerySpec { name: qs[0].name, qtype: qs[0].qtype, qclass: qs[0].qclass } == qs[0]);
        assert(seq![qs[0]] + qs.skip(1) =~= qs);
    }
}

pub proof fn lemma_resolve_records_resolved(data: Seq<bool>, rs: Seq<RecordSpec>)
    requires
        records_resolved(rs),
    ensures
        resolve_records(data, rs) == Ok::<_, MDNSError>(rs),
    decreases rs.len(),
{
    if rs.len() == 0 {
        assert(Seq::<RecordSpec>::empty() =~= rs);
    } else {
        assert(rs[0].is_resolved());
        assert(records_resolved(rs.skip(1))) by {
            assert(forall|i: int|
                0 <= i < rs.skip(1).len() ==> #[trigger] rs.skip(1)[i] == rs[i + 1]);
        }
        lemma_resolve_records_resolved(data, rs.skip(1));
        assert(RecordSpec {
            name: rs[0].name,
            rr_type: rs[0].rr_type,
            rr_class: rs[0].rr_class,
            ttl: rs[0].ttl,
            rdata: rs[0].rdata,
        } == rs[0]);
        assert(seq![rs[0]] + rs.skip(1) =~= rs);
    }
}

} // verus!
