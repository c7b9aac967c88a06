//! The top-level message: structural decode of the header and the
//! four sections, one resolve pass over the whole message, encoding,
//! and the record lookup a caller uses on a finished message.

use std::collections::HashMap;

use vstd::prelude::*;

use crate::bits::BitCursor;
use crate::error::MDNSError;
use crate::header::{header_bits, lemma_parse_header_bits, parse_header, MDNSHeader};
use crate::query::{MDNSQuery, QuerySpec};
use crate::resolver::PointerCache;
use crate::resource_record::{type_code, MDNSResourceRecord, MDNSTYPE, RecordSpec};
use crate::sections::{
    lemma_parse_queries_bits, lemma_parse_records_bits, lemma_resolve_queries_resolved,
    lemma_resolve_records_resolved, pack_queries, pack_records, parse_queries, parse_records,
    queries_bits, queries_resolved, queries_view, queries_wf, records_bits, records_resolved,
    records_view, records_wf, resolve_queries, resolve_records, resolve_queries_vec,
    resolve_records_vec, unpack_queries, unpack_records,
};

verus! {

broadcast use vstd::std_specs::hash::group_hash_axioms;

/// The mathematical value of a whole message.
pub ghost struct ResponseSpec {
    pub header: MDNSHeader,
    pub queries: Seq<QuerySpec>,
    pub answers: Seq<RecordSpec>,
    pub authorities: Seq<RecordSpec>,
    pub additional: Seq<RecordSpec>,
}

impl ResponseSpec {
    /// A message is well formed when its header is, every section
    /// element is, and the header counts match the section lengths.
    pub open spec fn wf(self) -> bool {
        &&& self.header.wf()
        &&& self.header.questions == self.queries.len()
        &&& self.header.answer_rrs == self.answers.len()
        &&& self.header.authority_rrs == self.authorities.len()
        &&& self.header.additional_rrs == self.additional.len()
        &&& queries_wf(self.queries)
        &&& records_wf(self.answers)
        &&& records_wf(self.authorities)
        &&& records_wf(self.additional)
    }

    /// Every name of every section is fully resolved.
    pub open spec fn is_resolved(self) -> bool {
        &&& queries_resolved(self.queries)
        &&& records_resolved(self.answers)
        &&& records_resolved(self.authorities)
        &&& records_resolved(self.additional)
    }

    /// The records in lookup order: answers, then authorities, then
    /// additional.
    pub open spec fn records_chain(self) -> Seq<RecordSpec> {
        self.answers + self.authorities + self.additional
    }
}

/// A fully decoded mDNS message: header plus the four ordered
/// sections.  Constructed once per datagram; immutable afterwards.
#[derive(Debug, Clone, PartialEq, Eq)]
pub struct MDNSResponse {
    pub header: MDNSHeader,
    pub queries: Vec<MDNSQuery>,
    pub answers: Vec<MDNSResourceRecord>,
    pub authorities: Vec<MDNSResourceRecord>,
    pub additional: Vec<MDNSResourceRecord>,
}

impl View for MDNSResponse {
    type V = ResponseSpec;

    open spec fn view(&self) -> ResponseSpec {
        ResponseSpec {
            header: self.header,
            queries: queries_view(self.queries@),
            answers: records_view(self.answers@),
            authorities: records_view(self.authorities@),
            additional: records_view(self.additional@),
        }
    }
}

impl MDNSResponse {
    pub open spec fn wf(self) -> bool {
        self@.wf()
    }
}

/// The message the parts of a structural decode assemble into.
pub open spec fn response_of(
    header: MDNSHeader,
    queries: Seq<QuerySpec>,
    answers: Seq<RecordSpec>,
    authorities: Seq<RecordSpec>,
    additional: Seq<RecordSpec>,
) -> ResponseSpec {
    ResponseSpec { header, queries, answers, authorities, additional }
}

/// What the structural pass makes of a whole datagram: the header,
/// then exactly as many queries and records as the header counts
/// demand, names possibly left pending; or the first error.
pub open spec fn parse_response(s: Seq<bool>) -> Result<(ResponseSpec, int), MDNSError> {
    match parse_header(s) {
        Err(e) => Err(e),
        Ok((h, c0)) => match parse_queries(s.skip(96), h.questions as nat) {
            Err(e) => Err(e),
            Ok((qs, c1)) => match parse_records(s.skip(96 + c1), h.answer_rrs as nat) {
                Err(e) => Err(e),
                Ok((ans, c2)) => match parse_records(
                    s.skip(96 + c1 + c2),
                    h.authority_rrs as nat,
                ) {
                    Err(e) => Err(e),
                    Ok((auth, c3)) => match parse_records(
                        s.skip(96 + c1 + c2 + c3),
                        h.additional_rrs as nat,
                    ) {
                        Err(e) => Err(e),
                        Ok((add, c4)) => Ok(
                            (response_of(h, qs, ans, auth, add), 96 + c1 + c2 + c3 + c4),
                        ),
                    },
                },
            },
        },
    }
}

/// What the resolve pass makes of a structurally decoded message:
/// every name resolved against the full datagram, in document order,
/// stopping at the first error.
pub open spec fn resolve_response(data: Seq<bool>, r: ResponseSpec) -> Result<
    ResponseSpec,
    MDNSError,
> {
    match resolve_queries(data, r.queries) {
        Err(e) => Err(e),
        Ok(qs) => match resolve_records(data, r.answers) {
            Err(e) => Err(e),
            Ok(ans) => match resolve_records(data, r.authorities) {
                Err(e) => Err(e),
                Ok(auth) => match resolve_records(data, r.additional) {
                    Err(e) => Err(e),
                    Ok(add) => Ok(response_of(r.header, qs, ans, auth, add)),
                },
            },
        },
    }
}

/// Everything decoding a datagram does: the structural pass, then the
/// resolve pass against the same bits.  All-or-nothing: no partial
/// message is ever produced.
pub open spec fn decode_response(s: Seq<bool>) -> Result<ResponseSpec, MDNSError> {
    match parse_response(s) {
        Err(e) => Err(e),
        Ok((r, c)) => resolve_response(s, r),
    }
}

/// The wire form of a resolved message: header then the four sections
/// chained in order, every name written literally.
pub open spec fn response_bits(r: ResponseSpec) -> Seq<bool> {
    header_bits(r.header) + queries_bits(r.queries) + records_bits(r.answers) + records_bits(
        r.authorities,
    ) + records_bits(r.additional)
}

/// The first index of `chain` holding a record of type `code`.
pub open spec fn first_match(chain: Seq<RecordSpec>, code: u16, i: int) -> bool {
    &&& 0 <= i < chain.len()
    &&& chain[i].rr_type == code
    &&& forall|j: int| 0 <= j < i ==> (#[trigger] chain[j]).rr_type != code
}

/// The first index of `v` holding a record whose type is `code`.
fn find_first(v: &Vec<MDNSResourceRecord>, code: u16) -> (r: Option<usize>)
    ensures
        match r {
            Some(i) => {
                &&& i < v@.len()
                &&& records_view(v@)[i as int].rr_type == code
                &&& forall|j: int|
                    0 <= j < i ==> (#[trigger] records_view(v@)[j]).rr_type != code
            },
            None => forall|j: int|
                0 <= j < v@.len() ==> (#[trigger] records_view(v@)[j]).rr_type != code,
        },
{
    let mut i: usize = 0;
    while i < v.len()
        invariant
            i <= v@.len(),
            forall|j: int| 0 <= j < i ==> (#[trigger] records_view(v@)[j]).rr_type != code,
        decreases v@.len() - i,
    {
        if v[i].rr_type == code {
            return Some(i);
        }
        i = i + 1;
    }
    None
}

impl MDNSResponse {
    /// Assemble a message from its structurally decoded parts and run
    /// the resolve pass over all four sections in document order,
    /// sharing one fresh per-message cache.  All-or-nothing: the first
    /// resolution error is the result.
    pub fn new(
        data: Vec<bool>,
        header: MDNSHeader,
        queries: Vec<MDNSQuery>,
        answers: Vec<MDNSResourceRecord>,
        authorities: Vec<MDNSResourceRecord>,
        additional: Vec<MDNSResourceRecord>,
    ) -> (r: Result<MDNSResponse, MDNSError>)
        requires
            queries_wf(queries_view(queries@)),
            records_wf(records_view(answers@)),
            records_wf(records_view(authorities@)),
            records_wf(records_view(additional@)),
        ensures
            match r {
                Ok(resp) => {
                    &&& resolve_response(
                        data@,
                        response_of(
                            header,
                            queries_view(queries@),
                            records_view(answers@),
                            records_view(authorities@),
                            records_view(additional@),
                        ),
                    ) == Ok::<ResponseSpec, MDNSError>(resp@)
                    &&& resp@.is_resolved()
                    &&& resp@.header == header
                    &&& resp@.queries.len() == queries@.len()
                    &&& resp@.answers.len() == answers@.len()
                    &&& resp@.authorities.len() == authorities@.len()
                    &&& resp@.additional.len() == additional@.len()
                    &&& queries_wf(resp@.queries)
                    &&& records_wf(resp@.answers)
                    &&& records_wf(resp@.authorities)
                    &&& records_wf(resp@.additional)
                },
                Err(e) => resolve_response(
                    data@,
                    response_of(
                        header,
                        queries_view(queries@),
                        records_view(answers@),
                        records_view(authorities@),
                        records_view(additional@),
                    ),
                ) == Err::<ResponseSpec, MDNSError>(e),
            },
    {
        let mut cache: PointerCache = HashMap::new();
        let queries = match resolve_queries_vec(queries, &data, &mut cache) {
            Ok(v) => v,
            Err(e) => {
                return Err(e);
            },
        };
        let answers = match resolve_records_vec(answers, &data, &mut cache) {
            Ok(v) => v,
            Err(e) => {
                return Err(e);
            },
        };
        let authorities = match resolve_records_vec(authorities, &data, &mut cache) {
            Ok(v) => v,
            Err(e) => {
                return Err(e);
            },
        };
        let additional = match resolve_records_vec(additional, &data, &mut cache) {
            Ok(v) => v,
            Err(e) => {
                return Err(e);
            },
        };
        Ok(MDNSResponse { header, queries, answers, authorities, additional })
    }

    /// Decode a whole datagram: header, the count-driven sections,
    /// then one resolve pass against a retained copy of the original
    /// buffer.  The first error is the result and nothing partial is
    /// returned.
    #[verifier::rlimit(100)]
    pub fn unpack(cursor: &mut BitCursor) -> (r: Result<MDNSResponse, MDNSError>)
        requires
            old(cursor).wf(),
        ensures
            final(cursor).wf(),
            final(cursor).all_bits() == old(cursor).all_bits(),
            match r {
                Ok(resp) => {
                    &&& decode_response(old(cursor).remaining()) == Ok::<
                        ResponseSpec,
                        MDNSError,
                    >(resp@)
                    &&& resp.wf()
                    &&& resp@.is_resolved()
                    &&& match parse_response(old(cursor).remaining()) {
                        // The cursor ends immediately past the message.
                        Ok((p, c)) => final(cursor).position() == old(cursor).position() + c,
                        Err(e2) => false,
                    }
                },
                Err(e) => decode_response(old(cursor).remaining()) == Err::<ResponseSpec, _>(e),
            },
    {
        let ghost s: Seq<bool> = old(cursor).remaining();
        let data_copy = cursor.remaining_vec();
        let header = match MDNSHeader::unpack(cursor) {
            Ok(h) => h,
            Err(e) => {
                return Err(e);
            },
        };
        let queries = match unpack_queries(cursor, header.questions) {
            Ok(v) => v,
            Err(e) => {
                return Err(e);
            },
        };
        let ghost c1: int = cursor.position() - old(cursor).position() - 96;
        proof {
            assert(cursor.remaining() =~= s.skip(96 + c1));
        }
        let answers = match unpack_records(cursor, header.answer_rrs) {
            Ok(v) => v,
            Err(e) => {
                return Err(e);
            },
        };
        let ghost c2: int = cursor.position() - old(cursor).position() - 96 - c1;
        proof {
            assert(cursor.remaining() =~= s.skip(96 + c1 + c2));
        }
        let authorities = match unpack_records(cursor, header.authority_rrs) {
            Ok(v) => v,
            Err(e) => {
                return Err(e);
            },
        };
        let ghost c3: int = cursor.position() - old(cursor).position() - 96 - c1 - c2;
        proof {
            assert(cursor.remaining() =~= s.skip(96 + c1 + c2 + c3));
        }
        let additional = match unpack_records(cursor, header.additional_rrs) {
            Ok(v) => v,
            Err(e) => {
                return Err(e);
            },
        };
        let resp = match MDNSResponse::new(
            data_copy,
            header,
            queries,
            answers,
            authorities,
            additional,
        ) {
            Ok(resp) => resp,
            Err(e) => {
                return Err(e);
            },
        };
        Ok(resp)
    }

    /// Encode the whole message: header then the four sections in
    /// order, every name written literally and uncompressed.
    pub fn pack(&self) -> (out: Vec<bool>)
        requires
            self.wf(),
            self@.is_resolved(),
        ensures
            out@ == response_bits(self@),
    {
        let mut out: Vec<bool> = Vec::new();
        self.header.pack(&mut out);
        pack_queries(&self.queries, &mut out);
        pack_records(&self.answers, &mut out);
        pack_records(&self.authorities, &mut out);
        pack_records(&self.additional, &mut out);
        proof {
            assert(out@ =~= response_bits(self@));
        }
        out
    }

    /// The first record of the given type, searching answers, then
    /// authorities, then additional; `NotFound` when no section holds
    /// one.  Read-only: the message is unchanged.
    pub fn get_resource_record_of_type(&self, ty: MDNSTYPE) -> (r: Result<
        MDNSResourceRecord,
        MDNSError,
    >)
        ensures
            match r {
                Ok(rec) => exists|i: int|
                    #[trigger] first_match(self@.records_chain(), type_code(ty), i) && rec@
                        == self@.records_chain()[i],
                Err(e) => {
                    &&& e == MDNSError::NotFound
                    &&& forall|i: int|
                        0 <= i < self@.records_chain().len() ==> (
                        #[trigger] self@.records_chain()[i]).rr_type != type_code(ty)
                },
            },
    {
        let ghost chain: Seq<RecordSpec> = self@.records_chain();
        let ghost av: Seq<RecordSpec> = records_view(self.answers@);
        let ghost uv: Seq<RecordSpec> = records_view(self.authorities@);
        let ghost dv: Seq<RecordSpec> = records_view(self.additional@);
        let code = ty.code();
        if let Some(i) = find_first(&self.answers, code) {
            proof {
                assert(chain[i as int] == av[i as int]);
                assert(forall|j: int| 0 <= j < i ==> #[trigger] chain[j] == av[j]);
                assert(first_match(chain, code, i as int));
            }
            return Ok(self.answers[i].duplicate());
        }
        if let Some(i) = find_first(&self.authorities, code) {
            let ghost k: int = av.len() + i;
            proof {
                assert(chain[k] == uv[i as int]);
                assert forall|j: int| 0 <= j < k implies (#[trigger] chain[j]).rr_type != code by {
                    if j < av.len() {
                        assert(chain[j] == av[j]);
                    } else {
                        assert(chain[j] == uv[j - av.len()]);
                    }
                }
                assert(first_match(chain, code, k));
            }
            return Ok(self.authorities[i].duplicate());
        }
        if let Some(i) = find_first(&self.additional, code) {
            let ghost k: int = av.len() + uv.len() + i;
            proof {
                assert(chain[k] == dv[i as int]);
                assert forall|j: int| 0 <= j < k implies (#[trigger] chain[j]).rr_type != code by {
                    if j < av.len() {
                        assert(chain[j] == av[j]);
                    } else if j < av.len() + uv.len() {
                        assert(chain[j] == uv[j - av.len()]);
                    } else {
                        assert(chain[j] == dv[j - av.len() - uv.len()]);
                    }
                }
                assert(first_match(chain, code, k));
            }
            return Ok(self.additional[i].duplicate());
        }
        proof {
            assert forall|i: int| 0 <= i < chain.len() implies (#[trigger] chain[i]).rr_type
                != code by {
                if i < av.len() {
                    assert(chain[i] == av[i]);
                } else if i < av.len() + uv.len() {
                    assert(chain[i] == uv[i - av.len()]);
                } else {
                    assert(chain[i] == dv[i - av.len() - uv.len()]);
                }
            }
        }
        Err(MDNSError::NotFound)
    }
}

/// Parsing the wire form of a well-formed, fully resolved message
/// yields its parts back: encoding writes every name literally, so the
/// structural pass leaves nothing pending.
#[verifier::rlimit(100)]
#[verifier::spinoff_prover]
pub proof fn lemma_parse_response_bits(r: ResponseSpec)
    requires
        r.wf(),
        r.is_resolved(),
    ensures
        parse_response(response_bits(r)) == Ok::<_, MDNSError>(
            (r, response_bits(r).len() as int),
        ),
{
    let s = response_bits(r);
    let rest1 = queries_bits(r.queries) + (records_bits(r.answers) + (records_bits(r.authorities)
        + records_bits(r.additional)));
    assert(s =~= header_bits(r.header) + rest1);
    lemma_parse_header_bits(r.header, rest1);
    let rest2 = records_bits(r.answers) + (records_bits(r.authorities) + records_bits(
        r.additional,
    ));
    assert(s.skip(96) =~= queries_bits(r.queries) + rest2);
    lemma_parse_queries_bits(r.queries, rest2);
    let c1 = queries_bits(r.queries).len() as int;
    let rest3 = records_bits(r.authorities) + records_bits(r.additional);
    assert(s.skip(96 + c1) =~= records_bits(r.answers) + rest3);
    lemma_parse_records_bits(r.answers, rest3);
    let c2 = records_bits(r.answers).len() as int;
    assert(s.skip(96 + c1 + c2) =~= records_bits(r.authorities) + records_bits(r.additional));
    lemma_parse_records_bits(r.authorities, records_bits(r.additional));
    let c3 = records_bits(r.authorities).len() as int;
    assert(s.skip(96 + c1 + c2 + c3) =~= records_bits(r.additional) + Seq::<bool>::empty());
    lemma_parse_records_bits(r.additional, Seq::<bool>::empty());
    let c4 = records_bits(r.additional).len() as int;
    assert(parse_response(s) == Ok::<_, MDNSError>((r, 96 + c1 + c2 + c3 + c4)));
    assert(s.len() == 96 + c1 + c2 + c3 + c4);
}

/// Round trip: decoding the encoding of any well-formed, fully
/// resolved message yields exactly that message.  Encoding writes
/// every name literally, so the structural pass leaves nothing
/// pending and the resolve pass changes nothing.
#[verifier::spinoff_prover]
pub proof fn lemma_round_trip(r: ResponseSpec)
    requires
        r.wf(),
        r.is_resolved(),
    ensures
        decode_response(response_bits(r)) == Ok::<ResponseSpec, MDNSError>(r),
{
    let s = response_bits(r);
    lemma_parse_response_bits(r);
    lemma_resolve_queries_resolved(s, r.queries);
    lemma_resolve_records_resolved(s, r.answers);
    lemma_resolve_records_resolved(s, r.authorities);
    lemma_resolve_records_resolved(s, r.additional);
    assert(resolve_response(s, r) == Ok::<ResponseSpec, MDNSError>(r));
}

} // verus!
