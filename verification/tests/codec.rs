//! End-to-end tests of the datagram codec: decoding hand-built wire
//! bytes, re-encoding, and the error paths for malformed input.

use mdns_browser::bits::{bits_to_bytes, bytes_to_bits, BitCursor};
use mdns_browser::error::MDNSError;
use mdns_browser::header::MDNSHeader;
use mdns_browser::name::DomainName;
use mdns_browser::query::MDNSQuery;
use mdns_browser::resource_record::MDNSResourceRecord;
use mdns_browser::response::MDNSResponse;

fn header_bytes(
    id: u16,
    questions: u16,
    answer_rrs: u16,
    authority_rrs: u16,
    additional_rrs: u16,
) -> Vec<u8> {
    let mut out = vec![];
    out.extend_from_slice(&id.to_be_bytes());
    out.extend_from_slice(&[0, 0]);
    out.extend_from_slice(&questions.to_be_bytes());
    out.extend_from_slice(&answer_rrs.to_be_bytes());
    out.extend_from_slice(&authority_rrs.to_be_bytes());
    out.extend_from_slice(&additional_rrs.to_be_bytes());
    out
}

fn decode(bytes: &[u8]) -> Result<MDNSResponse, MDNSError> {
    let bits = bytes_to_bits(&bytes.to_vec());
    let mut cursor = BitCursor::new(bits);
    MDNSResponse::unpack(&mut cursor)
}

fn encode(resp: &MDNSResponse) -> Vec<u8> {
    bits_to_bytes(&resp.pack())
}

fn plain_header(questions: u16, answers: u16) -> MDNSHeader {
    MDNSHeader {
        id: 0,
        qr: false,
        opcode: 0,
        aa: false,
        tc: false,
        rd: false,
        ra: false,
        z: 0,
        rcode: 0,
        questions,
        answer_rrs: answers,
        authority_rrs: 0,
        additional_rrs: 0,
    }
}

/// The concrete scenario: a PTR query for `_ni._tcp.local`, class IN,
/// with questions=1 and the other counts zero.
#[test]
fn ptr_query_for_ni_tcp_local() {
    let mut bytes = header_bytes(0, 1, 0, 0, 0);
    bytes.extend_from_slice(&[3]);
    bytes.extend_from_slice(b"_ni");
    bytes.extend_from_slice(&[4]);
    bytes.extend_from_slice(b"_tcp");
    bytes.extend_from_slice(&[5]);
    bytes.extend_from_slice(b"local");
    bytes.extend_from_slice(&[0]);
    bytes.extend_from_slice(&12u16.to_be_bytes());
    bytes.extend_from_slice(&1u16.to_be_bytes());

    let resp = decode(&bytes).expect("the query datagram decodes");
    assert_eq!(resp.queries.len(), 1);
    assert_eq!(resp.answers.len(), 0);
    assert_eq!(resp.authorities.len(), 0);
    assert_eq!(resp.additional.len(), 0);
    let q = &resp.queries[0];
    assert_eq!(
        q.name.labels,
        vec![b"_ni".to_vec(), b"_tcp".to_vec(), b"local".to_vec()]
    );
    assert_eq!(q.name.pending, None);
    assert_eq!(q.qtype, 12);
    assert_eq!(q.qclass, 1);

    // No compression was involved, so re-encoding is byte-identical.
    assert_eq!(encode(&resp), bytes);
}

/// Round trip: decode(encode(m)) == m for a message built in memory
/// with literal names.
#[test]
fn round_trip_query_and_answer() {
    let resp = MDNSResponse {
        header: plain_header(1, 1),
        queries: vec![MDNSQuery {
            name: DomainName::from_labels(vec![b"printer".to_vec(), b"local".to_vec()]).unwrap(),
            qtype: 12,
            qclass: 1,
        }],
        answers: vec![MDNSResourceRecord {
            rr_name: DomainName::from_labels(vec![b"printer".to_vec(), b"local".to_vec()])
                .unwrap(),
            rr_type: 16,
            rr_class: 1,
            ttl: 4500,
            rdata: vec![0xDE, 0xAD, 0xBE, 0xEF],
        }],
        authorities: vec![],
        additional: vec![],
    };
    let bytes = encode(&resp);
    let again = decode(&bytes).expect("the encoded message decodes");
    assert_eq!(again, resp);
}

/// Pointer equivalence: spelling a name literally and pointing back at
/// an earlier literal spelling of it resolve to the same name.
#[test]
fn pointer_and_literal_names_are_equivalent() {
    // Both datagrams carry two queries for `ab.cd`.
    let name_literal: &[u8] = &[2, b'a', b'b', 2, b'c', b'd', 0];
    let qfields: &[u8] = &[0, 12, 0, 1];

    let mut literal = header_bytes(7, 2, 0, 0, 0);
    literal.extend_from_slice(name_literal);
    literal.extend_from_slice(qfields);
    literal.extend_from_slice(name_literal);
    literal.extend_from_slice(qfields);

    let mut pointered = header_bytes(7, 2, 0, 0, 0);
    pointered.extend_from_slice(name_literal);
    pointered.extend_from_slice(qfields);
    // A compression pointer to offset 12, where the name is spelled.
    pointered.extend_from_slice(&[0xC0, 12]);
    pointered.extend_from_slice(qfields);

    let a = decode(&literal).expect("the literal datagram decodes");
    let b = decode(&pointered).expect("the pointered datagram decodes");
    assert_eq!(a.queries[1].name, a.queries[0].name);
    assert_eq!(b.queries[1].name, a.queries[1].name);
    assert_eq!(b.queries[1].name.labels, vec![b"ab".to_vec(), b"cd".to_vec()]);
}

/// A pointer chain is spliced onto the literal prefix already read.
#[test]
fn pointer_splices_onto_literal_prefix() {
    let mut bytes = header_bytes(0, 2, 0, 0, 0);
    // Offset 12: `local`, terminated.
    bytes.extend_from_slice(&[5]);
    bytes.extend_from_slice(b"local");
    bytes.extend_from_slice(&[0]);
    bytes.extend_from_slice(&[0, 12, 0, 1]);
    // Second query: literal `printer`, then a pointer to offset 12.
    bytes.extend_from_slice(&[7]);
    bytes.extend_from_slice(b"printer");
    bytes.extend_from_slice(&[0xC0, 12]);
    bytes.extend_from_slice(&[0, 12, 0, 1]);

    let resp = decode(&bytes).expect("the datagram decodes");
    assert_eq!(
        resp.queries[1].name.labels,
        vec![b"printer".to_vec(), b"local".to_vec()]
    );
    assert_eq!(resp.queries[1].name.pending, None);
}

/// Cycle rejection: two names whose pointers target each other fail
/// with `CompressionCycle` instead of hanging.
#[test]
fn pointer_cycle_is_rejected() {
    let mut bytes = header_bytes(0, 1, 0, 0, 0);
    // Offset 12: pointer to offset 14; offset 14: pointer to offset 12.
    bytes.extend_from_slice(&[0xC0, 14]);
    bytes.extend_from_slice(&[0xC0, 12]);
    bytes.extend_from_slice(&[0, 1]);

    assert_eq!(decode(&bytes), Err(MDNSError::CompressionCycle));
}

/// A pointer into the fixed header is out of range.
#[test]
fn pointer_into_header_is_out_of_range() {
    let mut bytes = header_bytes(0, 1, 0, 0, 0);
    bytes.extend_from_slice(&[0xC0, 0]);
    bytes.extend_from_slice(&[0, 12, 0, 1]);

    assert_eq!(decode(&bytes), Err(MDNSError::PointerOutOfRange));
}

/// A pointer past the end of the datagram is out of range.
#[test]
fn pointer_past_end_is_out_of_range() {
    let mut bytes = header_bytes(0, 1, 0, 0, 0);
    bytes.extend_from_slice(&[0xC0, 200]);
    bytes.extend_from_slice(&[0, 12, 0, 1]);

    assert_eq!(decode(&bytes), Err(MDNSError::PointerOutOfRange));
}

/// A length byte with the reserved `01` prefix violates the format.
#[test]
fn reserved_length_prefix_is_invalid() {
    let mut bytes = header_bytes(0, 1, 0, 0, 0);
    bytes.extend_from_slice(&[0x40]);
    bytes.extend_from_slice(&[0, 12, 0, 1]);

    assert_eq!(decode(&bytes), Err(MDNSError::InvalidEncoding));
}

/// A buffer shorter than the 96-bit header cannot hold a message.
#[test]
fn truncated_header_is_insufficient_bits() {
    assert_eq!(decode(&[0, 1, 2, 3]), Err(MDNSError::InsufficientBits));
}

fn one_record_bytes() -> Vec<u8> {
    let mut out = vec![];
    // Root name, type A, class IN, ttl 60, four bytes of rdata.
    out.extend_from_slice(&[0]);
    out.extend_from_slice(&[0, 1, 0, 1]);
    out.extend_from_slice(&60u32.to_be_bytes());
    out.extend_from_slice(&[0, 4]);
    out.extend_from_slice(&[192, 168, 1, 9]);
    out
}

/// Count discipline: a header that promises two answers over a buffer
/// holding one fails with `InsufficientData`; with exactly two it
/// succeeds and the answers sequence has length 2.
#[test]
fn answer_count_must_be_met() {
    let mut short = header_bytes(0, 0, 2, 0, 0);
    short.extend_from_slice(&one_record_bytes());
    assert_eq!(decode(&short), Err(MDNSError::InsufficientData));

    let mut exact = header_bytes(0, 0, 2, 0, 0);
    exact.extend_from_slice(&one_record_bytes());
    exact.extend_from_slice(&one_record_bytes());
    let resp = decode(&exact).expect("two complete answers decode");
    assert_eq!(resp.answers.len(), 2);
    assert_eq!(resp.answers[1].rdata, vec![192, 168, 1, 9]);
    assert_eq!(resp.answers[1].ttl, 60);
}

/// A question count that the buffer cannot honour fails the same way.
#[test]
fn question_count_must_be_met() {
    let bytes = header_bytes(0, 3, 0, 0, 0);
    assert_eq!(decode(&bytes), Err(MDNSError::InsufficientData));
}

/// The root name alone is a valid, empty name.
#[test]
fn root_name_decodes_empty() {
    let mut bytes = header_bytes(0, 1, 0, 0, 0);
    bytes.extend_from_slice(&[0]);
    bytes.extend_from_slice(&[0, 255, 0, 1]);
    let resp = decode(&bytes).expect("a root-name query decodes");
    assert_eq!(resp.queries[0].name.labels, Vec::<Vec<u8>>::new());
    assert_eq!(resp.queries[0].name.pending, None);
    assert_eq!(resp.queries[0].qtype, 255);
}
