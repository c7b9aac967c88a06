//! Tests of the record lookup on a finished message and of the
//! smaller building blocks: the bit cursor, name construction, and
//! byte/bit conversion.

use mdns_browser::bits::{bits_to_bytes, bytes_to_bits, BitCursor};
use mdns_browser::error::MDNSError;
use mdns_browser::header::MDNSHeader;
use mdns_browser::name::DomainName;
use mdns_browser::resource_record::{MDNSResourceRecord, MDNSTYPE};
use mdns_browser::response::MDNSResponse;

fn record(rr_type: u16, ttl: u32) -> MDNSResourceRecord {
    MDNSResourceRecord {
        rr_name: DomainName::from_labels(vec![b"host".to_vec(), b"local".to_vec()]).unwrap(),
        rr_type,
        rr_class: 1,
        ttl,
        rdata: vec![],
    }
}

fn response_with(
    answers: Vec<MDNSResourceRecord>,
    authorities: Vec<MDNSResourceRecord>,
    additional: Vec<MDNSResourceRecord>,
) -> MDNSResponse {
    MDNSResponse {
        header: MDNSHeader {
            id: 0,
            qr: true,
            opcode: 0,
            aa: true,
            tc: false,
            rd: false,
            ra: false,
            z: 0,
            rcode: 0,
            questions: 0,
            answer_rrs: answers.len() as u16,
            authority_rrs: authorities.len() as u16,
            additional_rrs: additional.len() as u16,
        },
        queries: vec![],
        answers,
        authorities,
        additional,
    }
}

/// The lookup returns the first record of the type, searching answers,
/// then authorities, then additional, in that order.
#[test]
fn lookup_returns_first_match_across_sections() {
    // TXT(16) appears in authorities (ttl 20) and additional (ttl 30):
    // the authorities one comes first in chain order.
    let resp = response_with(
        vec![record(1, 10)],
        vec![record(16, 20), record(16, 21)],
        vec![record(16, 30)],
    );
    let txt = resp.get_resource_record_of_type(MDNSTYPE::TXT).unwrap();
    assert_eq!(txt.ttl, 20);

    let a = resp.get_resource_record_of_type(MDNSTYPE::A).unwrap();
    assert_eq!(a.ttl, 10);
}

/// Within one section the earliest record of the type wins.
#[test]
fn lookup_returns_first_match_within_section() {
    let resp = response_with(vec![record(33, 1), record(33, 2)], vec![], vec![]);
    let srv = resp.get_resource_record_of_type(MDNSTYPE::SRV).unwrap();
    assert_eq!(srv.ttl, 1);
}

/// A type no record carries is `NotFound`, also on an empty message.
#[test]
fn lookup_misses_are_not_found() {
    let resp = response_with(vec![record(1, 10)], vec![record(16, 20)], vec![]);
    assert_eq!(
        resp.get_resource_record_of_type(MDNSTYPE::SRV),
        Err(MDNSError::NotFound)
    );

    let empty = response_with(vec![], vec![], vec![]);
    assert_eq!(
        empty.get_resource_record_of_type(MDNSTYPE::PTR),
        Err(MDNSError::NotFound)
    );
}

/// Labels must carry 1 to 63 bytes; anything else is rejected.
#[test]
fn from_labels_validates_label_lengths() {
    assert!(DomainName::from_labels(vec![b"ok".to_vec()]).is_ok());
    assert_eq!(
        DomainName::from_labels(vec![vec![]]),
        Err(MDNSError::InvalidEncoding)
    );
    assert_eq!(
        DomainName::from_labels(vec![vec![b'x'; 64]]),
        Err(MDNSError::InvalidEncoding)
    );
    assert!(DomainName::from_labels(vec![vec![b'x'; 63]]).is_ok());
}

/// Bytes survive the trip through bits and back.
#[test]
fn bytes_to_bits_round_trip() {
    let bytes = vec![0x00, 0xFF, 0xA5, 0x3C, 0x01];
    let bits = bytes_to_bits(&bytes);
    assert_eq!(bits.len(), 40);
    assert_eq!(bits_to_bytes(&bits), bytes);
}

/// The cursor reads most-significant bit first and reports exhaustion.
#[test]
fn cursor_reads_msb_first() {
    // 0xA5 = 1010_0101.
    let mut cursor = BitCursor::new(bytes_to_bits(&vec![0xA5]));
    assert_eq!(cursor.read_uint(4), Ok(0xA));
    assert_eq!(cursor.read_uint(4), Ok(0x5));
    assert_eq!(cursor.read_uint(1), Err(MDNSError::InsufficientBits));
}

/// A failed read consumes nothing: the same bits read differently.
#[test]
fn failed_read_consumes_nothing() {
    let mut cursor = BitCursor::new(bytes_to_bits(&vec![0xA5]));
    assert_eq!(cursor.read_uint(16), Err(MDNSError::InsufficientBits));
    assert_eq!(cursor.read_uint(8), Ok(0xA5));
}

/// Decoding a packed message that carries every section exercises the
/// whole chain in order.
#[test]
fn full_message_round_trip_with_all_sections() {
    let resp = response_with(
        vec![record(1, 10)],
        vec![record(2, 20)],
        vec![record(28, 30)],
    );
    let bits = resp.pack();
    let bytes = bits_to_bytes(&bits);
    let mut cursor = BitCursor::new(bytes_to_bits(&bytes));
    let again = MDNSResponse::unpack(&mut cursor).expect("the packed message decodes");
    assert_eq!(again, resp);
    assert_eq!(again.answers[0].rr_type, 1);
    assert_eq!(again.authorities[0].rr_type, 2);
    assert_eq!(again.additional[0].rr_type, 28);
}
