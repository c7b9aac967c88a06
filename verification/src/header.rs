//! The fixed 96-bit message header: id, flag bits, and the four
//! section counts that drive the count-prefixed decode of the rest of
//! the message.

use vstd::prelude::*;

use crate::bits::{
    bits_of, bits_val, lemma_bits_of_len, lemma_bits_val_bound, lemma_bits_val_of,
    lemma_bits_val_single, lemma_pow2_values, push_uint, BitCursor,
};
use crate::error::MDNSError;

verus! {

/// The fixed-size header of every mDNS message.  No semantic
/// validation of flag combinations happens here; that is the
/// transport layer's concern.
#[derive(Clone, Copy, Debug, PartialEq, Eq, Structural)]
pub struct MDNSHeader {
    pub id: u16,
    pub qr: bool,
    pub opcode: u8,
    pub aa: bool,
    pub tc: bool,
    pub rd: bool,
    pub ra: bool,
    pub z: u8,
    pub rcode: u8,
    pub questions: u16,
    pub answer_rrs: u16,
    pub authority_rrs: u16,
    pub additional_rrs: u16,
}

impl MDNSHeader {
    /// The sub-byte fields fit their wire widths: opcode 4 bits,
    /// z 3 bits, rcode 4 bits.
    pub open spec fn wf(self) -> bool {
        self.opcode < 16 && self.z < 8 && self.rcode < 16
    }
}

/// What decoding a header from the front of `s` yields: the header
/// and the 96 bits consumed, or the error when fewer remain.
pub open spec fn parse_header(s: Seq<bool>) -> Result<(MDNSHeader, int), MDNSError> {
    if s.len() < 96 {
        Err(MDNSError::InsufficientBits)
    } else {
        Ok(
            (
                MDNSHeader {
                    id: bits_val(s.subrange(0, 16)) as u16,
                    qr: s[16],
                    opcode: bits_val(s.subrange(17, 21)) as u8,
                    aa: s[21],
                    tc: s[22],
                    rd: s[23],
                    ra: s[24],
                    z: bits_val(s.subrange(25, 28)) as u8,
                    rcode: bits_val(s.subrange(28, 32)) as u8,
                    questions: bits_val(s.subrange(32, 48)) as u16,
                    answer_rrs: bits_val(s.subrange(48, 64)) as u16,
                    authority_rrs: bits_val(s.subrange(64, 80)) as u16,
                    additional_rrs: bits_val(s.subrange(80, 96)) as u16,
                },
                96,
            ),
        )
    }
}

/// The 96-bit wire form of a header, fields in declaration order with
/// no padding between them.
pub open spec fn header_bits(h: MDNSHeader) -> Seq<bool> {
    bits_of(h.id as nat, 16) + seq![h.qr] + bits_of(h.opcode as nat, 4) + seq![h.aa] + seq![h.tc]
        + seq![h.rd] + seq![h.ra] + bits_of(h.z as nat, 3) + bits_of(h.rcode as nat, 4) + bits_of(
        h.questions as nat,
        16,
    ) + bits_of(h.answer_rrs as nat, 16) + bits_of(h.authority_rrs as nat, 16) + bits_of(
        h.additional_rrs as nat,
        16,
    )
}

impl MDNSHeader {
    /// Decode a header; fails with `InsufficientBits` when the cursor
    /// holds fewer than 96 bits, consuming nothing in that case.
    pub fn unpack(cursor: &mut BitCursor) -> (r: Result<MDNSHeader, MDNSError>)
        requires
            old(cursor).wf(),
        ensures
            final(cursor).wf(),
            final(cursor).all_bits() == old(cursor).all_bits(),
            match r {
                Ok(h) => {
                    &&& parse_header(old(cursor).remaining()) == Ok::<_, MDNSError>((h, 96int))
                    &&& h.wf()
                    &&& final(cursor).position() == old(cursor).position() + 96
                    &&& final(cursor).remaining() == old(cursor).remaining().skip(96)
                },
                Err(e) => {
                    &&& parse_header(old(cursor).remaining()) == Err::<(MDNSHeader, int), _>(e)
                    &&& final(cursor).position() == old(cursor).position()
                },
            },
    {
        let ghost s: Seq<bool> = old(cursor).remaining();
        if cursor.remaining_len() < 96 {
            return Err(MDNSError::InsufficientBits);
        }
        proof {
            assert(s.skip(0) =~= s);
        }
        let id = read_field(cursor, 16, Ghost(s), Ghost(0));
        let qr = read_field(cursor, 1, Ghost(s), Ghost(16));
        let opcode = read_field(cursor, 4, Ghost(s), Ghost(17));
        let aa = read_field(cursor, 1, Ghost(s), Ghost(21));
        let tc = read_field(cursor, 1, Ghost(s), Ghost(22));
        let rd = read_field(cursor, 1, Ghost(s), Ghost(23));
        let ra = read_field(cursor, 1, Ghost(s), Ghost(24));
        let z = read_field(cursor, 3, Ghost(s), Ghost(25));
        let rcode = read_field(cursor, 4, Ghost(s), Ghost(28));
        let questions = read_field(cursor, 16, Ghost(s), Ghost(32));
        let answer_rrs = read_field(cursor, 16, Ghost(s), Ghost(48));
        let authority_rrs = read_field(cursor, 16, Ghost(s), Ghost(64));
        let additional_rrs = read_field(cursor, 16, Ghost(s), Ghost(80));
        proof {
            lemma_bits_val_single(s.subrange(16, 17));
            lemma_bits_val_single(s.subrange(21, 22));
            lemma_bits_val_single(s.subrange(22, 23));
            lemma_bits_val_single(s.subrange(23, 24));
            lemma_bits_val_single(s.subrange(24, 25));
            lemma_pow2_values();
            assert(cursor.remaining() =~= s.skip(96));
        }
        let h = MDNSHeader {
            id: id as u16,
            qr: qr == 1,
            opcode: opcode as u8,
            aa: aa == 1,
            tc: tc == 1,
            rd: rd == 1,
            ra: ra == 1,
            z: z as u8,
            rcode: rcode as u8,
            questions: questions as u16,
            answer_rrs: answer_rrs as u16,
            authority_rrs: authority_rrs as u16,
            additional_rrs: additional_rrs as u16,
        };
        Ok(h)
    }

    /// Append the 96-bit wire form of this header.
    #[verifier::rlimit(100)]
    pub fn pack(&self, out: &mut Vec<bool>)
        requires
            self.wf(),
        ensures
            final(out)@ == old(out)@ + header_bits(*self),
    {
        proof {
            lemma_pow2_values();
        }
        push_uint(out, self.id as u32, 16);
        out.push(self.qr);
        push_uint(out, self.opcode as u32, 4);
        out.push(self.aa);
        out.push(self.tc);
        out.push(self.rd);
        out.push(self.ra);
        push_uint(out, self.z as u32, 3);
        push_uint(out, self.rcode as u32, 4);
        push_uint(out, self.questions as u32, 16);
        push_uint(out, self.answer_rrs as u32, 16);
        push_uint(out, self.authority_rrs as u32, 16);
        push_uint(out, self.additional_rrs as u32, 16);
        proof {
            assert(out@ =~= old(out)@ + header_bits(*self));
        }
    }
}

/// Read one fixed-width header field, relating it to its place in the
/// whole header's bit string.
fn read_field(cursor: &mut BitCursor, width: usize, Ghost(s): Ghost<Seq<bool>>, Ghost(off): Ghost<
    int,
>) -> (r: u32)
    requires
        old(cursor).wf(),
        1 <= width <= 32,
        0 <= off,
        off + width <= s.len(),
        old(cursor).remaining() == s.skip(off),
    ensures
        final(cursor).wf(),
        final(cursor).all_bits() == old(cursor).all_bits(),
        final(cursor).position() == old(cursor).position() + width,
        final(cursor).remaining() == s.skip(off + width),
        r as nat == bits_val(s.subrange(off, off + width)),
        r < crate::bits::pow2(width as nat),
{
    let r = match cursor.read_uint(width) {
        Ok(v) => v,
        Err(_) => {
            // Unreachable: the caller established that `width` bits remain.
            proof {
                assert(false);
            }
            0
        },
    };
    proof {
        assert(old(cursor).remaining().take(width as int) =~= s.subrange(off, off + width));
        assert(cursor.remaining() =~= old(cursor).remaining().skip(width as int));
        assert(old(cursor).remaining().skip(width as int) =~= s.skip(off + width));
        lemma_bits_val_bound(s.subrange(off, off + width));
    }
    r
}

/// Decoding inverts encoding for headers: parsing the wire form of a
/// well-formed header yields that header back, whatever follows it.
pub proof fn lemma_parse_header_bits(h: MDNSHeader, rest: Seq<bool>)
    requires
        h.wf(),
    ensures
        header_bits(h).len() == 96,
        parse_header(header_bits(h) + rest) == Ok::<_, MDNSError>((h, 96int)),
{
    broadcast use lemma_bits_of_len;

    lemma_pow2_values();
    let s = header_bits(h) + rest;
    assert(s.subrange(0, 16) =~= bits_of(h.id as nat, 16));
    lemma_bits_val_of(h.id as nat, 16);
    assert(s[16] == h.qr);
    assert(s.subrange(17, 21) =~= bits_of(h.opcode as nat, 4));
    lemma_bits_val_of(h.opcode as nat, 4);
    assert(s[21] == h.aa);
    assert(s[22] == h.tc);
    assert(s[23] == h.rd);
    assert(s[24] == h.ra);
    assert(s.subrange(25, 28) =~= bits_of(h.z as nat, 3));
    lemma_bits_val_of(h.z as nat, 3);
    assert(s.subrange(28, 32) =~= bits_of(h.rcode as nat, 4));
    lemma_bits_val_of(h.rcode as nat, 4);
    assert(s.subrange(32, 48) =~= bits_of(h.questions as nat, 16));
    lemma_bits_val_of(h.questions as nat, 16);
    assert(s.subrange(48, 64) =~= bits_of(h.answer_rrs as nat, 16));
    lemma_bits_val_of(h.answer_rrs as nat, 16);
    assert(s.subrange(64, 80) =~= bits_of(h.authority_rrs as nat, 16));
    lemma_bits_val_of(h.authority_rrs as nat, 16);
    assert(s.subrange(80, 96) =~= bits_of(h.additional_rrs as nat, 16));
    lemma_bits_val_of(h.additional_rrs as nat, 16);
}

} // verus!
