use vstd::prelude::*;

use crate::error::DnsError;
use crate::wire::{be16, lemma_u16_bytes_be16, push_u16_be, read_u16_be, u16_bytes};

verus! {

/// The fixed 12-byte DNS message header: an id, the flag word, and the four
/// section counts. The counts say how many entries of each kind follow in the
/// rest of the message; the parser trusts them literally.
#[derive(Clone, Copy, Debug, PartialEq, Eq, Structural)]
pub struct DNSHeader {
    pub id: u16,
    pub flags: u16,
    pub num_questions: u16,
    pub num_answers: u16,
    pub num_authorities: u16,
    pub num_additionals: u16,
}

/// The 12 bytes of a header on the wire: each field big-endian, in the fixed
/// order id, flags, questions, answers, authorities, additionals.
pub open spec fn spec_header_bytes(h: DNSHeader) -> Seq<u8> {
    u16_bytes(h.id) + u16_bytes(h.flags) + u16_bytes(h.num_questions) + u16_bytes(h.num_answers)
        + u16_bytes(h.num_authorities) + u16_bytes(h.num_additionals)
}

/// The header read from bytes `[0, 12)` of a buffer, or `TruncatedBuffer`
/// when fewer than 12 bytes are available.
pub open spec fn spec_parse_header(buf: Seq<u8>) -> Result<DNSHeader, DnsError> {
    if buf.len() < 12 {
        Err(DnsError::TruncatedBuffer)
    } else {
        Ok(
            DNSHeader {
                id: be16(buf[0], buf[1]),
                flags: be16(buf[2], buf[3]),
                num_questions: be16(buf[4], buf[5]),
                num_answers: be16(buf[6], buf[7]),
                num_authorities: be16(buf[8], buf[9]),
                num_additionals: be16(buf[10], buf[11]),
            },
        )
    }
}

impl DNSHeader {
    /// Serializes the header to its 12 wire bytes.
    pub fn to_bytes(&self) -> (r: Vec<u8>)
        ensures
            r@ == spec_header_bytes(*self),
            r@.len() == 12,
    {
        let mut out: Vec<u8> = Vec::new();
        push_u16_be(&mut out, self.id);
        push_u16_be(&mut out, self.flags);
        push_u16_be(&mut out, self.num_questions);
        push_u16_be(&mut out, self.num_answers);
        push_u16_be(&mut out, self.num_authorities);
        push_u16_be(&mut out, self.num_additionals);
        proof {
            assert(out@ =~= spec_header_bytes(*self));
        }
        out
    }

    /// Reads a header from bytes `[0, 12)` of the buffer.
    pub fn parse(buf: &[u8]) -> (r: Result<DNSHeader, DnsError>)
        ensures
            r == spec_parse_header(buf@),
    {
        if buf.len() < 12 {
            return Err(DnsError::TruncatedBuffer);
        }
        Ok(
            DNSHeader {
                id: read_u16_be(buf, 0),
                flags: read_u16_be(buf, 2),
                num_questions: read_u16_be(buf, 4),
                num_answers: read_u16_be(buf, 6),
                num_authorities: read_u16_be(buf, 8),
                num_additionals: read_u16_be(buf, 10),
            },
        )
    }
}

/// Parsing the 12 bytes a header serializes to yields the header back,
/// whatever its field values.
pub proof fn lemma_header_round_trip(h: DNSHeader)
    ensures
        spec_parse_header(spec_header_bytes(h)) == Ok::<DNSHeader, DnsError>(h),
{
    let b = spec_header_bytes(h);
    assert(b.len() == 12);
    lemma_u16_bytes_be16(h.id);
    lemma_u16_bytes_be16(h.flags);
    lemma_u16_bytes_be16(h.num_questions);
    lemma_u16_bytes_be16(h.num_answers);
    lemma_u16_bytes_be16(h.num_authorities);
    lemma_u16_bytes_be16(h.num_additionals);
    assert(b[0] == u16_bytes(h.id)[0] && b[1] == u16_bytes(h.id)[1]);
    assert(b[2] == u16_bytes(h.flags)[0] && b[3] == u16_bytes(h.flags)[1]);
    assert(b[4] == u16_bytes(h.num_questions)[0] && b[5] == u16_bytes(h.num_questions)[1]);
    assert(b[6] == u16_bytes(h.num_answers)[0] && b[7] == u16_bytes(h.num_answers)[1]);
    assert(b[8] == u16_bytes(h.num_authorities)[0] && b[9] == u16_bytes(h.num_authorities)[1]);
    assert(b[10] == u16_bytes(h.num_additionals)[0] && b[11] == u16_bytes(h.num_additionals)[1]);
}

} // verus!
