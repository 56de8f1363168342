use rand::Rng;
use vstd::prelude::*;

use crate::error::DnsError;
use crate::header::{spec_header_bytes, DNSHeader};
use crate::name::spec_encode_name;
use crate::question::DNSQuestion;
use crate::wire::u16_bytes;

verus! {

/// The well-known record type for an IPv4 host address.
pub const TYPE_A: u16 = 1;

/// The Internet class.
const CLASS_IN: u16 = 1;

/// The recursion-desired flag word: bit 8 set, all others clear.
const RECURSION_DESIRED: u16 = 0x0100;

/// The header of an outbound query with the given transaction id: one
/// question, no records, recursion desired.
pub open spec fn spec_query_header(id: u16) -> DNSHeader {
    DNSHeader {
        id,
        flags: 0x0100,
        num_questions: 1,
        num_answers: 0,
        num_authorities: 0,
        num_additionals: 0,
    }
}

/// Relies on `rand::Rng::gen_range` over `rand::thread_rng`: a uniformly
/// random transaction id drawn from `1..65535`, so never 0 and never 65535.
#[verifier::external_body]
fn random_id() -> (r: u16)
    ensures
        1 <= r < 65535,
{
    rand::thread_rng().gen_range(1..65535)
}

/// Builds an outbound query for `domain_name` and `record_type`: a header
/// with a fresh random id, one question, and the recursion-desired flag,
/// followed by the encoded question with class `IN`. Fails only when the
/// name fails to encode.
pub fn build_query(domain_name: &str, record_type: u16) -> (r: Result<Vec<u8>, DnsError>)
    ensures
        match spec_encode_name(domain_name@) {
            Ok(nb) => r matches Ok(v) && (exists|id: u16|
                1 <= id < 65535 && v@ == spec_header_bytes(spec_query_header(id)) + nb + u16_bytes(
                    record_type,
                ) + u16_bytes(1u16)),
            Err(e) => r == Err::<Vec<u8>, DnsError>(e),
        },
{
    let id = random_id();
    let header = DNSHeader {
        id,
        flags: RECURSION_DESIRED,
        num_questions: 1,
        num_answers: 0,
        num_authorities: 0,
        num_additionals: 0,
    };
    let question = DNSQuestion {
        name: domain_name.to_owned(),
        type_: record_type,
        class_: CLASS_IN,
    };
    let mut query_bytes = header.to_bytes();
    let mut q_bytes = match question.to_bytes() {
        Ok(b) => b,
        Err(e) => {
            return Err(e);
        },
    };
    query_bytes.append(&mut q_bytes);
    proof {
        assert(header == spec_query_header(id));
        assert(query_bytes@ =~= spec_header_bytes(spec_query_header(id)) + (spec_encode_name(
            domain_name@,
        )->Ok_0 + u16_bytes(record_type) + u16_bytes(CLASS_IN)));
        assert(query_bytes@ =~= spec_header_bytes(spec_query_header(id)) + spec_encode_name(
            domain_name@,
        )->Ok_0 + u16_bytes(record_type) + u16_bytes(CLASS_IN));
    }
    Ok(query_bytes)
}

} // verus!
