use vstd::prelude::*;

use crate::error::DnsError;
use crate::name::{decode_dns_name, encode_dns_name, spec_decode_name, spec_encode_name};
use crate::wire::{be16, push_u16_be, read_u16_be, u16_bytes};

verus! {

/// The mathematical model of a question: name text, type, class.
pub type QuestionModel = (Seq<char>, u16, u16);

/// A DNS question: a decoded dot-separated name (no trailing dot), a 16-bit
/// query type, and a 16-bit class.
#[derive(Clone, Debug, PartialEq, Eq)]
pub struct DNSQuestion {
    pub name: String,
    pub type_: u16,
    pub class_: u16,
}

impl View for DNSQuestion {
    type V = QuestionModel;

    open spec fn view(&self) -> QuestionModel {
        (self.name@, self.type_, self.class_)
    }
}

impl DeepView for DNSQuestion {
    type V = QuestionModel;

    open spec fn deep_view(&self) -> QuestionModel {
        self.view()
    }
}

/// The question at `index` of `buf`: its name, then a big-endian type and
/// class, or `TruncatedBuffer` when fewer than 4 bytes follow the name.
pub open spec fn spec_parse_question(buf: Seq<u8>, index: int) -> Result<
    (int, QuestionModel),
    DnsError,
> {
    match spec_decode_name(buf, index) {
        Err(e) => Err(e),
        Ok(p) => if p.0 + 4 > buf.len() {
            Err(DnsError::TruncatedBuffer)
        } else {
            Ok((p.0 + 4, (p.1, be16(buf[p.0], buf[p.0 + 1]), be16(buf[p.0 + 2], buf[p.0 + 3]))))
        },
    }
}

impl DNSQuestion {
    /// Serializes the question: the Name Codec encoding of `name`, followed
    /// by `type_` and `class_`, each big-endian.
    pub fn to_bytes(&self) -> (r: Result<Vec<u8>, DnsError>)
        ensures
            match spec_encode_name(self.name@) {
                Ok(nb) => r matches Ok(v) && v@ == nb + u16_bytes(self.type_) + u16_bytes(
                    self.class_,
                ),
                Err(e) => r == Err::<Vec<u8>, DnsError>(e),
            },
    {
        match encode_dns_name(self.name.as_str()) {
            Err(e) => Err(e),
            Ok(mut out) => {
                push_u16_be(&mut out, self.type_);
                push_u16_be(&mut out, self.class_);
                proof {
                    assert(out@ =~= spec_encode_name(self.name@)->Ok_0 + u16_bytes(self.type_)
                        + u16_bytes(self.class_));
                }
                Ok(out)
            },
        }
    }

    /// Parses the question at `index`, returning the offset just past it.
    pub fn parse(buf: &[u8], index: usize) -> (r: Result<(usize, DNSQuestion), DnsError>)
        ensures
            match spec_parse_question(buf@, index as int) {
                Ok(p) => r matches Ok(v) && v.0 == p.0 && v.1@ == p.1,
                Err(e) => r == Err::<(usize, DNSQuestion), DnsError>(e),
            },
    {
        let (next, name) = match decode_dns_name(buf, index) {
            Ok(p) => p,
            Err(e) => {
                return Err(e);
            },
        };
        if buf.len() < 4 || next > buf.len() - 4 {
            return Err(DnsError::TruncatedBuffer);
        }
        let type_ = read_u16_be(buf, next);
        let class_ = read_u16_be(buf, next + 2);
        Ok((next + 4, DNSQuestion { name, type_, class_ }))
    }
}

} // verus!
