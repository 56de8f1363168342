use vstd::prelude::*;

use crate::error::DnsError;
use crate::name::{decode_dns_name, spec_decode_name};
use crate::wire::{be16, be32, read_u16_be, read_u32_be};

verus! {

/// The mathematical model of a record: name text, type, class, ttl, data.
pub type RecordModel = (Seq<char>, u16, u16, u32, Seq<u8>);

/// A DNS resource record. `data` is the raw payload, exactly as long as the
/// record's declared 16-bit length field; the codec does not interpret it.
#[derive(Clone, Debug, PartialEq, Eq)]
pub struct DNSRecord {
    pub name: String,
    pub type_: u16,
    pub class_: u16,
    pub ttl: u32,
    pub data: Vec<u8>,
}

impl View for DNSRecord {
    type V = RecordModel;

    open spec fn view(&self) -> RecordModel {
        (self.name@, self.type_, self.class_, self.ttl, self.data@)
    }
}

impl DeepView for DNSRecord {
    type V = RecordModel;

    open spec fn deep_view(&self) -> RecordModel {
        self.view()
    }
}

/// The record at `index` of `buf`: its name, then type, class, a 32-bit ttl,
/// a 16-bit data length, and exactly that many data bytes. Reading any field
/// past the end of the buffer fails with `TruncatedBuffer`.
pub open spec fn spec_parse_record(buf: Seq<u8>, index: int) -> Result<
    (int, RecordModel),
    DnsError,
> {
    match spec_decode_name(buf, index) {
        Err(e) => Err(e),
        Ok(p) => {
            let i = p.0;
            if i + 10 > buf.len() {
                Err(DnsError::TruncatedBuffer)
            } else {
                let dlen = be16(buf[i + 8], buf[i + 9]) as int;
                if i + 10 + dlen > buf.len() {
                    Err(DnsError::TruncatedBuffer)
                } else {
                    Ok(
                        (
                            i + 10 + dlen,
                            (
                                p.1,
                                be16(buf[i], buf[i + 1]),
                                be16(buf[i + 2], buf[i + 3]),
                                be32(buf[i + 4], buf[i + 5], buf[i + 6], buf[i + 7]),
                                buf.subrange(i + 10, i + 10 + dlen),
                            ),
                        ),
                    )
                }
            }
        },
    }
}

/// A record whose declared data length exceeds the bytes remaining after its
/// fixed fields is rejected with `TruncatedBuffer`.
pub proof fn lemma_record_truncated(buf: Seq<u8>, index: int)
    requires
        spec_decode_name(buf, index) is Ok,
        spec_decode_name(buf, index)->Ok_0.0 + 10 <= buf.len(),
        spec_decode_name(buf, index)->Ok_0.0 + 10 + be16(
            buf[spec_decode_name(buf, index)->Ok_0.0 + 8],
            buf[spec_decode_name(buf, index)->Ok_0.0 + 9],
        ) > buf.len(),
    ensures
        spec_parse_record(buf, index) == Err::<(int, RecordModel), DnsError>(
            DnsError::TruncatedBuffer,
        ),
{
}

impl DNSRecord {
    /// Parses the record at `index`, returning the offset just past its data.
    pub fn parse(buf: &[u8], index: usize) -> (r: Result<(usize, DNSRecord), DnsError>)
        ensures
            match spec_parse_record(buf@, index as int) {
                Ok(p) => r matches Ok(v) && v.0 == p.0 && v.1@ == p.1,
                Err(e) => r == Err::<(usize, DNSRecord), DnsError>(e),
            },
    {
        let (next, name) = match decode_dns_name(buf, index) {
            Ok(p) => p,
            Err(e) => {
                return Err(e);
            },
        };
        if buf.len() < 10 || next > buf.len() - 10 {
            return Err(DnsError::TruncatedBuffer);
        }
        let type_ = read_u16_be(buf, next);
        let class_ = read_u16_be(buf, next + 2);
        let ttl = read_u32_be(buf, next + 4);
        let dlen = read_u16_be(buf, next + 8) as usize;
        if dlen > buf.len() - (next + 10) {
            return Err(DnsError::TruncatedBuffer);
        }
        let data_sl = vstd::slice::slice_subrange(buf, next + 10, next + 10 + dlen);
        let data = vstd::slice::slice_to_vec(data_sl);
        Ok((next + 10 + dlen, DNSRecord { name, type_, class_, ttl, data }))
    }
}

} // verus!
