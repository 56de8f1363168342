use vstd::prelude::*;

use crate::error::DnsError;
use crate::header::{spec_parse_header, DNSHeader};
use crate::question::{spec_parse_question, DNSQuestion, QuestionModel};
use crate::record::{spec_parse_record, DNSRecord, RecordModel};

verus! {

/// The mathematical model of a whole message: header, then the questions and
/// the three record sections, each in wire order.
pub type PacketModel = (
    DNSHeader,
    Seq<QuestionModel>,
    Seq<RecordModel>,
    Seq<RecordModel>,
    Seq<RecordModel>,
);

/// A parsed DNS message: the header and the four sections its counts
/// declare, in wire order.
#[derive(Clone, Debug, PartialEq, Eq)]
pub struct DNSPacket {
    pub header: DNSHeader,
    pub questions: Vec<DNSQuestion>,
    pub answers: Vec<DNSRecord>,
    pub authorities: Vec<DNSRecord>,
    pub additionals: Vec<DNSRecord>,
}

impl View for DNSPacket {
    type V = PacketModel;

    open spec fn view(&self) -> PacketModel {
        (
            self.header,
            self.questions.deep_view(),
            self.answers.deep_view(),
            self.authorities.deep_view(),
            self.additionals.deep_view(),
        )
    }
}

/// `count` questions in a row from `index` on, and the offset just past them.
pub open spec fn spec_parse_questions(buf: Seq<u8>, index: int, count: int) -> Result<
    (int, Seq<QuestionModel>),
    DnsError,
>
    decreases count,
{
    if count <= 0 {
        Ok((index, Seq::empty()))
    } else {
        match spec_parse_question(buf, index) {
            Err(e) => Err(e),
            Ok(p) => match spec_parse_questions(buf, p.0, count - 1) {
                Err(e) => Err(e),
                Ok(q) => Ok((q.0, seq![p.1] + q.1)),
            },
        }
    }
}

/// `count` records in a row from `index` on, and the offset just past them.
pub open spec fn spec_parse_records(buf: Seq<u8>, index: int, count: int) -> Result<
    (int, Seq<RecordModel>),
    DnsError,
>
    decreases count,
{
    if count <= 0 {
        Ok((index, Seq::empty()))
    } else {
        match spec_parse_record(buf, index) {
            Err(e) => Err(e),
            Ok(p) => match spec_parse_records(buf, p.0, count - 1) {
                Err(e) => Err(e),
                Ok(q) => Ok((q.0, seq![p.1] + q.1)),
            },
        }
    }
}

/// The whole message: the header from bytes `[0, 12)`, then exactly the
/// numbers of questions, answers, authorities and additionals the header
/// declares, each section starting where the previous one ended. Any
/// failure of a sub-decode aborts the whole parse.
pub open spec fn spec_parse_packet(buf: Seq<u8>) -> Result<PacketModel, DnsError> {
    match spec_parse_header(buf) {
        Err(e) => Err(e),
        Ok(h) => match spec_parse_questions(buf, 12, h.num_questions as int) {
            Err(e) => Err(e),
            Ok(qs) => match spec_parse_records(buf, qs.0, h.num_answers as int) {
                Err(e) => Err(e),
                Ok(ans) => match spec_parse_records(buf, ans.0, h.num_authorities as int) {
                    Err(e) => Err(e),
                    Ok(auth) => match spec_parse_records(buf, auth.0, h.num_additionals as int) {
                        Err(e) => Err(e),
                        Ok(add) => Ok((h, qs.1, ans.1, auth.1, add.1)),
                    },
                },
            },
        },
    }
}

/// Parses `count` questions in a row, advancing the cursor after each.
fn parse_questions(buf: &[u8], index: usize, count: u16) -> (r: Result<
    (usize, Vec<DNSQuestion>),
    DnsError,
>)
    ensures
        match spec_parse_questions(buf@, index as int, count as int) {
            Ok(p) => r matches Ok(v) && v.0 == p.0 && v.1.deep_view() == p.1,
            Err(e) => r == Err::<(usize, Vec<DNSQuestion>), DnsError>(e),
        },
{
    let mut out: Vec<DNSQuestion> = Vec::new();
    let mut idx: usize = index;
    let mut c: u16 = 0;
    proof {
        if spec_parse_questions(buf@, index as int, count as int) is Ok {
            assert(out.deep_view() + spec_parse_questions(buf@, index as int, count as int)->Ok_0.1
                =~= spec_parse_questions(buf@, index as int, count as int)->Ok_0.1);
        }
    }
    while c < count
        invariant
            c <= count,
            match spec_parse_questions(buf@, idx as int, count as int - c as int) {
                Ok(p) => spec_parse_questions(buf@, index as int, count as int) == Ok::<
                    (int, Seq<QuestionModel>),
                    DnsError,
                >((p.0, out.deep_view() + p.1)),
                Err(e) => spec_parse_questions(buf@, index as int, count as int) == Err::<
                    (int, Seq<QuestionModel>),
                    DnsError,
                >(e),
            },
        decreases count - c,
    {
        match DNSQuestion::parse(buf, idx) {
            Err(e) => {
                return Err(e);
            },
            Ok((ni, q)) => {
                proof {
                    let dv = out.deep_view();
                    match spec_parse_questions(buf@, ni as int, count as int - c as int - 1) {
                        Ok(rest) => {
                            assert(dv + (seq![q@] + rest.1) =~= dv.push(q@) + rest.1);
                        },
                        Err(e) => {},
                    }
                }
                let ghost dv_before = out.deep_view();
                out.push(q);
                proof {
                    assert(out.deep_view() =~= dv_before.push(q@));
                }
                idx = ni;
                c = c + 1;
            },
        }
    }
    proof {
        if spec_parse_questions(buf@, idx as int, 0) is Ok {
            assert(out.deep_view() + Seq::<QuestionModel>::empty() =~= out.deep_view());
        }
    }
    Ok((idx, out))
}

/// Parses `count` records in a row, advancing the cursor after each.
fn parse_records(buf: &[u8], index: usize, count: u16) -> (r: Result<
    (usize, Vec<DNSRecord>),
    DnsError,
>)
    ensures
        match spec_parse_records(buf@, index as int, count as int) {
            Ok(p) => r matches Ok(v) && v.0 == p.0 && v.1.deep_view() == p.1,
            Err(e) => r == Err::<(usize, Vec<DNSRecord>), DnsError>(e),
        },
{
    let mut out: Vec<DNSRecord> = Vec::new();
    let mut idx: usize = index;
    let mut c: u16 = 0;
    proof {
        if spec_parse_records(buf@, index as int, count as int) is Ok {
            assert(out.deep_view() + spec_parse_records(buf@, index as int, count as int)->Ok_0.1
                =~= spec_parse_records(buf@, index as int, count as int)->Ok_0.1);
        }
    }
    while c < count
        invariant
            c <= count,
            match spec_parse_records(buf@, idx as int, count as int - c as int) {
                Ok(p) => spec_parse_records(buf@, index as int, count as int) == Ok::<
                    (int, Seq<RecordModel>),
                    DnsError,
                >((p.0, out.deep_view() + p.1)),
                Err(e) => spec_parse_records(buf@, index as int, count as int) == Err::<
                    (int, Seq<RecordModel>),
                    DnsError,
                >(e),
            },
        decreases count - c,
    {
        match DNSRecord::parse(buf, idx) {
            Err(e) => {
                return Err(e);
            },
            Ok((ni, rec)) => {
                proof {
                    let dv = out.deep_view();
                    match spec_parse_records(buf@, ni as int, count as int - c as int - 1) {
                        Ok(rest) => {
                            assert(dv + (seq![rec@] + rest.1) =~= dv.push(rec@) + rest.1);
                        },
                        Err(e) => {},
                    }
                }
                let ghost dv_before = out.deep_view();
                out.push(rec);
                proof {
                    assert(out.deep_view() =~= dv_before.push(rec@));
                }
                idx = ni;
                c = c + 1;
            },
        }
    }
    proof {
        if spec_parse_records(buf@, idx as int, 0) is Ok {
            assert(out.deep_view() + Seq::<RecordModel>::empty() =~= out.deep_view());
        }
    }
    Ok((idx, out))
}

impl DNSPacket {
    /// Parses a whole message: the header, then exactly the numbers of
    /// questions, answers, authorities and additionals it declares, in that
    /// order. No partial message is ever returned.
    pub fn parse(buf: &[u8]) -> (r: Result<DNSPacket, DnsError>)
        ensures
            match spec_parse_packet(buf@) {
                Ok(pm) => r matches Ok(v) && v@ == pm,
                Err(e) => r == Err::<DNSPacket, DnsError>(e),
            },
    {
        let header = match DNSHeader::parse(buf) {
            Ok(h) => h,
            Err(e) => {
                return Err(e);
            },
        };
        let (i1, questions) = match parse_questions(buf, 12, header.num_questions) {
            Ok(p) => p,
            Err(e) => {
                return Err(e);
            },
        };
        let (i2, answers) = match parse_records(buf, i1, header.num_answers) {
            Ok(p) => p,
            Err(e) => {
                return Err(e);
            },
        };
        let (i3, authorities) = match parse_records(buf, i2, header.num_authorities) {
            Ok(p) => p,
            Err(e) => {
                return Err(e);
            },
        };
        let (_i4, additionals) = match parse_records(buf, i3, header.num_additionals) {
            Ok(p) => p,
            Err(e) => {
                return Err(e);
            },
        };
        Ok(DNSPacket { header, questions, answers, authorities, additionals })
    }
}

} // verus!
