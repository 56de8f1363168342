//! A codec for the DNS wire protocol.
//!
//! The library serializes a DNS query message to bytes and parses a raw DNS
//! response buffer back into structured records: a fixed 12-byte header,
//! length-prefixed name labels with backward compression pointers, questions,
//! and resource records. It performs no I/O of its own; a transport shim
//! supplies the buffers.

mod error;
mod header;
mod name;
mod packet;
mod query;
mod question;
mod record;
mod wire;

pub use error::DnsError;
pub use header::{DNSHeader, spec_header_bytes, spec_parse_header, lemma_header_round_trip};
pub use name::{is_label_start, labels_wellformed_from, lemma_long_label_rejected, lemma_name_round_trip, lemma_pointer_not_backward, spec_split_from, valid_wire_name, decode_dns_name, decode_compressed_dns_name, encode_dns_name, spec_label_end, spec_encode_from, spec_encode_name, spec_decode_labels, spec_join_labels, spec_decode_name, spec_decode_pointer};
pub use packet::{DNSPacket, PacketModel, spec_parse_questions, spec_parse_records, spec_parse_packet};
pub use query::{build_query, spec_query_header, TYPE_A};
pub use question::{DNSQuestion, QuestionModel, spec_parse_question};
pub use record::{DNSRecord, RecordModel, spec_parse_record, lemma_record_truncated};
pub use wire::{be16, be32, u16_bytes};
