use vstd::prelude::*;
use vstd::utf8::*;

use crate::error::DnsError;

verus! {

// ---------------------------------------------------------------------------
// Encoding: a dot-separated name becomes length-prefixed labels plus a
// terminating zero byte. No compression is ever produced.
// ---------------------------------------------------------------------------

/// The end of the label that starts at byte `i` of a name: the first dot at
/// or after `i`, or the end of the name.
pub open spec fn spec_label_end(b: Seq<u8>, i: int) -> int
    decreases b.len() - i,
{
    if i < 0 || i >= b.len() {
        b.len() as int
    } else if b[i] == 0x2e {
        i
    } else {
        spec_label_end(b, i + 1)
    }
}

/// Basic facts about `spec_label_end`: it stays within the name, nothing
/// before it is a dot, and it stops only at a dot or at the end.
pub proof fn lemma_label_end(b: Seq<u8>, i: int)
    requires
        0 <= i <= b.len(),
    ensures
        i <= spec_label_end(b, i) <= b.len(),
        forall|k: int| i <= k < spec_label_end(b, i) ==> b[k] != 0x2e,
        spec_label_end(b, i) < b.len() ==> b[spec_label_end(b, i)] == 0x2e,
    decreases b.len() - i,
{
    if i < b.len() && b[i] != 0x2e {
        lemma_label_end(b, i + 1);
    }
}

/// The wire bytes of the labels of `b` from byte `i` on: each non-empty
/// dot-separated part becomes its length byte followed by its bytes, and a
/// single zero byte ends the name. A part longer than 63 bytes is refused
/// with `InvalidLabel`.
pub open spec fn spec_encode_from(b: Seq<u8>, i: int) -> Result<Seq<u8>, DnsError>
    decreases b.len() - i,
    via spec_encode_from_dec
{
    let e = spec_label_end(b, i);
    let lab = b.subrange(i, e);
    if lab.len() > 63 {
        Err(DnsError::InvalidLabel)
    } else {
        let enc = if lab.len() == 0 {
            Seq::<u8>::empty()
        } else {
            seq![lab.len() as u8] + lab
        };
        if e >= b.len() {
            Ok(enc + seq![0u8])
        } else {
            match spec_encode_from(b, e + 1) {
                Ok(rest) => Ok(enc + rest),
                Err(err) => Err(err),
            }
        }
    }
}

#[via_fn]
proof fn spec_encode_from_dec(b: Seq<u8>, i: int) {
    if 0 <= i <= b.len() {
        lemma_label_end(b, i);
    }
}

/// The wire encoding of a whole domain name, given as its character sequence.
pub open spec fn spec_encode_name(name: Seq<char>) -> Result<Seq<u8>, DnsError> {
    spec_encode_from(encode_utf8(name), 0)
}

/// Scanning from `i` to the first dot (or the end) finds the label end.
proof fn lemma_label_end_scan(b: Seq<u8>, i: int, j: int)
    requires
        0 <= i <= j <= b.len(),
        forall|k: int| i <= k < j ==> b[k] != 0x2e,
        j < b.len() ==> b[j] == 0x2e,
    ensures
        spec_label_end(b, i) == j,
    decreases j - i,
{
    if i < j {
        lemma_label_end_scan(b, i + 1, j);
    }
}

/// What the encoder has emitted so far, followed by the encoding of the
/// remaining labels, is the encoding of the whole name.
spec fn encode_continues(b: Seq<u8>, i: int, done: Seq<u8>) -> bool {
    match spec_encode_from(b, i) {
        Ok(rest) => spec_encode_from(b, 0) == Ok::<Seq<u8>, DnsError>(done + rest),
        Err(e) => spec_encode_from(b, 0) == Err::<Seq<u8>, DnsError>(e),
    }
}

/// Encodes a dot-separated domain name as length-prefixed labels ending in a
/// zero byte. Empty parts are skipped; a part longer than 63 bytes fails with
/// `InvalidLabel`.
pub fn encode_dns_name(domain_name: &str) -> (r: Result<Vec<u8>, DnsError>)
    ensures
        match spec_encode_name(domain_name@) {
            Ok(bytes) => r matches Ok(v) && v@ == bytes,
            Err(e) => r == Err::<Vec<u8>, DnsError>(e),
        },
{
    let bytes_sl: &[u8] = domain_name.as_bytes();
    let n: usize = bytes_sl.len();
    let ghost b = bytes_sl@;
    let mut out: Vec<u8> = Vec::new();
    let mut i: usize = 0;
    proof {
        if spec_encode_from(b, 0) is Ok {
            assert(Seq::<u8>::empty() + spec_encode_from(b, 0)->Ok_0 =~= spec_encode_from(
                b,
                0,
            )->Ok_0);
        }
    }
    loop
        invariant
            0 <= i <= n,
            n == b.len(),
            b == bytes_sl@,
            b == encode_utf8(domain_name@),
            encode_continues(b, i as int, out@),
        decreases n - i,
    {
        let mut j: usize = i;
        while j < n && bytes_sl[j] != 0x2e
            invariant
                i <= j <= n,
                n == b.len(),
                b == bytes_sl@,
                forall|k: int| i <= k < j ==> b[k] != 0x2e,
            decreases n - j,
        {
            j += 1;
        }
        proof {
            lemma_label_end_scan(b, i as int, j as int);
        }
        let lab_len = j - i;
        if lab_len > 63 {
            return Err(DnsError::InvalidLabel);
        }
        let ghost head_out = out@;
        let ghost lab = b.subrange(i as int, j as int);
        let ghost enc = if lab.len() == 0 {
            Seq::<u8>::empty()
        } else {
            seq![lab.len() as u8] + lab
        };
        if lab_len > 0 {
            out.push(lab_len as u8);
            let mut k = i;
            while k < j
                invariant
                    i <= k <= j <= n,
                    n == b.len(),
                    b == bytes_sl@,
                    out@ == head_out + seq![(j - i) as u8] + b.subrange(i as int, k as int),
                decreases j - k,
            {
                out.push(bytes_sl[k]);
                k += 1;
                proof {
                    assert(out@ =~= head_out + seq![(j - i) as u8] + b.subrange(
                        i as int,
                        k as int,
                    ));
                }
            }
            proof {
                assert(out@ =~= head_out + enc);
            }
        } else {
            proof {
                assert(out@ =~= head_out + enc);
            }
        }
        if j == n {
            out.push(0u8);
            proof {
                assert(spec_encode_from(b, i as int) == Ok::<Seq<u8>, DnsError>(
                    enc + seq![0u8],
                ));
                assert(out@ =~= head_out + (enc + seq![0u8]));
            }
            return Ok(out);
        }
        proof {
            match spec_encode_from(b, j + 1 as int) {
                Ok(rest) => {
                    assert(spec_encode_from(b, i as int) == Ok::<Seq<u8>, DnsError>(enc + rest));
                    assert(head_out + (enc + rest) =~= (head_out + enc) + rest);
                },
                Err(e) => {
                    assert(spec_encode_from(b, i as int) == Err::<Seq<u8>, DnsError>(e));
                },
            }
        }
        i = j + 1;
    }
}

// ---------------------------------------------------------------------------
// Decoding: length-prefixed labels, with backward compression pointers.
// ---------------------------------------------------------------------------

/// The labels of the name that starts at offset `start` of `buf`, read from
/// the cursor `index` on, each as its raw bytes. A length byte of zero ends
/// the name. A byte with either of its top two bits set is a compression
/// pointer: its low six bits and the following byte form a target offset,
/// which must lie strictly before `start`; the name decoded there is the tail
/// of this one. Label bytes must be valid UTF-8 text.
pub open spec fn spec_decode_labels(buf: Seq<u8>, start: int, index: int) -> Result<
    (int, Seq<Seq<u8>>),
    DnsError,
>
    decreases start, buf.len() - index,
{
    if index < 0 || index >= buf.len() {
        Err(DnsError::TruncatedBuffer)
    } else {
        let l = buf[index];
        if l == 0 {
            Ok((index + 1, Seq::empty()))
        } else if l & 0xc0 != 0 {
            if index + 1 >= buf.len() {
                Err(DnsError::TruncatedBuffer)
            } else {
                let target = (l & 0x3f) * 256 + buf[index + 1];
                if target >= start {
                    Err(DnsError::CompressionLoop)
                } else {
                    match spec_decode_labels(buf, target, target) {
                        Ok(p) => Ok((index + 2, p.1)),
                        Err(e) => Err(e),
                    }
                }
            }
        } else {
            if index + 1 + l > buf.len() {
                Err(DnsError::TruncatedBuffer)
            } else {
                let lab = buf.subrange(index + 1, index + 1 + l);
                if !valid_utf8(lab) {
                    Err(DnsError::InvalidEncoding)
                } else {
                    match spec_decode_labels(buf, start, index + 1 + l) {
                        Ok(p) => Ok((p.0, seq![lab] + p.1)),
                        Err(e) => Err(e),
                    }
                }
            }
        }
    }
}

/// Labels joined with dots, as name bytes.
pub open spec fn spec_join_labels(parts: Seq<Seq<u8>>) -> Seq<u8>
    decreases parts.len(),
{
    if parts.len() == 0 {
        Seq::empty()
    } else if parts.len() == 1 {
        parts[0]
    } else {
        parts[0] + seq![0x2eu8] + spec_join_labels(parts.drop_first())
    }
}

/// The name that starts at offset `start` of `buf`: the offset just past it
/// and its decoded text, or the error the wire data forces.
pub open spec fn spec_decode_name(buf: Seq<u8>, start: int) -> Result<(int, Seq<char>), DnsError> {
    match spec_decode_labels(buf, start, start) {
        Ok(p) => Ok((p.0, decode_utf8(spec_join_labels(p.1)))),
        Err(e) => Err(e),
    }
}

/// The tail of a name whose next length byte `l` turned out to be a
/// compression pointer: `index` points at the pointer's second byte and
/// `name_start` is the offset where the whole name began.
pub open spec fn spec_decode_pointer(
    buf: Seq<u8>,
    l: u8,
    index: int,
    name_start: int,
) -> Result<(int, Seq<char>), DnsError> {
    if index < 0 || index >= buf.len() {
        Err(DnsError::TruncatedBuffer)
    } else {
        let target = (l & 0x3f) * 256 + buf[index];
        if target >= name_start {
            Err(DnsError::CompressionLoop)
        } else {
            match spec_decode_name(buf, target) {
                Ok(p) => Ok((index + 1, p.1)),
                Err(e) => Err(e),
            }
        }
    }
}

// ---------------------------------------------------------------------------
// Trusted boundary: UTF-8 validation by the standard library.
// ---------------------------------------------------------------------------

/// Relies on `core::str::from_utf8`: it succeeds exactly when the bytes are
/// valid UTF-8, and then returns the text those bytes encode.
#[verifier::external_body]
fn bytes_as_str(v: &[u8]) -> (r: Option<&str>)
    ensures
        r is Some <==> valid_utf8(v@),
        r matches Some(s) ==> s@ == decode_utf8(v@),
{
    core::str::from_utf8(v).ok()
}

// ---------------------------------------------------------------------------
// Facts about joining labels.
// ---------------------------------------------------------------------------

/// A single dot is valid UTF-8.
pub proof fn lemma_dot_valid()
    ensures
        valid_utf8(seq![0x2eu8]),
{
    let s = seq![0x2eu8];
    assert(0x2eu8 & 0x7f == 0x2e) by (bit_vector);
    assert(is_leading_byte_width_1(s[0]));
    assert(length_of_first_scalar(s) == 1);
    assert(decode_first_codepoint(s) == 0x2e);
    assert(valid_first_scalar(s));
    assert(pop_first_scalar(s) =~= Seq::<u8>::empty());
    assert(valid_utf8(pop_first_scalar(s)));
    assert(valid_utf8(s));
}

/// Joining labels that are each valid UTF-8 yields valid UTF-8.
pub proof fn lemma_join_valid(parts: Seq<Seq<u8>>)
    requires
        forall|k: int| 0 <= k < parts.len() ==> valid_utf8(#[trigger] parts[k]),
    ensures
        valid_utf8(spec_join_labels(parts)),
    decreases parts.len(),
{
    if parts.len() == 0 {
        assert(valid_utf8(Seq::<u8>::empty()));
    } else if parts.len() == 1 {
        assert(spec_join_labels(parts) == parts[0]);
    } else {
        let rest = parts.drop_first();
        assert(forall|k: int| 0 <= k < rest.len() ==> valid_utf8(#[trigger] rest[k]));
        lemma_join_valid(rest);
        lemma_dot_valid();
        valid_utf8_concat(seq![0x2eu8], spec_join_labels(rest));
        valid_utf8_concat(parts[0], seq![0x2eu8] + spec_join_labels(rest));
        assert(parts[0] + (seq![0x2eu8] + spec_join_labels(rest)) =~= spec_join_labels(parts));
    }
}

/// Appending one more label to a join adds a dot exactly when labels were
/// already present.
pub proof fn lemma_join_push(parts: Seq<Seq<u8>>, lab: Seq<u8>)
    ensures
        parts.len() == 0 ==> spec_join_labels(parts.push(lab)) == lab,
        parts.len() > 0 ==> spec_join_labels(parts.push(lab)) == spec_join_labels(parts)
            + seq![0x2eu8] + lab,
    decreases parts.len(),
{
    let whole = parts.push(lab);
    if parts.len() == 0 {
        assert(whole.len() == 1);
        assert(spec_join_labels(whole) == whole[0]);
        assert(whole[0] == lab);
    } else if parts.len() == 1 {
        assert(whole.len() == 2);
        assert(whole.drop_first() =~= seq![lab]);
        assert(spec_join_labels(whole) == whole[0] + seq![0x2eu8] + spec_join_labels(seq![lab]));
        assert(spec_join_labels(seq![lab]) == lab);
        assert(spec_join_labels(parts) == parts[0]);
    } else {
        lemma_join_push(parts.drop_first(), lab);
        assert(whole.drop_first() =~= parts.drop_first().push(lab));
        assert(spec_join_labels(whole) == whole[0] + seq![0x2eu8] + spec_join_labels(
            whole.drop_first(),
        ));
        assert(spec_join_labels(parts) + seq![0x2eu8] + lab =~= parts[0] + seq![0x2eu8] + (
        spec_join_labels(parts.drop_first()) + seq![0x2eu8] + lab));
    }
}

/// What the decoder has collected so far, followed by what remains at the
/// cursor under the current backward bound, is the whole name: same labels,
/// and the final offset is the one saved at the first pointer, if any.
spec fn decode_continues(
    buf: Seq<u8>,
    start: int,
    bound: int,
    index: int,
    parts: Seq<Seq<u8>>,
    next: Option<int>,
) -> bool {
    match spec_decode_labels(buf, bound, index) {
        Ok(p) => spec_decode_labels(buf, start, start) == Ok::<(int, Seq<Seq<u8>>), DnsError>(
            (
                match next {
                    Some(nx) => nx,
                    None => p.0,
                },
                parts + p.1,
            ),
        ),
        Err(e) => spec_decode_labels(buf, start, start) == Err::<(int, Seq<Seq<u8>>), DnsError>(e),
    }
}

/// Decodes the name that starts at offset `index` of `buf`: length-prefixed
/// labels joined with dots, following compression pointers. Every pointer
/// must target an offset strictly before the offset the chain was entered
/// from, so the walk can only move backward and always ends.
pub fn decode_dns_name(buf: &[u8], index: usize) -> (r: Result<(usize, String), DnsError>)
    ensures
        match spec_decode_name(buf@, index as int) {
            Ok(p) => r matches Ok(v) && v.0 == p.0 && v.1@ == p.1,
            Err(e) => r == Err::<(usize, String), DnsError>(e),
        },
{
    if index >= buf.len() {
        return Err(DnsError::TruncatedBuffer);
    }
    let mut joined: Vec<u8> = Vec::new();
    let ghost mut parts: Seq<Seq<u8>> = Seq::empty();
    let mut i: usize = index;
    let mut bound: usize = index;
    let mut next: usize = 0;
    let mut have_next: bool = false;
    proof {
        if spec_decode_labels(buf@, index as int, index as int) is Ok {
            assert(parts + spec_decode_labels(buf@, index as int, index as int)->Ok_0.1
                =~= spec_decode_labels(buf@, index as int, index as int)->Ok_0.1);
        }
    }
    loop
        invariant
            i <= buf@.len(),
            bound <= i,
            decode_continues(
                buf@,
                index as int,
                bound as int,
                i as int,
                parts,
                if have_next {
                    Some(next as int)
                } else {
                    None::<int>
                },
            ),
            joined@ == spec_join_labels(parts),
            forall|k: int| 0 <= k < parts.len() ==> valid_utf8(#[trigger] parts[k]),
            forall|k: int| 0 <= k < parts.len() ==> #[trigger] parts[k].len() > 0,
            parts.len() == 0 <==> joined@.len() == 0,
        decreases bound, buf@.len() - i,
    {
        if i >= buf.len() {
            return Err(DnsError::TruncatedBuffer);
        }
        let l = buf[i];
        if l == 0 {
            let final_next = if have_next {
                next
            } else {
                i + 1
            };
            proof {
                assert(spec_decode_labels(buf@, bound as int, i as int) == Ok::<
                    (int, Seq<Seq<u8>>),
                    DnsError,
                >((i as int + 1, Seq::<Seq<u8>>::empty())));
                assert(parts + Seq::<Seq<u8>>::empty() =~= parts);
                lemma_join_valid(parts);
            }
            match bytes_as_str(joined.as_slice()) {
                Some(s) => {
                    let name = s.to_owned();
                    return Ok((final_next, name));
                },
                None => {
                    proof {
                        assert(false);
                    }
                    return Err(DnsError::InvalidEncoding);
                },
            }
        } else if l & 0xc0 != 0 {
            if i + 1 >= buf.len() {
                return Err(DnsError::TruncatedBuffer);
            }
            let target = ((l & 0x3f) as usize) * 256 + (buf[i + 1] as usize);
            if target >= bound {
                return Err(DnsError::CompressionLoop);
            }
            if !have_next {
                next = i + 2;
                have_next = true;
            }
            proof {
                match spec_decode_labels(buf@, target as int, target as int) {
                    Ok(q) => {
                        assert(spec_decode_labels(buf@, bound as int, i as int) == Ok::<
                            (int, Seq<Seq<u8>>),
                            DnsError,
                        >((i as int + 2, q.1)));
                    },
                    Err(e) => {
                        assert(spec_decode_labels(buf@, bound as int, i as int) == Err::<
                            (int, Seq<Seq<u8>>),
                            DnsError,
                        >(e));
                    },
                }
            }
            bound = target;
            i = target;
        } else {
            let ll = l as usize;
            if ll > buf.len() - 1 - i {
                return Err(DnsError::TruncatedBuffer);
            }
            let lab_sl = vstd::slice::slice_subrange(buf, i + 1, i + 1 + ll);
            match bytes_as_str(lab_sl) {
                None => {
                    return Err(DnsError::InvalidEncoding);
                },
                Some(_) => {},
            }
            if joined.len() > 0 {
                joined.push(0x2e);
            }
            joined.extend_from_slice(lab_sl);
            proof {
                let lab = buf@.subrange(i as int + 1, i as int + 1 + ll as int);
                lemma_join_push(parts, lab);
                match spec_decode_labels(buf@, bound as int, i as int + 1 + ll as int) {
                    Ok(q) => {
                        assert(spec_decode_labels(buf@, bound as int, i as int) == Ok::<
                            (int, Seq<Seq<u8>>),
                            DnsError,
                        >((q.0, seq![lab] + q.1)));
                        assert(parts + (seq![lab] + q.1) =~= parts.push(lab) + q.1);
                    },
                    Err(e) => {
                        assert(spec_decode_labels(buf@, bound as int, i as int) == Err::<
                            (int, Seq<Seq<u8>>),
                            DnsError,
                        >(e));
                    },
                }
                parts = parts.push(lab);
            }
            i = i + 1 + ll;
        }
    }
}

// ---------------------------------------------------------------------------
// Laws of the name codec.
// ---------------------------------------------------------------------------

/// Wherever a compression pointer appears while a name is read, a target
/// offset at or after the offset the walk entered from is rejected with
/// `CompressionLoop`: decoding never follows a self-pointing or forward
/// pointer.
pub proof fn lemma_pointer_not_backward(buf: Seq<u8>, start: int, index: int)
    requires
        0 <= index,
        index + 1 < buf.len(),
        buf[index] & 0xc0 != 0,
        (buf[index] & 0x3f) * 256 + buf[index + 1] >= start,
    ensures
        spec_decode_labels(buf, start, index) == Err::<(int, Seq<Seq<u8>>), DnsError>(
            DnsError::CompressionLoop,
        ),
{
    let l = buf[index];
    assert(l == 0 ==> l & 0xc0 == 0) by (bit_vector);
}

/// True when byte `i` of a name starts one of its dot-separated parts.
pub open spec fn is_label_start(b: Seq<u8>, i: int) -> bool {
    i == 0 || (0 < i <= b.len() && b[i - 1] == 0x2e)
}

proof fn lemma_long_label_from(b: Seq<u8>, j: int, i: int)
    requires
        0 <= j <= i <= b.len(),
        is_label_start(b, i),
        j == 0 || b[j - 1] == 0x2e,
    ensures
        spec_label_end(b, i) - i > 63 ==> spec_encode_from(b, j) == Err::<Seq<u8>, DnsError>(
            DnsError::InvalidLabel,
        ),
    decreases i - j,
{
    lemma_label_end(b, j);
    let e = spec_label_end(b, j);
    if e - j > 63 {
    } else if i == j {
    } else {
        assert(b[i - 1] == 0x2e);
        assert(i - 1 >= e);
        lemma_long_label_from(b, e + 1, i);
    }
}

/// Encoding a name one of whose dot-separated parts is longer than 63 bytes
/// fails with `InvalidLabel`.
pub proof fn lemma_long_label_rejected(name: Seq<char>, i: int)
    requires
        0 <= i <= encode_utf8(name).len(),
        is_label_start(encode_utf8(name), i),
        spec_label_end(encode_utf8(name), i) - i > 63,
    ensures
        spec_encode_name(name) == Err::<Seq<u8>, DnsError>(DnsError::InvalidLabel),
{
    lemma_long_label_from(encode_utf8(name), 0, i);
}

/// Every dot-separated part of the name bytes from `i` on is non-empty and
/// at most 63 bytes long.
pub open spec fn labels_wellformed_from(b: Seq<u8>, i: int) -> bool
    decreases b.len() - i,
    via labels_wellformed_from_dec
{
    let e = spec_label_end(b, i);
    &&& 1 <= e - i <= 63
    &&& (e < b.len() ==> labels_wellformed_from(b, e + 1))
}

#[via_fn]
proof fn labels_wellformed_from_dec(b: Seq<u8>, i: int) {
    if 0 <= i <= b.len() {
        lemma_label_end(b, i);
    }
}

/// A valid wire-form domain name: at most 255 bytes in all, every
/// dot-separated part non-empty and at most 63 bytes.
pub open spec fn valid_wire_name(b: Seq<u8>) -> bool {
    b.len() <= 255 && labels_wellformed_from(b, 0)
}

/// The dot-separated parts of the name bytes from `i` on.
pub open spec fn spec_split_from(b: Seq<u8>, i: int) -> Seq<Seq<u8>>
    decreases b.len() - i,
    via spec_split_from_dec
{
    let e = spec_label_end(b, i);
    if e >= b.len() {
        seq![b.subrange(i, e)]
    } else {
        seq![b.subrange(i, e)] + spec_split_from(b, e + 1)
    }
}

#[via_fn]
proof fn spec_split_from_dec(b: Seq<u8>, i: int) {
    if 0 <= i <= b.len() {
        lemma_label_end(b, i);
    }
}

/// Joining the dot-separated parts of a name puts the name back together.
proof fn lemma_join_split(b: Seq<u8>, i: int)
    requires
        0 <= i <= b.len(),
    ensures
        spec_join_labels(spec_split_from(b, i)) == b.subrange(i, b.len() as int),
    decreases b.len() - i,
{
    lemma_label_end(b, i);
    let e = spec_label_end(b, i);
    let parts = spec_split_from(b, i);
    if e >= b.len() {
        assert(parts.len() == 1);
        assert(spec_join_labels(parts) == parts[0]);
    } else {
        lemma_join_split(b, e + 1);
        assert(spec_split_from(b, e + 1).len() >= 1);
        assert(parts.len() >= 2);
        assert(parts[0] == b.subrange(i, e));
        assert(parts.drop_first() =~= spec_split_from(b, e + 1));
        assert(spec_join_labels(parts) == parts[0] + seq![0x2eu8] + spec_join_labels(
            parts.drop_first(),
        ));
        assert(b.subrange(i, e) + seq![0x2eu8] + b.subrange(e + 1, b.len() as int) =~= b.subrange(
            i,
            b.len() as int,
        ));
    }
}

/// A wellformed name from `i` on encodes without error.
proof fn lemma_encode_ok(b: Seq<u8>, i: int)
    requires
        0 <= i <= b.len(),
        labels_wellformed_from(b, i),
    ensures
        spec_encode_from(b, i) is Ok,
    decreases b.len() - i,
{
    lemma_label_end(b, i);
    let e = spec_label_end(b, i);
    if e < b.len() {
        lemma_encode_ok(b, e + 1);
    }
}

/// In valid UTF-8 text, a label that starts at a character boundary is
/// itself valid UTF-8, and the byte after its terminating dot is again a
/// character boundary.
proof fn lemma_label_step_valid(b: Seq<u8>, i: int)
    requires
        0 <= i <= b.len(),
        valid_utf8(b),
        is_char_boundary(b, i),
    ensures
        valid_utf8(b.subrange(i, spec_label_end(b, i))),
        spec_label_end(b, i) < b.len() ==> is_char_boundary(b, spec_label_end(b, i) + 1),
{
    lemma_label_end(b, i);
    let e = spec_label_end(b, i);
    if e < b.len() {
        assert(b[e] == 0x2e);
        assert(!is_continuation_byte(b[e]));
        is_char_boundary_iff_not_is_continuation_byte(b, e);
        assert(is_char_boundary(b, e));
        valid_utf8_split(b, e);
        let tail = b.subrange(e, b.len() as int);
        assert(valid_utf8(tail));
        assert(is_leading_byte_width_1(tail[0]));
        assert(length_of_first_scalar(tail) == 1);
        if e + 1 < b.len() {
            let tail2 = pop_first_scalar(tail);
            assert(tail2 =~= b.subrange(e + 1, b.len() as int));
            assert(valid_utf8(tail2));
            assert(tail2.len() > 0);
            assert(valid_first_scalar(tail2));
            assert(!is_continuation_byte(tail2[0]));
            assert(b[e + 1] == tail2[0]);
            is_char_boundary_iff_not_is_continuation_byte(b, e + 1);
            assert(is_char_boundary(b, e + 1));
        } else {
            is_char_boundary_start_end_of_seq(b);
            assert(is_char_boundary(b, e + 1));
        }
    }
    valid_utf8_split(b, i);
    let suff = b.subrange(i, b.len() as int);
    assert(valid_utf8(suff));
    if e == i {
        assert(b.subrange(i, e) =~= Seq::<u8>::empty());
        assert(valid_utf8(b.subrange(i, e)));
    } else if e < b.len() {
        assert(suff[e - i] == b[e]);
        assert(!is_continuation_byte(suff[e - i]));
        is_char_boundary_iff_not_is_continuation_byte(suff, e - i);
        assert(is_char_boundary(suff, e - i));
        valid_utf8_split(suff, e - i);
        assert(suff.subrange(0, e - i) =~= b.subrange(i, e));
    } else {
        assert(b.subrange(i, e) =~= suff);
    }
}

/// Decoding the encoding of the name's labels from `i` on, laid down as the
/// tail of a buffer, yields exactly those labels and ends exactly at the end
/// of the buffer.
proof fn lemma_round_trip_from(b: Seq<u8>, i: int, enc: Seq<u8>, pos: int, start: int)
    requires
        0 <= i <= b.len(),
        labels_wellformed_from(b, i),
        valid_utf8(b),
        is_char_boundary(b, i),
        spec_encode_from(b, i) is Ok,
        0 <= pos <= enc.len(),
        enc.subrange(pos, enc.len() as int) == spec_encode_from(b, i)->Ok_0,
    ensures
        spec_decode_labels(enc, start, pos) == Ok::<(int, Seq<Seq<u8>>), DnsError>(
            (enc.len() as int, spec_split_from(b, i)),
        ),
    decreases b.len() - i,
{
    lemma_label_end(b, i);
    let e = spec_label_end(b, i);
    let lab = b.subrange(i, e);
    lemma_label_step_valid(b, i);
    let l = lab.len() as u8;
    assert(1 <= l <= 63);
    assert(l & 0xc0 == 0 && l != 0) by (bit_vector)
        requires
            1 <= l <= 63,
    ;
    let tail = enc.subrange(pos, enc.len() as int);
    assert(tail.len() == enc.len() - pos);
    assert(forall|k: int| 0 <= k < tail.len() ==> tail[k] == enc[pos + k]);
    if e >= b.len() {
        assert(spec_encode_from(b, i) == Ok::<Seq<u8>, DnsError>(seq![l] + lab + seq![0u8]));
        assert(tail == seq![l] + lab + seq![0u8]);
        assert(tail.len() == 2 + lab.len());
        assert(tail[0] == l);
        assert(enc[pos] == l) by {
            assert(tail[0] == enc[pos + 0]);
        }
        assert forall|k: int| 0 <= k < l as int implies enc.subrange(
            pos + 1,
            pos + 1 + l as int,
        )[k] == lab[k] by {
            assert(tail[1 + k] == enc[pos + (1 + k)]);
            assert(tail[1 + k] == lab[k]);
        }
        assert(enc.subrange(pos + 1, pos + 1 + l as int) =~= lab);
        assert(enc[pos + 1 + l as int] == 0) by {
            assert(tail[1 + l as int] == enc[pos + (1 + l as int)]);
            assert(tail[1 + l as int] == 0);
        }
        assert(spec_decode_labels(enc, start, pos + 1 + l as int) == Ok::<
            (int, Seq<Seq<u8>>),
            DnsError,
        >((pos + 2 + l as int, Seq::<Seq<u8>>::empty())));
        assert(pos + 2 + l as int == enc.len());
        assert(seq![lab] + Seq::<Seq<u8>>::empty() =~= seq![lab]);
        assert(spec_split_from(b, i) == seq![lab]);
    } else {
        let rest = spec_encode_from(b, e + 1)->Ok_0;
        assert(spec_encode_from(b, e + 1) is Ok);
        assert(spec_encode_from(b, i) == Ok::<Seq<u8>, DnsError>(seq![l] + lab + rest));
        assert(tail == seq![l] + lab + rest);
        assert(tail.len() == 1 + lab.len() + rest.len());
        assert(tail[0] == l);
        assert(enc[pos] == l) by {
            assert(tail[0] == enc[pos + 0]);
        }
        assert forall|k: int| 0 <= k < l as int implies enc.subrange(
            pos + 1,
            pos + 1 + l as int,
        )[k] == lab[k] by {
            assert(tail[1 + k] == enc[pos + (1 + k)]);
            assert(tail[1 + k] == lab[k]);
        }
        assert(enc.subrange(pos + 1, pos + 1 + l as int) =~= lab);
        assert forall|k: int| 0 <= k < rest.len() implies enc.subrange(
            pos + 1 + l as int,
            enc.len() as int,
        )[k] == rest[k] by {
            assert(tail[1 + l as int + k] == enc[pos + (1 + l as int + k)]);
            assert(tail[1 + l as int + k] == rest[k]);
        }
        assert(enc.subrange(pos + 1 + l as int, enc.len() as int) =~= rest);
        lemma_round_trip_from(b, e + 1, enc, pos + 1 + l as int, start);
        assert(spec_decode_labels(enc, start, pos) == Ok::<(int, Seq<Seq<u8>>), DnsError>(
            (enc.len() as int, seq![lab] + spec_split_from(b, e + 1)),
        ));
        assert(spec_split_from(b, i) == seq![lab] + spec_split_from(b, e + 1));
    }
}

/// Round trip: a domain name in valid wire form (labels non-empty and at
/// most 63 bytes, at most 255 bytes in all) encodes without error, and
/// decoding the encoding at offset 0 of its own buffer consumes it exactly
/// and yields exactly the original text.
pub proof fn lemma_name_round_trip(name: Seq<char>)
    requires
        valid_wire_name(encode_utf8(name)),
    ensures
        spec_encode_name(name) is Ok,
        spec_decode_name(spec_encode_name(name)->Ok_0, 0) == Ok::<(int, Seq<char>), DnsError>(
            (spec_encode_name(name)->Ok_0.len() as int, name),
        ),
{
    let b = encode_utf8(name);
    encode_utf8_valid_utf8(name);
    lemma_encode_ok(b, 0);
    let enc = spec_encode_name(name)->Ok_0;
    is_char_boundary_start_end_of_seq(b);
    assert(enc.subrange(0, enc.len() as int) =~= enc);
    lemma_round_trip_from(b, 0, enc, 0, 0);
    lemma_join_split(b, 0);
    assert(b.subrange(0, b.len() as int) =~= b);
    encode_utf8_decode_utf8(name);
}

/// Decodes the tail of a name whose next length byte `l` is a compression
/// pointer. `index` points at the pointer's second byte; `name_start` is the
/// offset where the whole name began, and the pointer must target an offset
/// strictly before it.
pub fn decode_compressed_dns_name(buf: &[u8], l: u8, index: usize, name_start: usize) -> (r:
    Result<(usize, String), DnsError>)
    ensures
        match spec_decode_pointer(buf@, l, index as int, name_start as int) {
            Ok(p) => r matches Ok(v) && v.0 == p.0 && v.1@ == p.1,
            Err(e) => r == Err::<(usize, String), DnsError>(e),
        },
{
    if index >= buf.len() {
        return Err(DnsError::TruncatedBuffer);
    }
    let target = ((l & 0x3f) as usize) * 256 + (buf[index] as usize);
    if target >= name_start {
        return Err(DnsError::CompressionLoop);
    }
    match decode_dns_name(buf, target) {
        Ok((_, name)) => Ok((index + 1, name)),
        Err(e) => Err(e),
    }
}

} // verus!
