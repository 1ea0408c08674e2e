use crate::error::Error;
use vstd::prelude::*;
use vstd::slice::slice_subrange;
use vstd::string::StringSliceAdditionalSpecFns;
use vstd::utf8::{decode_utf8, encode_utf8, valid_utf8};

verus! {

/// The CRC-32/CKSUM checksum of `bytes`, as the crate `crc` computes it.
pub uninterp spec fn cksum(bytes: Seq<u8>) -> u32;

/// `text` without the whitespace at its beginning and at its end, as
/// `str::trim` gives it.
pub uninterp spec fn trimmed(text: Seq<char>) -> Seq<char>;

/// `crc::Crc::<u32>::checksum`, on an instance that `crc::Crc::<u32>::new`
/// makes for the algorithm `crc::CRC_32_CKSUM`. The result is taken to
/// depend on the bytes alone; nothing else is claimed of it.
#[verifier::external_body]
fn checksum(bytes: &[u8]) -> (sum: u32)
    ensures
        sum == cksum(bytes@),
{
    crc::Crc::<u32>::new(&crc::CRC_32_CKSUM).checksum(bytes)
}

/// `std::str::from_utf8`: the bytes as text where they are valid UTF-8,
/// nothing where they are not.
#[verifier::external_body]
fn utf8_text<'a>(bytes: &'a [u8]) -> (text: Option<&'a str>)
    ensures
        text is Some <==> valid_utf8(bytes@),
        text is Some ==> text->Some_0.spec_bytes() == bytes@,
{
    std::str::from_utf8(bytes).ok()
}

/// `str::trim`. The result is taken to depend on the text alone; nothing
/// else is claimed of it.
#[verifier::external_body]
fn trim_text<'a>(text: &'a str) -> (inner: &'a str)
    ensures
        inner@ == trimmed(text@),
{
    text.trim()
}

/// The number that four bytes stand for, most significant byte first.
pub open spec fn be_value(b: Seq<u8>) -> int {
    b[0] * 16777216 + b[1] * 65536 + b[2] * 256 + b[3]
}

/// The four bytes that stand for `v`, most significant byte first.
pub open spec fn be_bytes(v: u32) -> Seq<u8> {
    seq![
        (v / 16777216) as u8,
        (v / 65536 % 256) as u8,
        (v / 256 % 256) as u8,
        (v % 256) as u8,
    ]
}

/// A slot's bytes: the checksum, the line, a newline and a NUL.
pub open spec fn frame_of(sum: u32, line: Seq<u8>) -> Seq<u8> {
    be_bytes(sum) + line + seq![10u8, 0u8]
}

/// The slot that stores `line`: its frame under the checksum of the line.
pub open spec fn frame(line: Seq<u8>) -> Seq<u8> {
    frame_of(cksum(line), line)
}

/// The index behind the first newline of `bytes` at or behind `from`, or the
/// length of `bytes` where there is none.
pub open spec fn line_end(bytes: Seq<u8>, from: int) -> int
    decreases bytes.len() - from,
{
    if from < 0 || from >= bytes.len() {
        bytes.len() as int
    } else if bytes[from] == 10u8 {
        from + 1
    } else {
        line_end(bytes, from + 1)
    }
}

/// The checksum that a slot stores: its first four bytes.
pub open spec fn stored_sum(bytes: Seq<u8>) -> int {
    be_value(bytes.subrange(0, 4))
}

/// The line that a slot stores: what follows the checksum, up to and with
/// the first newline, or up to the end where there is none.
pub open spec fn stored_line(bytes: Seq<u8>) -> Seq<u8> {
    bytes.subrange(4, line_end(bytes, 4))
}

/// The text of a valid slot. A slot is valid if it holds four bytes of
/// checksum and then a line of UTF-8 text whose trimmed form has that
/// checksum. One that is not valid counts as absent.
pub open spec fn slot_text(bytes: Seq<u8>) -> Option<Seq<char>> {
    if bytes.len() < 4 || !valid_utf8(stored_line(bytes)) {
        None
    } else if cksum(encode_utf8(trimmed(decode_utf8(stored_line(bytes))))) == stored_sum(bytes) {
        Some(decode_utf8(stored_line(bytes)))
    } else {
        None
    }
}

/// The four bytes of `v`, most significant first.
pub fn to_be(v: u32) -> (b: [u8; 4])
    ensures
        b@ == be_bytes(v),
        be_value(b@) == v,
{
    let b = [(v / 16777216) as u8, (v / 65536 % 256) as u8, (v / 256 % 256) as u8, (v % 256) as u8];
    assert(b@ =~= be_bytes(v));
    assert(v / 16777216 < 256 && (v / 16777216) * 16777216 + (v / 65536 % 256) * 65536 + (v / 256
        % 256) * 256 + v % 256 == v) by (bit_vector);
    b
}

/// The number that the first four bytes of `bytes` stand for, most
/// significant first.
pub fn from_be(bytes: &[u8]) -> (v: u32)
    requires
        bytes@.len() >= 4,
    ensures
        v == be_value(bytes@),
        be_bytes(v) == bytes@.subrange(0, 4),
{
    let b0: u32 = bytes[0] as u32;
    let b1: u32 = bytes[1] as u32;
    let b2: u32 = bytes[2] as u32;
    let b3: u32 = bytes[3] as u32;
    let v: u32 = b0 * 16777216 + b1 * 65536 + b2 * 256 + b3;
    assert(v / 16777216 == b0 && v / 65536 % 256 == b1 && v / 256 % 256 == b2 && v % 256 == b3)
        by (bit_vector)
        requires
            b0 < 256 && b1 < 256 && b2 < 256 && b3 < 256,
            v == b0 * 16777216 + b1 * 65536 + b2 * 256 + b3,
    ;
    assert(be_bytes(v) =~= bytes@.subrange(0, 4));
    v
}

/// Builds the slot that stores `line` under the checksum `sum`.
pub fn frame_line(sum: u32, line: &[u8]) -> (out: Vec<u8>)
    ensures
        out@ == frame_of(sum, line@),
{
    let head = to_be(sum);
    let mut out: Vec<u8> = Vec::new();
    out.push(head[0]);
    out.push(head[1]);
    out.push(head[2]);
    out.push(head[3]);
    assert(out@ =~= be_bytes(sum));
    let mut i: usize = 0;
    while i < line.len()
        invariant
            i <= line.len(),
            out@ == be_bytes(sum) + line@.take(i as int),
        decreases line.len() - i,
    {
        out.push(line[i]);
        assert(line@.take(i as int + 1) =~= line@.take(i as int).push(line@[i as int]));
        assert(out@ =~= be_bytes(sum) + line@.take(i as int + 1));
        i += 1;
    }
    assert(line@.take(line.len() as int) =~= line@);
    out.push(10u8);
    out.push(0u8);
    assert(out@ =~= frame_of(sum, line@));
    out
}

/// Splits a slot into the checksum that it stores and the line that it
/// stores. A slot of fewer than four bytes has neither.
pub fn split_slot<'a>(bytes: &'a [u8]) -> (parts: Option<(u32, &'a [u8])>)
    ensures
        bytes@.len() < 4 <==> parts is None,
        parts is Some ==> parts->Some_0.0 == stored_sum(bytes@) && parts->Some_0.1@ == stored_line(
            bytes@,
        ),
{
    if bytes.len() < 4 {
        return None;
    }
    let sum = from_be(bytes);
    let mut end: usize = 4;
    while end < bytes.len() && bytes[end] != 10u8
        invariant
            4 <= end <= bytes.len(),
            line_end(bytes@, 4) == line_end(bytes@, end as int),
        decreases bytes.len() - end,
    {
        end += 1;
    }
    if end < bytes.len() {
        end += 1;
    }
    assert(end == line_end(bytes@, 4));
    assert(be_value(bytes@) == be_value(bytes@.subrange(0, 4)));
    Some((sum, slice_subrange(bytes, 4, end)))
}

/// The slot that stores `line`, for a device of blocks of `io_size` bytes.
/// The slot has to be shorter than one block: a line that leaves no room
/// for that is refused.
pub fn encode_slot(line: &str, io_size: u64) -> (r: Result<Vec<u8>, Error>)
    ensures
        line.spec_bytes().len() + 6 < io_size ==> r is Ok && r->Ok_0@ == frame(line.spec_bytes()),
        line.spec_bytes().len() + 6 >= io_size ==> r == Err::<Vec<u8>, Error>(Error::Size),
{
    let bytes = line.as_bytes();
    if io_size <= 6 || bytes.len() as u64 >= io_size - 6 {
        return Err(Error::Size);
    }
    Ok(frame_line(checksum(bytes), bytes))
}

/// Whether a slot that stores the checksum `stored` is valid when the
/// trimmed form of its line has the checksum `actual`.
pub fn sums_agree(stored: u32, actual: u32) -> (ok: bool)
    ensures
        ok == (stored == actual),
{
    stored == actual
}

/// Reads a slot: gives the line that it stores, as text, if the slot is
/// valid, and nothing if it is not. What makes a slot invalid is never
/// reported as an error.
pub fn decode_slot(bytes: &[u8]) -> (r: Option<String>)
    ensures
        r is Some <==> slot_text(bytes@) is Some,
        r is Some ==> r->Some_0@ == slot_text(bytes@)->Some_0,
{
    match split_slot(bytes) {
        None => None,
        Some((stored, raw)) => match utf8_text(raw) {
            None => None,
            Some(text) => {
                proof {
                    vstd::utf8::encode_utf8_decode_utf8(text@);
                }
                let inner = trim_text(text);
                if sums_agree(stored, checksum(inner.as_bytes())) {
                    Some(text.to_owned())
                } else {
                    None
                }
            },
        },
    }
}

/// The four bytes of a number stand for that number.
pub proof fn lemma_be_round_trip(v: u32)
    ensures
        be_value(be_bytes(v)) == v,
{
    assert(v / 16777216 < 256 && (v / 16777216) * 16777216 + (v / 65536 % 256) * 65536 + (v / 256
        % 256) * 256 + v % 256 == v) by (bit_vector);
}

/// Where the first newline at or behind `from` stands at `at`, the line ends
/// just behind `at`.
pub proof fn lemma_line_end(bytes: Seq<u8>, from: int, at: int)
    requires
        0 <= from <= at < bytes.len(),
        bytes[at] == 10u8,
        forall|j: int| from <= j < at ==> bytes[j] != 10u8,
    ensures
        line_end(bytes, from) == at + 1,
    decreases at - from,
{
    if from < at {
        lemma_line_end(bytes, from + 1, at);
    }
}

/// The encoding of a text followed by another is the encoding of the first
/// followed by that of the second.
pub proof fn lemma_encode_joined(a: Seq<char>, b: Seq<char>)
    ensures
        encode_utf8(a + b) == encode_utf8(a) + encode_utf8(b),
    decreases a.len(),
{
    if a.len() == 0 {
        assert(a + b =~= b);
        assert(encode_utf8(a) + encode_utf8(b) =~= encode_utf8(b));
    } else {
        lemma_encode_joined(a.drop_first(), b);
        assert((a + b).drop_first() =~= a.drop_first() + b);
        assert(encode_utf8(a + b) =~= encode_utf8(a) + encode_utf8(b));
    }
}

/// A text without a newline has no newline among the bytes that encode it.
pub proof fn lemma_newline_byte(text: Seq<char>)
    requires
        !text.contains('\n'),
    ensures
        !encode_utf8(text).contains(10u8),
    decreases text.len(),
{
    if text.len() > 0 {
        let bytes = encode_utf8(text);
        vstd::utf8::char_is_scalar(text[0]);
        let head = vstd::utf8::encode_scalar(text[0] as u32);
        let rest = text.drop_first();
        let tail = encode_utf8(rest);
        assert(bytes == head + tail);
        vstd::utf8::encode_utf8_first_scalar(text);
        assert(!rest.contains('\n')) by {
            if rest.contains('\n') {
                let i = choose|i: int| 0 <= i < rest.len() && rest[i] == '\n';
                assert(text[i + 1] == '\n');
            }
        }
        lemma_newline_byte(rest);
        assert(text[0] != '\n');
        assert forall|i: int| 0 <= i < bytes.len() implies bytes[i] != 10u8 by {
            if i < head.len() {
                let first = bytes[0];
                assert(vstd::utf8::valid_leading_and_continuation_bytes_first_codepoint(bytes));
                assert(head.len() == vstd::utf8::length_of_first_codepoint(bytes));
                if vstd::utf8::is_leading_byte_width_1(first) {
                    assert((first & 0x7F) as u32 == first as u32) by (bit_vector)
                        requires
                            first <= 0x7f,
                    ;
                    assert(vstd::utf8::decode_first_codepoint(bytes) == first as u32);
                    assert(text[0] as u32 == first as u32);
                    if first == 10u8 {
                        vstd::utf8::char_u32_cast(text[0], 10u32);
                        vstd::utf8::char_u32_cast('\n', 10u32);
                    }
                } else if vstd::utf8::is_leading_byte_width_2(first) {
                    assert(vstd::utf8::is_continuation_byte(bytes[1]));
                } else if vstd::utf8::is_leading_byte_width_3(first) {
                    assert(vstd::utf8::is_continuation_byte(bytes[1]));
                    assert(vstd::utf8::is_continuation_byte(bytes[2]));
                } else {
                    assert(vstd::utf8::is_leading_byte_width_4(first));
                    assert(vstd::utf8::is_continuation_byte(bytes[1]));
                    assert(vstd::utf8::is_continuation_byte(bytes[2]));
                    assert(vstd::utf8::is_continuation_byte(bytes[3]));
                }
            } else {
                assert(bytes[i] == tail[i - head.len()]);
                assert(tail.contains(tail[i - head.len()]));
            }
        }
    }
}

/// What is written is read back. Take a line of text without a newline
/// which trimming leaves as it is once the newline that ends it is gone.
/// The slot that stores it, whatever follows it on the device, is valid,
/// and its text is the line with its newline.
pub proof fn lemma_round_trip(line: Seq<char>, rest: Seq<u8>)
    requires
        !line.contains('\n'),
    ensures
        trimmed(line.push('\n')) == line ==> slot_text(frame(encode_utf8(line)) + rest) == Some(
            line.push('\n'),
        ),
{
    let raw = encode_utf8(line);
    let sum = cksum(raw);
    let bytes = frame(raw) + rest;
    let full = line.push('\n');
    lemma_newline_byte(line);
    assert(bytes.subrange(0, 4) =~= be_bytes(sum));
    lemma_be_round_trip(sum);
    assert forall|j: int| 4 <= j < 4 + raw.len() implies bytes[j] != 10u8 by {
        assert(bytes[j] == raw[j - 4]);
        assert(raw.contains(raw[j - 4]));
    }
    let at: int = raw.len() as int + 4;
    assert(bytes[at] == 10u8);
    lemma_line_end(bytes, 4, at);
    assert(stored_line(bytes) =~= raw + seq![10u8]);
    assert(encode_utf8(full) == raw + seq![10u8]) by {
        let nl = seq!['\n'];
        assert(full =~= line + nl);
        lemma_encode_joined(line, nl);
        assert(vstd::utf8::is_ascii_chars(nl));
        vstd::utf8::is_ascii_chars_encode_utf8(nl);
        assert(nl[0] as u8 == 10u8);
        assert(encode_utf8(nl) =~= seq![10u8]);
    }
    vstd::utf8::encode_utf8_valid_utf8(full);
    vstd::utf8::encode_utf8_decode_utf8(full);
}

} // verus!
