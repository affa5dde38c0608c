//! The CDC control path: replies arrive as a byte stream, so the 4-byte
//! header is read first and tells how many payload bytes follow; read-back
//! words arrive as little-endian byte pairs.
use crate::protocol::MAX_PAYLOAD_SIZE;
use crate::text::{decimal, hex_padded, push_char, push_decimal, push_hex};
use crate::{is_protocol_error, is_serial_error, Error, Result};
use vstd::prelude::*;

verus! {

/// Bytes as two-digit lower-case hex, separated by single spaces.
pub open spec fn hex_listing(bytes: Seq<u8>) -> Seq<char>
    decreases bytes.len(),
{
    if bytes.len() == 0 {
        Seq::empty()
    } else if bytes.len() == 1 {
        hex_padded(bytes[0] as nat, 2)
    } else {
        hex_listing(bytes.drop_last()) + seq![' '] + hex_padded(bytes.last() as nat, 2)
    }
}

/// Renders bytes as two-digit lower-case hex separated by spaces.
pub fn format_hex(bytes: &[u8]) -> (s: String)
    ensures
        s@ == hex_listing(bytes@),
{
    let mut out = String::new();
    let mut i: usize = 0;
    while i < bytes.len()
        invariant
            i <= bytes@.len(),
            out@ == hex_listing(bytes@.take(i as int)),
        decreases bytes@.len() - i,
    {
        if i > 0 {
            push_char(&mut out, ' ');
        }
        push_hex(&mut out, bytes[i] as u64, 2);
        i = i + 1;
        proof {
            let t = bytes@.take(i as int);
            assert(t.drop_last() =~= bytes@.take(i - 1));
            if i == 1 {
                assert(bytes@.take(0) =~= Seq::<u8>::empty());
            }
        }
    }
    assert(bytes@.take(bytes@.len() as int) =~= bytes@);
    out
}

/// The 14-bit word of a little-endian byte pair.
pub open spec fn pair_word(low: u8, high: u8) -> u16 {
    ((high * 256 + low) % 0x4000) as u16
}

/// Message of the error for a read-back of the wrong length.
pub open spec fn read_words_message(len: nat, expected: nat) -> Seq<char> {
    "read-words response has "@ + decimal(len) + " bytes, expected "@ + decimal(expected)
}

/// The words of a read-back reply: exactly two bytes per word, each pair
/// little-endian, masked to 14 bits.
pub fn decode_words(response: &[u8], word_count: usize) -> (r: Result<Vec<u16>>)
    requires
        2 * word_count <= usize::MAX,
    ensures
        response@.len() != 2 * word_count ==> (r matches Err(e) && is_protocol_error(
            e,
            read_words_message(response@.len(), 2 * word_count as nat),
        )),
        response@.len() == 2 * word_count ==> (r matches Ok(words) && words@ == Seq::new(
            word_count as nat,
            |i: int| pair_word(response@[2 * i], response@[2 * i + 1]),
        )),
{
    if response.len() != word_count * 2 {
        let mut m = String::new();
        m.append("read-words response has ");
        push_decimal(&mut m, response.len() as u64);
        m.append(" bytes, expected ");
        push_decimal(&mut m, (word_count * 2) as u64);
        return Err(Error::Protocol(m));
    }
    let mut words: Vec<u16> = Vec::new();
    let mut i: usize = 0;
    while i < word_count
        invariant
            i <= word_count,
            2 * word_count <= usize::MAX,
            response@.len() == 2 * word_count,
            words@ == Seq::new(i as nat, |k: int| pair_word(response@[2 * k], response@[2 * k + 1])),
        decreases word_count - i,
    {
        let low = response[2 * i];
        let high = response[2 * i + 1];
        let word = (((high as u16) << 8u16) | (low as u16)) & 0x3fffu16;
        assert((((high as u16) << 8u16) | (low as u16)) & 0x3fffu16 == (high as u16 * 256
            + low as u16) % 0x4000) by (bit_vector);
        words.push(word);
        i = i + 1;
        assert(words@ =~= Seq::new(
            i as nat,
            |k: int| pair_word(response@[2 * k], response@[2 * k + 1]),
        ));
    }
    Ok(words)
}

/// The payload length that a reply's 4-byte header announces; more than
/// 60 is refused.
pub fn response_payload_len(header: &[u8]) -> (r: Result<usize>)
    requires
        header@.len() >= 4,
    ensures
        header@[3] > MAX_PAYLOAD_SIZE ==> (r matches Err(e) && is_protocol_error(
            e,
            "response payload too large"@,
        )),
        header@[3] <= MAX_PAYLOAD_SIZE ==> r == Ok::<usize, Error>(header@[3] as usize),
{
    let len = header[3] as usize;
    if len > MAX_PAYLOAD_SIZE {
        return Err(Error::Protocol(String::from_str("response payload too large")));
    }
    Ok(len)
}

/// Message of the error for a reply that stopped arriving.
pub open spec fn read_timeout_message(received: Seq<u8>) -> Seq<char> {
    "CDC control read timed out after "@ + decimal(received.len()) + " byte(s): "@ + hex_listing(
        received,
    )
}

/// The error for a reply that stopped arriving after the bytes `received`.
pub fn read_timeout_error(received: &[u8]) -> (e: Error)
    ensures
        is_serial_error(e, read_timeout_message(received@)),
{
    let mut m = String::new();
    m.append("CDC control read timed out after ");
    push_decimal(&mut m, received.len() as u64);
    m.append(" byte(s): ");
    let listing = format_hex(received);
    m.append(listing.as_str());
    Error::Serial(m)
}

} // verus!

verus! {

/// The longest serial line accepted, in bytes.
pub const MAX_LINE_BYTES: usize = 256;

/// The text of a line of bytes, or the description of why it is not UTF-8.
///
/// Calls `String::from_utf8`; the description is the standard library's
/// rendering of its error, which is not stated here.
#[verifier::external_body]
fn utf8_text(bytes: Vec<u8>) -> (r: std::result::Result<String, String>)
    ensures
        r is Ok <==> vstd::utf8::valid_utf8(bytes@),
        r matches Ok(s) ==> s@ == vstd::utf8::decode_utf8(bytes@),
{
    match String::from_utf8(bytes) {
        Ok(text) => Ok(text),
        Err(err) => Err(err.to_string()),
    }
}

/// What one received byte does to a serial line being read.
pub enum LineStep {
    /// The line goes on.
    Pending,
    /// The line ended with this result.
    Done(Result<String>),
}

/// Takes the next received byte of a serial line: `'\n'` ends the line,
/// `'\r'` is dropped, any other byte is kept; a line that grows past 256
/// bytes is refused, and an ended line must be UTF-8.
pub fn accept_line_byte(line: &mut Vec<u8>, byte: u8) -> (r: LineStep)
    requires
        old(line)@.len() <= MAX_LINE_BYTES,
    ensures
        byte == 0x0a ==> (r matches LineStep::Done(res) && (res is Ok <==> vstd::utf8::valid_utf8(
            old(line)@,
        )) && (res matches Ok(s) ==> s@ == vstd::utf8::decode_utf8(old(line)@)) && (res matches Err(
            e,
        ) ==> e is Serial)),
        byte != 0x0a && byte != 0x0d ==> final(line)@ == old(line)@.push(byte),
        byte == 0x0d ==> final(line)@ == old(line)@,
        byte != 0x0a ==> (final(line)@.len() > MAX_LINE_BYTES ==> (r matches LineStep::Done(res)
            && res matches Err(e) && is_serial_error(e, "serial line exceeded 256 bytes"@))),
        byte != 0x0a ==> (final(line)@.len() <= MAX_LINE_BYTES ==> r is Pending),
{
    if byte == 0x0a {
        let mut taken: Vec<u8> = Vec::new();
        std::mem::swap(&mut taken, line);
        return match utf8_text(taken) {
            Ok(s) => LineStep::Done(Ok(s)),
            Err(detail) => {
                let mut m = String::new();
                m.append("serial line was not UTF-8: ");
                m.append(detail.as_str());
                LineStep::Done(Err(Error::Serial(m)))
            },
        };
    }
    if byte != 0x0d {
        line.push(byte);
    }
    if line.len() > MAX_LINE_BYTES {
        return LineStep::Done(Err(Error::Serial(String::from_str("serial line exceeded 256 bytes"))));
    }
    LineStep::Pending
}

} // verus!
