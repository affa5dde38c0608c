//! Intel HEX images: data (00), end-of-file (01) and extended linear address
//! (04) records, one per line, checked for length and checksum.
use crate::text::{chars_of, decimal, hex_padded, push_char, push_decimal, push_hex};
use crate::order::lemma_u32_laws;
use crate::{is_hex_error, Error, Result};
use std::collections::BTreeMap;
use vstd::prelude::*;

verus! {

/// Whether `c` has the Unicode `White_Space` property.
pub open spec fn is_whitespace(c: char) -> bool {
    let u = c as u32;
    ||| 0x09 <= u <= 0x0d
    ||| u == 0x20
    ||| u == 0x85
    ||| u == 0xa0
    ||| u == 0x1680
    ||| 0x2000 <= u <= 0x200a
    ||| u == 0x2028
    ||| u == 0x2029
    ||| u == 0x202f
    ||| u == 0x205f
    ||| u == 0x3000
}

/// `s` without its leading whitespace.
pub open spec fn trim_start(s: Seq<char>) -> Seq<char>
    decreases s.len(),
{
    if s.len() > 0 && is_whitespace(s[0]) {
        trim_start(s.drop_first())
    } else {
        s
    }
}

/// `s` without its trailing whitespace.
pub open spec fn trim_end(s: Seq<char>) -> Seq<char>
    decreases s.len(),
{
    if s.len() > 0 && is_whitespace(s.last()) {
        trim_end(s.drop_last())
    } else {
        s
    }
}

/// `s` without its leading and trailing whitespace.
pub open spec fn trim(s: Seq<char>) -> Seq<char> {
    trim_end(trim_start(s))
}

/// The value of a hexadecimal digit (either case).
pub open spec fn hex_value(c: char) -> Option<u8> {
    let u = c as u32;
    if 0x30 <= u <= 0x39 {
        Some((u - 0x30) as u8)
    } else if 0x61 <= u <= 0x66 {
        Some((u - 0x61 + 10) as u8)
    } else if 0x41 <= u <= 0x46 {
        Some((u - 0x41 + 10) as u8)
    } else {
        None
    }
}

/// The number of bytes of the UTF-8 encoding of `c`.
pub open spec fn utf8_len(c: char) -> nat {
    let u = c as u32;
    if u < 0x80 {
        1
    } else if u < 0x800 {
        2
    } else if u < 0x10000 {
        3
    } else {
        4
    }
}

/// The first byte of the UTF-8 encoding of `c`.
pub open spec fn utf8_lead(c: char) -> u8 {
    let u = c as u32;
    if u < 0x80 {
        u as u8
    } else if u < 0x800 {
        (0xc0 + u / 0x40) as u8
    } else if u < 0x10000 {
        (0xe0 + u / 0x1000) as u8
    } else {
        (0xf0 + u / 0x40000) as u8
    }
}

/// The number of bytes of the UTF-8 encoding of `s`.
pub open spec fn utf8_byte_len(s: Seq<char>) -> nat
    decreases s.len(),
{
    if s.len() == 0 {
        0
    } else {
        utf8_byte_len(s.drop_last()) + utf8_len(s.last())
    }
}

/// Message for a byte that is not a hexadecimal digit; the byte is shown as
/// the character with that code.
pub open spec fn invalid_digit_message(b: u8) -> Seq<char> {
    "invalid hex digit '"@ + seq![b as char] + "'"@
}

/// Decodes digit pairs left to right; the first non-digit is reported by the
/// first byte of its UTF-8 encoding.
pub open spec fn decode_hex_pairs(s: Seq<char>) -> std::result::Result<Seq<u8>, Seq<char>>
    decreases s.len(),
{
    if s.len() == 0 {
        Ok(Seq::empty())
    } else {
        match hex_value(s[0]) {
            None => Err(invalid_digit_message(utf8_lead(s[0]))),
            Some(high) => if s.len() == 1 {
                Err("odd number of hex digits"@)
            } else {
                match hex_value(s[1]) {
                    None => Err(invalid_digit_message(utf8_lead(s[1]))),
                    Some(low) => match decode_hex_pairs(s.skip(2)) {
                        Ok(rest) => Ok(seq![(high * 16 + low) as u8] + rest),
                        Err(m) => Err(m),
                    },
                }
            },
        }
    }
}

/// Decodes the hexadecimal text of a record into bytes: text whose UTF-8
/// encoding has an odd number of bytes is refused before any digit is read.
pub open spec fn decode_hex_digits(s: Seq<char>) -> std::result::Result<Seq<u8>, Seq<char>> {
    if utf8_byte_len(s) % 2 == 1 {
        Err("odd number of hex digits"@)
    } else {
        decode_hex_pairs(s)
    }
}

/// The sum of the bytes of `r`.
pub open spec fn byte_sum(r: Seq<u8>) -> nat
    decreases r.len(),
{
    if r.len() == 0 {
        0
    } else {
        byte_sum(r.drop_last()) + r.last() as nat
    }
}

/// The bytes of `data` placed at consecutive addresses from `base`.
pub open spec fn data_map(base: int, data: Seq<u8>) -> Map<u32, u8> {
    Map::new(|a: u32| base <= a < base + data.len(), |a: u32| data[a - base])
}

/// What one record does to the parser's state.
pub enum RecordStep {
    /// Go on with this upper linear address and these bytes.
    Continue { upper: u32, bytes: Map<u32, u8> },
    /// The end-of-file record: the image is these bytes.
    Finish { bytes: Map<u32, u8> },
    /// The record is refused with this message.
    Fail { message: Seq<char> },
    /// A data byte's address would exceed the 32-bit address space.
    Overflow,
}

/// The effect of the decoded record `rec`, with upper linear address `upper`
/// and the bytes `bytes` read so far.
pub open spec fn record_effect(rec: Seq<u8>, upper: u32, bytes: Map<u32, u8>) -> RecordStep {
    if rec.len() < 5 {
        RecordStep::Fail { message: "record too short"@ }
    } else if rec.len() != 5 + rec[0] {
        RecordStep::Fail {
            message: "length says "@ + decimal(rec[0] as nat) + " data bytes but record has "@
                + decimal((rec.len() - 5) as nat),
        }
    } else if byte_sum(rec) % 256 != 0 {
        RecordStep::Fail { message: "checksum mismatch"@ }
    } else {
        let count = rec[0] as int;
        let data = rec.subrange(4, 4 + count);
        let kind = rec[3];
        if kind == 0 {
            let base = upper + rec[1] * 256 + rec[2];
            if base + count > 0x1_0000_0000 {
                RecordStep::Overflow
            } else {
                RecordStep::Continue { upper, bytes: bytes.union_prefer_right(data_map(base, data)) }
            }
        } else if kind == 1 {
            if count != 0 {
                RecordStep::Fail { message: "EOF has data"@ }
            } else {
                RecordStep::Finish { bytes }
            }
        } else if kind == 4 {
            if count != 2 {
                RecordStep::Fail { message: "extended linear address must have 2 bytes"@ }
            } else {
                RecordStep::Continue { upper: ((data[0] * 256 + data[1]) * 0x10000) as u32, bytes }
            }
        } else {
            RecordStep::Fail { message: "unsupported record type 0x"@ + hex_padded(kind as nat, 2) }
        }
    }
}

/// The effect of a trimmed, non-empty line.
pub open spec fn line_effect(t: Seq<char>, upper: u32, bytes: Map<u32, u8>) -> RecordStep {
    if t[0] != ':' {
        RecordStep::Fail { message: "missing ':'"@ }
    } else {
        match decode_hex_digits(t.skip(1)) {
            Err(m) => RecordStep::Fail { message: m },
            Ok(rec) => record_effect(rec, upper, bytes),
        }
    }
}

/// The index of the first `'\n'` at or after `start`, or the length of `s`.
pub open spec fn line_end(s: Seq<char>, start: int) -> int
    decreases s.len() - start,
{
    if start >= s.len() {
        s.len() as int
    } else if s[start] == '\n' {
        start
    } else {
        line_end(s, start + 1)
    }
}

/// Where a line ends.
pub proof fn lemma_line_end(s: Seq<char>, start: int)
    requires
        0 <= start <= s.len(),
    ensures
        start <= line_end(s, start) <= s.len(),
        line_end(s, start) < s.len() ==> s[line_end(s, start)] == '\n',
        forall|i: int| start <= i < line_end(s, start) ==> s[i] != '\n',
    decreases s.len() - start,
{
    if start < s.len() && s[start] != '\n' {
        lemma_line_end(s, start + 1);
    }
}

/// Message of a refusal on line `number` (counted from one).
pub open spec fn line_message(number: nat, message: Seq<char>) -> Seq<char> {
    "line "@ + decimal(number) + ": "@ + message
}

/// The outcome of parsing a HEX text.
pub enum HexOutcome {
    /// The text holds an image with these bytes.
    Image { bytes: Map<u32, u8> },
    /// The text is refused with this message.
    Rejected { message: Seq<char> },
    /// A data byte's address would exceed the 32-bit address space.
    AddressOverflow,
}

/// Parses the lines of `s` from character `start`, which begins the line
/// with index `index`, with upper linear address `upper` and bytes `bytes`
/// read so far. Blank lines are skipped; the first end-of-file record ends
/// the parse.
pub open spec fn parse_lines(s: Seq<char>, start: int, index: nat, upper: u32, bytes: Map<u32, u8>) -> HexOutcome
    decreases s.len() + 1 - start,
{
    if start < 0 || start > s.len() {
        HexOutcome::Rejected { message: "missing EOF record"@ }
    } else {
        let end = line_end(s, start);
        proof {
            lemma_line_end(s, start);
        }
        let t = trim(s.subrange(start, end));
        if t.len() == 0 {
            parse_lines(s, end + 1, index + 1, upper, bytes)
        } else {
            match line_effect(t, upper, bytes) {
                RecordStep::Continue { upper: next, bytes: acc } => parse_lines(s, end + 1, index + 1, next, acc),
                RecordStep::Finish { bytes: acc } => HexOutcome::Image { bytes: acc },
                RecordStep::Fail { message } => HexOutcome::Rejected { message: line_message(index + 1, message) },
                RecordStep::Overflow => HexOutcome::AddressOverflow,
            }
        }
    }
}

/// The outcome of parsing the text `s`.
pub open spec fn parse_hex(s: Seq<char>) -> HexOutcome {
    parse_lines(s, 0, 0, 0, Map::empty())
}

/// Prepends `prefix` to a successful decoding.
pub open spec fn with_prefix(
    prefix: Seq<u8>,
    r: std::result::Result<Seq<u8>, Seq<char>>,
) -> std::result::Result<Seq<u8>, Seq<char>> {
    match r {
        Ok(rest) => Ok(prefix + rest),
        Err(m) => Err(m),
    }
}

fn find_line_end(chars: &Vec<char>, start: usize) -> (end: usize)
    requires
        start <= chars.len(),
    ensures
        end == line_end(chars@, start as int),
{
    let mut i = start;
    while i < chars.len() && chars[i] != '\n'
        invariant
            start <= i <= chars.len(),
            line_end(chars@, start as int) == line_end(chars@, i as int),
        decreases chars.len() - i,
    {
        i = i + 1;
    }
    i
}

fn whitespace(c: char) -> (b: bool)
    ensures
        b == is_whitespace(c),
{
    let u = c as u32;
    (0x09 <= u && u <= 0x0d) || u == 0x20 || u == 0x85 || u == 0xa0 || u == 0x1680 || (0x2000 <= u
        && u <= 0x200a) || u == 0x2028 || u == 0x2029 || u == 0x202f || u == 0x205f || u == 0x3000
}

fn trim_range(chars: &Vec<char>, start: usize, end: usize) -> (r: (usize, usize))
    requires
        start <= end <= chars.len(),
    ensures
        start <= r.0 <= r.1 <= end,
        chars@.subrange(r.0 as int, r.1 as int) == trim(chars@.subrange(start as int, end as int)),
{
    let mut lo = start;
    while lo < end && whitespace(chars[lo])
        invariant
            start <= lo <= end <= chars.len(),
            trim_start(chars@.subrange(start as int, end as int)) == trim_start(
                chars@.subrange(lo as int, end as int),
            ),
        decreases end - lo,
    {
        assert(chars@.subrange(lo as int, end as int).drop_first() =~= chars@.subrange(
            lo + 1,
            end as int,
        ));
        lo = lo + 1;
    }
    assert(trim_start(chars@.subrange(lo as int, end as int)) == chars@.subrange(
        lo as int,
        end as int,
    ));
    let mut hi = end;
    while hi > lo && whitespace(chars[hi - 1])
        invariant
            start <= lo <= hi <= end <= chars.len(),
            trim_end(chars@.subrange(lo as int, end as int)) == trim_end(
                chars@.subrange(lo as int, hi as int),
            ),
        decreases hi - lo,
    {
        assert(chars@.subrange(lo as int, hi as int).drop_last() =~= chars@.subrange(
            lo as int,
            hi - 1,
        ));
        hi = hi - 1;
    }
    (lo, hi)
}

fn hex_value_of(c: char) -> (v: Option<u8>)
    ensures
        v == hex_value(c),
{
    let u = c as u32;
    if 0x30 <= u && u <= 0x39 {
        Some((u - 0x30) as u8)
    } else if 0x61 <= u && u <= 0x66 {
        Some((u - 0x61 + 10) as u8)
    } else if 0x41 <= u && u <= 0x46 {
        Some((u - 0x41 + 10) as u8)
    } else {
        None
    }
}

fn utf8_lead_of(c: char) -> (b: u8)
    ensures
        b == utf8_lead(c),
{
    let u = c as u32;
    if u < 0x80 {
        u as u8
    } else if u < 0x800 {
        (0xc0 + u / 0x40) as u8
    } else if u < 0x10000 {
        (0xe0 + u / 0x1000) as u8
    } else {
        (0xf0 + u / 0x40000) as u8
    }
}

fn invalid_digit(b: u8) -> (m: String)
    ensures
        m@ == invalid_digit_message(b),
{
    let mut m = String::new();
    m.append("invalid hex digit '");
    push_char(&mut m, b as char);
    m.append("'");
    m
}

/// Decodes the hexadecimal text `chars[lo..hi]` into bytes.
fn decode_hex_bytes(chars: &Vec<char>, lo: usize, hi: usize) -> (r: std::result::Result<
    Vec<u8>,
    String,
>)
    requires
        lo <= hi <= chars.len(),
    ensures
        match decode_hex_digits(chars@.subrange(lo as int, hi as int)) {
            Ok(bytes) => r matches Ok(v) && v@ == bytes,
            Err(m) => r matches Err(s) && s@ == m,
        },
{
    let ghost text = chars@.subrange(lo as int, hi as int);
    let mut odd = false;
    let mut i = lo;
    while i < hi
        invariant
            lo <= i <= hi <= chars.len(),
            odd == (utf8_byte_len(chars@.subrange(lo as int, i as int)) % 2 == 1),
        decreases hi - i,
    {
        let u = chars[i] as u32;
        if u < 0x80 || (0x800 <= u && u < 0x10000) {
            odd = !odd;
        }
        assert(chars@.subrange(lo as int, i + 1).drop_last() =~= chars@.subrange(lo as int, i as int));
        i = i + 1;
    }
    if odd {
        return Err(String::from_str("odd number of hex digits"));
    }
    let mut out: Vec<u8> = Vec::new();
    let mut i = lo;
    assert(out@ + Seq::<u8>::empty() =~= Seq::<u8>::empty());
    while i < hi
        invariant
            lo <= i <= hi <= chars.len(),
            text == chars@.subrange(lo as int, hi as int),
            utf8_byte_len(text) % 2 == 0,
            decode_hex_digits(text) == with_prefix(
                out@,
                decode_hex_pairs(chars@.subrange(i as int, hi as int)),
            ),
        decreases hi - i,
    {
        let ghost rest = chars@.subrange(i as int, hi as int);
        let high = match hex_value_of(chars[i]) {
            Some(v) => v,
            None => {
                return Err(invalid_digit(utf8_lead_of(chars[i])));
            },
        };
        if i + 1 == hi {
            return Err(String::from_str("odd number of hex digits"));
        }
        let low = match hex_value_of(chars[i + 1]) {
            Some(v) => v,
            None => {
                return Err(invalid_digit(utf8_lead_of(chars[i + 1])));
            },
        };
        let byte = high * 16 + low;
        proof {
            assert(rest.skip(2) =~= chars@.subrange(i + 2, hi as int));
            let tail = decode_hex_pairs(chars@.subrange(i + 2, hi as int));
            assert(decode_hex_pairs(rest) == with_prefix(seq![byte], tail));
            match tail {
                Ok(t) => {
                    assert(out@ + (seq![byte] + t) =~= out@.push(byte) + t);
                },
                Err(m) => {},
            }
        }
        out.push(byte);
        i = i + 2;
    }
    assert(out@ + Seq::<u8>::empty() =~= out@);
    Ok(out)
}

} // verus!

verus! {

/// What the executable side of one record step gives.
enum StepResult {
    Continue(u32),
    Finish,
    Fail(String),
    Overflow,
}

fn length_mismatch(count: u8, len: usize) -> (m: String)
    requires
        len >= 5,
    ensures
        m@ == "length says "@ + decimal(count as nat) + " data bytes but record has "@ + decimal(
            (len - 5) as nat,
        ),
{
    let mut m = String::new();
    m.append("length says ");
    push_decimal(&mut m, count as u64);
    m.append(" data bytes but record has ");
    push_decimal(&mut m, (len - 5) as u64);
    m
}

fn unsupported_type(kind: u8) -> (m: String)
    ensures
        m@ == "unsupported record type 0x"@ + hex_padded(kind as nat, 2),
{
    let mut m = String::new();
    m.append("unsupported record type 0x");
    push_hex(&mut m, kind as u64, 2);
    m
}

/// Applies a decoded record to the upper linear address and the bytes read so far.
fn apply_record(rec: &Vec<u8>, upper: u32, bytes: &mut BTreeMap<u32, u8>) -> (r: StepResult)
    requires
        upper % 0x10000 == 0,
    ensures
        match record_effect(rec@, upper, old(bytes)@) {
            RecordStep::Continue { upper: next, bytes: acc } => r == StepResult::Continue(next)
                && final(bytes)@ == acc && next % 0x10000 == 0,
            RecordStep::Finish { bytes: acc } => r is Finish && final(bytes)@ == acc,
            RecordStep::Fail { message } => r matches StepResult::Fail(m) && m@ == message,
            RecordStep::Overflow => r is Overflow,
        },
{
    broadcast use vstd::std_specs::btree::group_btree_axioms;

    if rec.len() < 5 {
        return StepResult::Fail(String::from_str("record too short"));
    }
    let count = rec[0] as usize;
    if rec.len() != 4 + count + 1 {
        return StepResult::Fail(length_mismatch(rec[0], rec.len()));
    }
    let mut sum: u8 = 0;
    let mut i: usize = 0;
    while i < rec.len()
        invariant
            i <= rec.len(),
            sum == byte_sum(rec@.take(i as int)) % 256,
        decreases rec.len() - i,
    {
        assert(rec@.take(i + 1).drop_last() =~= rec@.take(i as int));
        sum = ((sum as u16 + rec[i] as u16) % 256) as u8;
        i = i + 1;
    }
    assert(rec@.take(rec.len() as int) =~= rec@);
    if sum != 0 {
        return StepResult::Fail(String::from_str("checksum mismatch"));
    }
    let offset = (rec[1] as u32) * 256 + rec[2] as u32;
    let kind = rec[3];
    let ghost data = rec@.subrange(4, 4 + count as int);
    if kind == 0 {
        assert(upper + offset <= 0xffff_ffff);
        let base = upper + offset;
        if base as u64 + count as u64 > 0x1_0000_0000 {
            return StepResult::Overflow;
        }
        let ghost start = bytes@;
        let mut k: usize = 0;
        while k < count
            invariant
                k <= count,
                rec.len() == 5 + count,
                data == rec@.subrange(4, 4 + count as int),
                base + count <= 0x1_0000_0000,
                bytes@ == start.union_prefer_right(data_map(base as int, data.take(k as int))),
            decreases count - k,
        {
            proof {
                lemma_u32_laws();
            }
            bytes.insert(base + k as u32, rec[4 + k]);
            k = k + 1;
            assert(bytes@ =~= start.union_prefer_right(data_map(base as int, data.take(k as int))));
        }
        assert(data.take(count as int) =~= data);
        StepResult::Continue(upper)
    } else if kind == 1 {
        if count != 0 {
            return StepResult::Fail(String::from_str("EOF has data"));
        }
        StepResult::Finish
    } else if kind == 4 {
        if count != 2 {
            return StepResult::Fail(
                String::from_str("extended linear address must have 2 bytes"),
            );
        }
        let next = ((rec[4] as u32) * 256 + rec[5] as u32) * 0x10000;
        StepResult::Continue(next)
    } else {
        StepResult::Fail(unsupported_type(kind))
    }
}

} // verus!

verus! {

/// The bytes of an Intel HEX image, by address.
#[derive(Debug, Clone, PartialEq, Eq)]
pub struct HexImage {
    bytes: BTreeMap<u32, u8>,
}

impl View for HexImage {
    type V = Map<u32, u8>;

    closed spec fn view(&self) -> Map<u32, u8> {
        self.bytes@
    }
}

fn line_error(number: usize, message: &str) -> (e: Error)
    ensures
        is_hex_error(e, line_message(number as nat, message@)),
{
    let mut m = String::new();
    m.append("line ");
    push_decimal(&mut m, number as u64);
    m.append(": ");
    m.append(message);
    Error::Hex(m)
}


/// What the executable parse gives.
enum Parsed {
    Image(HexImage),
    Rejected(Error),
    Overflow,
}

fn parse_text(input: &str) -> (r: Parsed)
    ensures
        match parse_hex(input@) {
            HexOutcome::Image { bytes } => r matches Parsed::Image(image) && image@ == bytes,
            HexOutcome::Rejected { message } => r matches Parsed::Rejected(e) && is_hex_error(e, message),
            HexOutcome::AddressOverflow => r is Overflow,
        },
{
    let chars = chars_of(input);
    let n = chars.len();
    let mut bytes: BTreeMap<u32, u8> = BTreeMap::new();
    let mut upper: u32 = 0;
    let mut start: usize = 0;
    let mut index: usize = 0;
    loop
        invariant
            chars@ == input@,
            n == chars@.len(),
            start <= n,
            index <= start,
            upper % 0x10000 == 0,
            parse_lines(chars@, start as int, index as nat, upper, bytes@) == parse_hex(input@),
        decreases n - start,
    {
        let end = find_line_end(&chars, start);
        proof {
            lemma_line_end(chars@, start as int);
        }
        let (lo, hi) = trim_range(&chars, start, end);
        let ghost t = chars@.subrange(lo as int, hi as int);
        if lo < hi {
            assert(t[0] == chars@[lo as int]);
            if chars[lo] != ':' {
                return Parsed::Rejected(line_error(index + 1, "missing ':'"));
            }
            assert(t.skip(1) =~= chars@.subrange(lo + 1, hi as int));
            let rec = match decode_hex_bytes(&chars, lo + 1, hi) {
                Ok(rec) => rec,
                Err(m) => {
                    return Parsed::Rejected(line_error(index + 1, m.as_str()));
                },
            };
            match apply_record(&rec, upper, &mut bytes) {
                StepResult::Continue(next) => {
                    upper = next;
                },
                StepResult::Finish => {
                    return Parsed::Image(HexImage { bytes });
                },
                StepResult::Fail(m) => {
                    return Parsed::Rejected(line_error(index + 1, m.as_str()));
                },
                StepResult::Overflow => {
                    return Parsed::Overflow;
                },
            }
        }
        if end == n {
            assert(parse_lines(chars@, n + 1, (index + 1) as nat, upper, bytes@)
                == HexOutcome::Rejected { message: "missing EOF record"@ });
            return Parsed::Rejected(Error::Hex(String::from_str("missing EOF record")));
        }
        start = end + 1;
        index = index + 1;
    }
}

impl HexImage {
    /// Parses Intel HEX text. Lines are trimmed and blank ones skipped; each
    /// other line must be `:` and the hex digits of a record whose length
    /// byte matches and whose bytes sum to zero (mod 256). Data records place
    /// their bytes at the upper linear address plus their offset (a later
    /// byte replaces an earlier one at the same address); extended linear
    /// address records set the upper address; the first end-of-file record
    /// ends the image, and text without one is refused.
    pub fn parse(input: &str) -> (r: Result<Self>)
        requires
            !(parse_hex(input@) is AddressOverflow),
        ensures
            match parse_hex(input@) {
                HexOutcome::Image { bytes } => r matches Ok(image) && image@ == bytes,
                HexOutcome::Rejected { message } => r matches Err(e) && is_hex_error(e, message),
                HexOutcome::AddressOverflow => false,
            },
    {
        match parse_text(input) {
            Parsed::Image(image) => Ok(image),
            Parsed::Rejected(e) => Err(e),
            Parsed::Overflow => {
                assert(false);
                Err(Error::Hex(String::new()))
            },
        }
    }

    /// Whether parsing `input` would place a data byte beyond the 32-bit
    /// address space (the one input that `parse` does not accept).
    pub fn exceeds_address_space(input: &str) -> (b: bool)
        ensures
            b == (parse_hex(input@) is AddressOverflow),
    {
        match parse_text(input) {
            Parsed::Overflow => true,
            _ => false,
        }
    }

    /// The bytes of the image, by address.
    pub fn bytes(&self) -> (r: &BTreeMap<u32, u8>)
        ensures
            r@ == self@,
    {
        &self.bytes
    }

    /// Whether the image holds no byte.
    pub fn is_empty(&self) -> (r: bool)
        ensures
            r == (self@.len() == 0),
    {
        broadcast use vstd::std_specs::btree::group_btree_axioms;
        proof {
            lemma_u32_laws();
        }
        self.bytes.len() == 0
    }
}

} // verus!

verus! {

/// A line that ends with a `'\n'` inside `s` ends at the same place in any
/// extension of `s`.
proof fn lemma_line_end_extended(s: Seq<char>, t: Seq<char>, start: int)
    requires
        0 <= start < s.len(),
        line_end(s, start) < s.len(),
    ensures
        line_end(s + t, start) == line_end(s, start),
    decreases s.len() - start,
{
    assert((s + t)[start] == s[start]);
    if s[start] != '\n' {
        assert(line_end(s, start) == line_end(s, start + 1));
        lemma_line_end(s, start + 1);
        lemma_line_end_extended(s, t, start + 1);
    }
}

proof fn lemma_parse_lines_extended(
    s: Seq<char>,
    t: Seq<char>,
    start: int,
    index: nat,
    upper: u32,
    bytes: Map<u32, u8>,
)
    requires
        0 <= start,
        s.len() > 0,
        s.last() == '\n',
        parse_lines(s, start, index, upper, bytes) != missing_eof(),
    ensures
        parse_lines(s + t, start, index, upper, bytes) == parse_lines(s, start, index, upper, bytes),
    decreases s.len() + 1 - start,
{
    if start >= s.len() {
        if start == s.len() {
            lemma_line_end(s, start);
            assert(line_end(s, start) == start);
            assert(s.subrange(start, start) =~= Seq::<char>::empty());
            assert(trim(s.subrange(start, start)).len() == 0);
            assert(parse_lines(s, start + 1, index + 1, upper, bytes) == missing_eof());
            assert(parse_lines(s, start, index, upper, bytes) == parse_lines(
                s,
                start + 1,
                index + 1,
                upper,
                bytes,
            ));
        }
    } else {
        lemma_line_end(s, start);
        let end = line_end(s, start);
        if end >= s.len() {
            assert(s[s.len() - 1] == '\n');
        }
        lemma_line_end_extended(s, t, start);
        lemma_line_end(s + t, start);
        assert((s + t).subrange(start, end) =~= s.subrange(start, end));
        let line = trim(s.subrange(start, end));
        if line.len() == 0 {
            lemma_parse_lines_extended(s, t, end + 1, index + 1, upper, bytes);
        } else {
            match line_effect(line, upper, bytes) {
                RecordStep::Continue { upper: next, bytes: acc } => {
                    lemma_parse_lines_extended(s, t, end + 1, index + 1, next, acc);
                },
                _ => {},
            }
        }
    }
}

/// The refusal of a text that ends before an end-of-file record.
pub open spec fn missing_eof() -> HexOutcome {
    HexOutcome::Rejected { message: "missing EOF record"@ }
}

/// Text after a text whose outcome is settled by its own lines (an image,
/// a refused line or an address overflow, but not a missing end-of-file
/// record) does not change that outcome: whatever follows, the same image
/// or the same refusal results.
pub proof fn lemma_parse_ignores_text_after_eof(s: Seq<char>, t: Seq<char>)
    requires
        s.len() > 0,
        s.last() == '\n',
        parse_hex(s) != missing_eof(),
    ensures
        parse_hex(s + t) == parse_hex(s),
{
    lemma_parse_lines_extended(s, t, 0, 0, 0, Map::empty());
}

} // verus!

verus! {

/// `c` with an upper-case hexadecimal digit letter turned to lower case.
pub open spec fn lower_digit(c: char) -> char {
    if c == 'A' {
        'a'
    } else if c == 'B' {
        'b'
    } else if c == 'C' {
        'c'
    } else if c == 'D' {
        'd'
    } else if c == 'E' {
        'e'
    } else if c == 'F' {
        'f'
    } else {
        c
    }
}

/// `s` with its upper-case hexadecimal digit letters in lower case.
pub open spec fn lower_digits(s: Seq<char>) -> Seq<char> {
    s.map_values(|c: char| lower_digit(c))
}

proof fn lemma_lower_char(c: char)
    ensures
        is_whitespace(lower_digit(c)) == is_whitespace(c),
        (lower_digit(c) == '\n') == (c == '\n'),
        (lower_digit(c) == ':') == (c == ':'),
        hex_value(lower_digit(c)) == hex_value(c),
        hex_value(c) is None ==> lower_digit(c) == c,
        utf8_len(lower_digit(c)) == utf8_len(c),
{
}

proof fn lemma_lower_line_end(s: Seq<char>, start: int)
    requires
        0 <= start,
    ensures
        line_end(lower_digits(s), start) == line_end(s, start),
    decreases s.len() - start,
{
    if start < s.len() {
        lemma_lower_char(s[start]);
        lemma_lower_line_end(s, start + 1);
    }
}

proof fn lemma_lower_trim(s: Seq<char>)
    ensures
        trim(lower_digits(s)) == lower_digits(trim(s)),
{
    lemma_lower_trim_start(s);
    lemma_lower_trim_end(trim_start(s));
}

proof fn lemma_lower_trim_start(s: Seq<char>)
    ensures
        trim_start(lower_digits(s)) == lower_digits(trim_start(s)),
    decreases s.len(),
{
    if s.len() > 0 {
        lemma_lower_char(s[0]);
        assert(lower_digits(s).drop_first() =~= lower_digits(s.drop_first()));
        lemma_lower_trim_start(s.drop_first());
    }
}

proof fn lemma_lower_trim_end(s: Seq<char>)
    ensures
        trim_end(lower_digits(s)) == lower_digits(trim_end(s)),
    decreases s.len(),
{
    if s.len() > 0 {
        lemma_lower_char(s.last());
        assert(lower_digits(s).drop_last() =~= lower_digits(s.drop_last()));
        lemma_lower_trim_end(s.drop_last());
    }
}

proof fn lemma_lower_utf8_len(s: Seq<char>)
    ensures
        utf8_byte_len(lower_digits(s)) == utf8_byte_len(s),
    decreases s.len(),
{
    if s.len() > 0 {
        lemma_lower_char(s.last());
        assert(lower_digits(s).drop_last() =~= lower_digits(s.drop_last()));
        lemma_lower_utf8_len(s.drop_last());
    }
}

proof fn lemma_lower_pairs(s: Seq<char>)
    ensures
        decode_hex_pairs(lower_digits(s)) == decode_hex_pairs(s),
    decreases s.len(),
{
    if s.len() > 0 {
        lemma_lower_char(s[0]);
        if s.len() > 1 {
            lemma_lower_char(s[1]);
            assert(lower_digits(s).skip(2) =~= lower_digits(s.skip(2)));
            lemma_lower_pairs(s.skip(2));
        }
    }
}

proof fn lemma_lower_line_effect(t: Seq<char>, upper: u32, bytes: Map<u32, u8>)
    requires
        t.len() > 0,
    ensures
        line_effect(lower_digits(t), upper, bytes) == line_effect(t, upper, bytes),
{
    lemma_lower_char(t[0]);
    assert(lower_digits(t).skip(1) =~= lower_digits(t.skip(1)));
    lemma_lower_utf8_len(t.skip(1));
    lemma_lower_pairs(t.skip(1));
}

proof fn lemma_lower_parse_lines(
    s: Seq<char>,
    start: int,
    index: nat,
    upper: u32,
    bytes: Map<u32, u8>,
)
    ensures
        parse_lines(lower_digits(s), start, index, upper, bytes) == parse_lines(
            s,
            start,
            index,
            upper,
            bytes,
        ),
    decreases s.len() + 1 - start,
{
    if 0 <= start <= s.len() {
        let end = line_end(s, start);
        lemma_line_end(s, start);
        lemma_lower_line_end(s, start);
        assert(lower_digits(s).subrange(start, end) =~= lower_digits(s.subrange(start, end)));
        lemma_lower_trim(s.subrange(start, end));
        let t = trim(s.subrange(start, end));
        assert(lower_digits(t).len() == t.len());
        if t.len() == 0 {
            lemma_lower_parse_lines(s, end + 1, index + 1, upper, bytes);
        } else {
            lemma_lower_line_effect(t, upper, bytes);
            match line_effect(t, upper, bytes) {
                RecordStep::Continue { upper: next, bytes: acc } => {
                    lemma_lower_parse_lines(s, end + 1, index + 1, next, acc);
                },
                _ => {},
            }
        }
    }
}

/// The case of hexadecimal digit letters does not matter: the text with
/// its `A`-`F` turned to `a`-`f` parses to the same outcome.
pub proof fn lemma_parse_ignores_digit_case(s: Seq<char>)
    ensures
        parse_hex(lower_digits(s)) == parse_hex(s),
{
    lemma_lower_parse_lines(s, 0, 0, 0, Map::empty());
}

} // verus!

verus! {

/// Two outcomes of the same kind: the same image, or both refusals (their
/// line numbers may differ), or both address overflows.
pub open spec fn same_outcome(o1: HexOutcome, o2: HexOutcome) -> bool {
    match o1 {
        HexOutcome::Image { bytes } => o2 == HexOutcome::Image { bytes },
        HexOutcome::Rejected { .. } => o2 is Rejected,
        HexOutcome::AddressOverflow => o2 is AddressOverflow,
    }
}

/// The line number only shows in refusals: parses that count lines from
/// different numbers have outcomes of the same kind.
proof fn lemma_parse_index(s: Seq<char>, start: int, i: nat, j: nat, upper: u32, bytes: Map<u32, u8>)
    ensures
        same_outcome(parse_lines(s, start, i, upper, bytes), parse_lines(s, start, j, upper, bytes)),
    decreases s.len() + 1 - start,
{
    if 0 <= start <= s.len() {
        lemma_line_end(s, start);
        let end = line_end(s, start);
        let t = trim(s.subrange(start, end));
        if t.len() == 0 {
            lemma_parse_index(s, end + 1, i + 1, j + 1, upper, bytes);
        } else {
            match line_effect(t, upper, bytes) {
                RecordStep::Continue { upper: next, bytes: acc } => {
                    lemma_parse_index(s, end + 1, i + 1, j + 1, next, acc);
                },
                _ => {},
            }
        }
    }
}

/// After an inserted character, lines end one character later.
proof fn lemma_line_end_shifted(a: Seq<char>, c: char, b: Seq<char>, k: int)
    requires
        a.len() <= k <= a.len() + b.len(),
    ensures
        line_end(a + seq![c] + b, k + 1) == line_end(a + b, k) + 1,
    decreases a.len() + b.len() - k,
{
    let s = a + b;
    let s2 = a + seq![c] + b;
    if k < s.len() {
        assert(s2[k + 1] == s[k]);
        lemma_line_end_shifted(a, c, b, k + 1);
    }
}

/// After an inserted character, the parse goes on as before, one character
/// later.
proof fn lemma_parse_shifted(
    a: Seq<char>,
    c: char,
    b: Seq<char>,
    k: int,
    index: nat,
    upper: u32,
    bytes: Map<u32, u8>,
)
    requires
        a.len() <= k,
    ensures
        parse_lines(a + seq![c] + b, k + 1, index, upper, bytes) == parse_lines(
            a + b,
            k,
            index,
            upper,
            bytes,
        ),
    decreases a.len() + b.len() + 1 - k,
{
    let s = a + b;
    let s2 = a + seq![c] + b;
    if k <= s.len() {
        lemma_line_end(s, k);
        lemma_line_end_shifted(a, c, b, k);
        let end = line_end(s, k);
        assert(s2.subrange(k + 1, end + 1) =~= s.subrange(k, end));
        let t = trim(s.subrange(k, end));
        if t.len() == 0 {
            lemma_parse_shifted(a, c, b, end + 1, index + 1, upper, bytes);
        } else {
            match line_effect(t, upper, bytes) {
                RecordStep::Continue { upper: next, bytes: acc } => {
                    lemma_parse_shifted(a, c, b, end + 1, index + 1, next, acc);
                },
                _ => {},
            }
        }
    }
}

/// A line that ends before the insertion point ends where it did.
proof fn lemma_line_end_before(a: Seq<char>, c: char, b: Seq<char>, k: int)
    requires
        0 <= k < a.len(),
        line_end(a + b, k) < a.len(),
    ensures
        line_end(a + seq![c] + b, k) == line_end(a + b, k),
    decreases a.len() - k,
{
    let s = a + b;
    let s2 = a + seq![c] + b;
    assert(s[k] == a[k] && s2[k] == a[k]);
    if a[k] != '\n' {
        assert(line_end(s, k) == line_end(s, k + 1));
        lemma_line_end(s, k + 1);
        lemma_line_end_before(a, c, b, k + 1);
    }
}

/// Lines that start before a line start, in a text with a character
/// inserted at that line start, end where they did.
proof fn lemma_line_end_before_start(a: Seq<char>, c: char, b: Seq<char>, k: int)
    requires
        0 <= k < a.len(),
        a.last() == '\n',
    ensures
        line_end(a + seq![c] + b, k) == line_end(a + b, k),
        line_end(a + b, k) < a.len(),
    decreases a.len() - k,
{
    let s = a + b;
    assert(s[k] == a[k]);
    if a[k] != '\n' {
        assert(k + 1 < a.len());
        lemma_line_end_before_start(a, c, b, k + 1);
        assert(line_end(s, k) == line_end(s, k + 1));
    }
    lemma_line_end_before(a, c, b, k);
}

proof fn lemma_parse_blank_inserted(
    a: Seq<char>,
    b: Seq<char>,
    k: int,
    index: nat,
    upper: u32,
    bytes: Map<u32, u8>,
)
    requires
        0 <= k <= a.len(),
        a.len() == 0 || a.last() == '\n',
    ensures
        same_outcome(
            parse_lines(a + b, k, index, upper, bytes),
            parse_lines(a + seq!['\n'] + b, k, index, upper, bytes),
        ),
    decreases a.len() - k,
{
    let s = a + b;
    let s2 = a + seq!['\n'] + b;
    if k == a.len() {
        lemma_line_end(s2, k);
        assert(s2[k] == '\n');
        assert(line_end(s2, k) == k);
        assert(s2.subrange(k, k) =~= Seq::<char>::empty());
        assert(trim(s2.subrange(k, k)).len() == 0);
        lemma_parse_index(s, k, index, index + 1, upper, bytes);
        lemma_parse_shifted(a, '\n', b, k, index + 1, upper, bytes);
    } else {
        lemma_line_end_before_start(a, '\n', b, k);
        lemma_line_end(s, k);
        let end = line_end(s, k);
        assert(s2.subrange(k, end) =~= s.subrange(k, end));
        let t = trim(s.subrange(k, end));
        if t.len() == 0 {
            lemma_parse_blank_inserted(a, b, end + 1, index + 1, upper, bytes);
        } else {
            match line_effect(t, upper, bytes) {
                RecordStep::Continue { upper: next, bytes: acc } => {
                    lemma_parse_blank_inserted(a, b, end + 1, index + 1, next, acc);
                },
                _ => {},
            }
        }
    }
}

/// A blank line does not change what a text holds: inserting a line break
/// where a line starts gives the same image, or again a refusal (its line
/// number may move), or again an address overflow.
pub proof fn lemma_parse_ignores_blank_line(a: Seq<char>, b: Seq<char>)
    requires
        a.len() == 0 || a.last() == '\n',
    ensures
        same_outcome(parse_hex(a + b), parse_hex(a + seq!['\n'] + b)),
{
    lemma_parse_blank_inserted(a, b, 0, 0, 0, Map::empty());
}

proof fn lemma_parse_space_inserted(
    a: Seq<char>,
    c: char,
    b: Seq<char>,
    k: int,
    index: nat,
    upper: u32,
    bytes: Map<u32, u8>,
)
    requires
        0 <= k <= a.len(),
        a.len() == 0 || a.last() == '\n',
        is_whitespace(c),
        c != '\n',
    ensures
        parse_lines(a + seq![c] + b, k, index, upper, bytes) == parse_lines(
            a + b,
            k,
            index,
            upper,
            bytes,
        ),
    decreases a.len() - k,
{
    let s = a + b;
    let s2 = a + seq![c] + b;
    if k == a.len() {
        lemma_line_end(s, k);
        lemma_line_end_shifted(a, c, b, k);
        assert(s2[k] == c);
        assert(line_end(s2, k) == line_end(s2, k + 1));
        let end = line_end(s, k);
        let line = s.subrange(k, end);
        assert(s2.subrange(k, end + 1) =~= seq![c] + line);
        assert((seq![c] + line).drop_first() =~= line);
        assert(trim_start(seq![c] + line) == trim_start(line));
        let t = trim(line);
        if t.len() == 0 {
            lemma_parse_shifted(a, c, b, end + 1, index + 1, upper, bytes);
        } else {
            match line_effect(t, upper, bytes) {
                RecordStep::Continue { upper: next, bytes: acc } => {
                    lemma_parse_shifted(a, c, b, end + 1, index + 1, next, acc);
                },
                _ => {},
            }
        }
    } else {
        lemma_line_end_before_start(a, c, b, k);
        lemma_line_end(s, k);
        let end = line_end(s, k);
        assert(s2.subrange(k, end) =~= s.subrange(k, end));
        let t = trim(s.subrange(k, end));
        if t.len() == 0 {
            lemma_parse_space_inserted(a, c, b, end + 1, index + 1, upper, bytes);
        } else {
            match line_effect(t, upper, bytes) {
                RecordStep::Continue { upper: next, bytes: acc } => {
                    lemma_parse_space_inserted(a, c, b, end + 1, index + 1, next, acc);
                },
                _ => {},
            }
        }
    }
}

/// Leading whitespace does not change the outcome: a whitespace character
/// other than a line break, inserted where a line starts, gives exactly the
/// same image or refusal.
pub proof fn lemma_parse_ignores_leading_space(a: Seq<char>, c: char, b: Seq<char>)
    requires
        a.len() == 0 || a.last() == '\n',
        is_whitespace(c),
        c != '\n',
    ensures
        parse_hex(a + seq![c] + b) == parse_hex(a + b),
{
    lemma_parse_space_inserted(a, c, b, 0, 0, 0, Map::empty());
}

/// A line goes on through characters other than line breaks.
proof fn lemma_line_end_skip(s: Seq<char>, k: int, x: int)
    requires
        0 <= k <= x <= s.len(),
        forall|i: int| k <= i < x ==> s[i] != '\n',
    ensures
        line_end(s, k) == line_end(s, x),
    decreases x - k,
{
    if k < x {
        lemma_line_end_skip(s, k + 1, x);
    }
}

proof fn lemma_trim_start_append(x: Seq<char>, c: char)
    requires
        is_whitespace(c),
    ensures
        trim_start(x + seq![c]) == (if trim_start(x).len() == 0 {
            Seq::<char>::empty()
        } else {
            trim_start(x) + seq![c]
        }),
    decreases x.len(),
{
    if x.len() == 0 {
        assert(x + seq![c] =~= seq![c]);
        assert(seq![c].drop_first() =~= Seq::<char>::empty());
        assert(trim_start(Seq::<char>::empty()) == Seq::<char>::empty());
    } else {
        assert((x + seq![c])[0] == x[0]);
        assert((x + seq![c]).drop_first() =~= x.drop_first() + seq![c]);
        if is_whitespace(x[0]) {
            lemma_trim_start_append(x.drop_first(), c);
        }
    }
}

/// Trailing whitespace leaves a line's trimmed text as it was.
proof fn lemma_trim_append(x: Seq<char>, c: char)
    requires
        is_whitespace(c),
    ensures
        trim(x + seq![c]) == trim(x),
{
    lemma_trim_start_append(x, c);
    let y = trim_start(x);
    if y.len() > 0 {
        assert((y + seq![c]).last() == c);
        assert((y + seq![c]).drop_last() =~= y);
    }
}

proof fn lemma_parse_trailing_inserted(
    a: Seq<char>,
    c: char,
    b: Seq<char>,
    k: int,
    index: nat,
    upper: u32,
    bytes: Map<u32, u8>,
)
    requires
        0 <= k <= a.len(),
        b.len() == 0 || b[0] == '\n',
        is_whitespace(c),
        c != '\n',
    ensures
        parse_lines(a + seq![c] + b, k, index, upper, bytes) == parse_lines(
            a + b,
            k,
            index,
            upper,
            bytes,
        ),
    decreases a.len() - k,
{
    let s = a + b;
    let s2 = a + seq![c] + b;
    lemma_line_end(s, k);
    let end = line_end(s, k);
    if end < a.len() {
        lemma_line_end_before(a, c, b, k);
        assert(s2.subrange(k, end) =~= s.subrange(k, end));
        let t = trim(s.subrange(k, end));
        if t.len() == 0 {
            lemma_parse_trailing_inserted(a, c, b, end + 1, index + 1, upper, bytes);
        } else {
            match line_effect(t, upper, bytes) {
                RecordStep::Continue { upper: next, bytes: acc } => {
                    lemma_parse_trailing_inserted(a, c, b, end + 1, index + 1, next, acc);
                },
                _ => {},
            }
        }
    } else {
        // The line runs up to the insertion point.
        if end > a.len() {
            assert(s[a.len() as int] == '\n');
        }
        assert(end == a.len());
        assert forall|i: int| k <= i < a.len() + 1 implies s2[i] != '\n' by {
            if i < a.len() {
                assert(s2[i] == s[i]);
            }
        }
        lemma_line_end_skip(s2, k, a.len() + 1int);
        lemma_line_end_shifted(a, c, b, a.len() as int);
        lemma_line_end(s2, k);
        assert(line_end(s2, k) == end + 1);
        let line = s.subrange(k, end);
        assert(s2.subrange(k, end + 1) =~= line + seq![c]);
        lemma_trim_append(line, c);
        let t = trim(line);
        if t.len() == 0 {
            lemma_parse_shifted(a, c, b, end + 1, index + 1, upper, bytes);
        } else {
            match line_effect(t, upper, bytes) {
                RecordStep::Continue { upper: next, bytes: acc } => {
                    lemma_parse_shifted(a, c, b, end + 1, index + 1, next, acc);
                },
                _ => {},
            }
        }
    }
}

/// Trailing whitespace does not change the outcome: a whitespace character
/// other than a line break, inserted where a line ends, gives exactly the
/// same image or refusal.
pub proof fn lemma_parse_ignores_trailing_space(a: Seq<char>, c: char, b: Seq<char>)
    requires
        b.len() == 0 || b[0] == '\n',
        is_whitespace(c),
        c != '\n',
    ensures
        parse_hex(a + seq![c] + b) == parse_hex(a + b),
{
    lemma_parse_trailing_inserted(a, c, b, 0, 0, 0, Map::empty());
}

/// The end-of-file record line.
pub open spec fn eof_line() -> Seq<char> {
    ":00000001FF\n"@
}

proof fn lemma_eof_pairs()
    ensures
        decode_hex_pairs(seq!['0', '0', '0', '0', '0', '0', '0', '1', 'F', 'F']) == Ok::<
            Seq<u8>,
            Seq<char>,
        >(seq![0u8, 0u8, 0u8, 1u8, 0xffu8]),
{
    let p1 = seq!['F', 'F'];
    let p2 = seq!['0', '1', 'F', 'F'];
    let p3 = seq!['0', '0', '0', '1', 'F', 'F'];
    let p4 = seq!['0', '0', '0', '0', '0', '1', 'F', 'F'];
    let p5 = seq!['0', '0', '0', '0', '0', '0', '0', '1', 'F', 'F'];
    assert(p1.skip(2) =~= Seq::<char>::empty());
    assert(p2.skip(2) =~= p1);
    assert(p3.skip(2) =~= p2);
    assert(p4.skip(2) =~= p3);
    assert(p5.skip(2) =~= p4);
    assert(decode_hex_pairs(Seq::<char>::empty()) == Ok::<Seq<u8>, Seq<char>>(Seq::empty()));
    assert(seq![0xffu8] + Seq::<u8>::empty() =~= seq![0xffu8]);
    assert(decode_hex_pairs(p1) == Ok::<Seq<u8>, Seq<char>>(seq![0xffu8]));
    assert(seq![1u8] + seq![0xffu8] =~= seq![1u8, 0xffu8]);
    assert(decode_hex_pairs(p2) == Ok::<Seq<u8>, Seq<char>>(seq![1u8, 0xffu8]));
    assert(seq![0u8] + seq![1u8, 0xffu8] =~= seq![0u8, 1u8, 0xffu8]);
    assert(decode_hex_pairs(p3) == Ok::<Seq<u8>, Seq<char>>(seq![0u8, 1u8, 0xffu8]));
    assert(seq![0u8] + seq![0u8, 1u8, 0xffu8] =~= seq![0u8, 0u8, 1u8, 0xffu8]);
    assert(decode_hex_pairs(p4) == Ok::<Seq<u8>, Seq<char>>(seq![0u8, 0u8, 1u8, 0xffu8]));
    assert(seq![0u8] + seq![0u8, 0u8, 1u8, 0xffu8] =~= seq![0u8, 0u8, 0u8, 1u8, 0xffu8]);
}

proof fn lemma_eof_len()
    ensures
        utf8_byte_len(seq!['0', '0', '0', '0', '0', '0', '0', '1', 'F', 'F']) == 10,
{
    let p = seq!['0', '0', '0', '0', '0', '0', '0', '1', 'F', 'F'];
    assert forall|k: int| 0 <= k <= 10 implies #[trigger] utf8_byte_len(p.take(k)) == k by {
        lemma_ascii_len(p, k);
    }
    assert(p.take(10) =~= p);
}

proof fn lemma_ascii_len(p: Seq<char>, k: int)
    requires
        0 <= k <= p.len(),
        forall|i: int| 0 <= i < p.len() ==> (p[i] as u32) < 0x80,
    ensures
        utf8_byte_len(p.take(k)) == k,
    decreases k,
{
    if k > 0 {
        assert(p.take(k).drop_last() =~= p.take(k - 1));
        lemma_ascii_len(p, k - 1);
    }
}

proof fn lemma_eof_sum()
    ensures
        byte_sum(seq![0u8, 0u8, 0u8, 1u8, 0xffu8]) == 256,
{
    let r = seq![0u8, 0u8, 0u8, 1u8, 0xffu8];
    assert(r.drop_last() =~= seq![0u8, 0u8, 0u8, 1u8]);
    assert(r.drop_last().drop_last() =~= seq![0u8, 0u8, 0u8]);
    assert(r.drop_last().drop_last().drop_last() =~= seq![0u8, 0u8]);
    assert(r.drop_last().drop_last().drop_last().drop_last() =~= seq![0u8]);
    assert(r.drop_last().drop_last().drop_last().drop_last().drop_last() =~= Seq::<u8>::empty());
    assert(byte_sum(Seq::<u8>::empty()) == 0);
    assert(byte_sum(seq![0u8]) == 0);
    assert(byte_sum(seq![0u8, 0u8]) == 0);
    assert(byte_sum(seq![0u8, 0u8, 0u8]) == 0);
    assert(byte_sum(seq![0u8, 0u8, 0u8, 1u8]) == 1);
}

proof fn lemma_eof_record(upper: u32, bytes: Map<u32, u8>)
    ensures
        trim(eof_line().take(11)) == eof_line().take(11),
        line_effect(eof_line().take(11), upper, bytes) == (RecordStep::Finish { bytes }),
        eof_line().len() == 12,
        eof_line()[11] == '\n',
        forall|i: int| 0 <= i < 11 ==> eof_line()[i] != '\n',
{
    reveal_strlit(":00000001FF\n");
    let l = eof_line().take(11);
    assert(l =~= seq![':', '0', '0', '0', '0', '0', '0', '0', '1', 'F', 'F']);
    let d = l.skip(1);
    assert(d =~= seq!['0', '0', '0', '0', '0', '0', '0', '1', 'F', 'F']);
    lemma_eof_len();
    lemma_eof_pairs();
    lemma_eof_sum();
    let rec = seq![0u8, 0u8, 0u8, 1u8, 0xffu8];
    assert(decode_hex_digits(d) == Ok::<Seq<u8>, Seq<char>>(rec));
    assert(rec.subrange(4, 4) =~= Seq::<u8>::empty());
    assert(l.drop_last() =~= seq![':', '0', '0', '0', '0', '0', '0', '0', '1', 'F']);
    assert(trim_start(l) == l);
    assert(trim_end(l) == l);
}

/// A text made of lines and then the end-of-file record never lacks the
/// end-of-file record.
proof fn lemma_reaches_eof(a: Seq<char>, k: int, index: nat, upper: u32, bytes: Map<u32, u8>)
    requires
        0 <= k <= a.len(),
        a.len() == 0 || a.last() == '\n',
    ensures
        parse_lines(a + eof_line(), k, index, upper, bytes) != missing_eof(),
    decreases a.len() - k,
{
    let s = a + eof_line();
    lemma_eof_record(upper, bytes);
    lemma_line_end(s, k);
    reveal_strlit("missing EOF record");
    if k < a.len() {
        lemma_line_end_before_start(a, 'x', eof_line(), k);
        let end = line_end(s, k);
        let t = trim(s.subrange(k, end));
        if t.len() == 0 {
            lemma_reaches_eof(a, end + 1, index + 1, upper, bytes);
        } else {
            match line_effect(t, upper, bytes) {
                RecordStep::Continue { upper: next, bytes: acc } => {
                    lemma_reaches_eof(a, end + 1, index + 1, next, acc);
                },
                RecordStep::Fail { message } => {
                    reveal_strlit("line ");
                    let m = line_message(index + 1, message);
                    assert(m[0] == 'l');
                    assert("missing EOF record"@[0] == 'm');
                },
                _ => {},
            }
        }
    } else {
        assert forall|i: int| k <= i < k + 11 implies s[i] != '\n' by {
            assert(s[i] == eof_line()[i - k]);
        }
        assert(s[k + 11] == '\n');
        lemma_line_end_skip(s, k, k + 11);
        assert(line_end(s, k + 11) == k + 11);
        assert(s.subrange(k, k + 11) =~= eof_line().take(11));
    }
}

/// Whatever follows the end-of-file record does not change the outcome of
/// a text whose lines are followed by that record: the same image or the
/// same refusal results.
pub proof fn lemma_parse_ignores_text_after_eof_record(a: Seq<char>, b: Seq<char>, b2: Seq<char>)
    requires
        a.len() == 0 || a.last() == '\n',
    ensures
        parse_hex(a + eof_line() + b) == parse_hex(a + eof_line() + b2),
{
    lemma_reaches_eof(a, 0, 0, 0, Map::empty());
    lemma_eof_record(0, Map::empty());
    let s = a + eof_line();
    assert(s.last() == '\n');
    lemma_parse_ignores_text_after_eof(s, b);
    lemma_parse_ignores_text_after_eof(s, b2);
}

} // verus!
