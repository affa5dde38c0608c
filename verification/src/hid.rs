//! The HID control path: 65-byte reports (report id, then the packet), the
//! reading of a reply report, and the verify digest.
use crate::flash::word14;
use crate::protocol::HID_PACKET_SIZE;
use crate::text::{decimal, push_decimal};
use crate::{is_device_error, is_protocol_error, Error, Result};
use vstd::prelude::*;

verus! {

pub const DEFAULT_TIMEOUT_MS: i32 = 2000;

pub const HID_REPORT_SIZE: usize = HID_PACKET_SIZE + 1;

/// The report that carries a packet: report id 0, then the packet.
pub fn report_of(packet: &[u8; HID_PACKET_SIZE]) -> (r: [u8; HID_REPORT_SIZE])
    ensures
        r@ == seq![0u8] + packet@,
{
    let mut report = [0u8;HID_REPORT_SIZE];
    let mut i: usize = 0;
    while i < HID_PACKET_SIZE
        invariant
            i <= HID_PACKET_SIZE,
            report@.len() == HID_REPORT_SIZE,
            report@[0] == 0,
            forall|j: int| 0 <= j < i ==> report@[j + 1] == packet@[j],
        decreases HID_PACKET_SIZE - i,
    {
        report[i + 1] = packet[i];
        i = i + 1;
    }
    assert(report@ =~= seq![0u8] + packet@);
    report
}

/// Message of the error for a reply report of unexpected length.
pub open spec fn report_length_message(len: nat) -> Seq<char> {
    "HID response has "@ + decimal(len) + " bytes, expected 64 or 65"@
}

/// The packet of a reply report of which `len` bytes were read into the
/// 65-byte buffer `report`: none read is a timeout; 65 bytes carry the
/// report id first, 64 bytes are the packet itself; any other count is
/// refused.
pub fn packet_of_report(report: &[u8], len: usize) -> (r: Result<Vec<u8>>)
    requires
        report@.len() == HID_REPORT_SIZE,
    ensures
        len == 0 ==> (r matches Err(e) && is_device_error(e, "timed out waiting for HID response"@)),
        len == HID_REPORT_SIZE ==> (r matches Ok(p) && p@ == report@.subrange(1, 65)),
        len == HID_PACKET_SIZE ==> (r matches Ok(p) && p@ == report@.subrange(0, 64)),
        len != 0 && len != HID_REPORT_SIZE && len != HID_PACKET_SIZE ==> (r matches Err(e)
            && is_protocol_error(e, report_length_message(len as nat))),
{
    if len == 0 {
        return Err(Error::Device(String::from_str("timed out waiting for HID response")));
    }
    let start: usize = if len == HID_REPORT_SIZE {
        1
    } else if len == HID_PACKET_SIZE {
        0
    } else {
        let mut m = String::new();
        m.append("HID response has ");
        push_decimal(&mut m, len as u64);
        m.append(" bytes, expected 64 or 65");
        return Err(Error::Protocol(m));
    };
    let mut packet: Vec<u8> = Vec::new();
    let mut i: usize = 0;
    while i < HID_PACKET_SIZE
        invariant
            i <= HID_PACKET_SIZE,
            start <= 1,
            report@.len() == HID_REPORT_SIZE,
            packet@ == report@.subrange(start as int, start + i),
        decreases HID_PACKET_SIZE - i,
    {
        packet.push(report[start + i]);
        i = i + 1;
        assert(packet@ =~= report@.subrange(start as int, start + i));
    }
    Ok(packet)
}

/// The digest's starting value.
pub open spec fn digest_basis() -> u32 {
    0x811c_9dc5
}

/// One step of the digest: mix in the word address and the 14-bit word,
/// then multiply by the FNV prime (mod 2^32).
pub open spec fn digest_step(hash: u32, address: u32, word: u16) -> u32 {
    (((hash ^ address ^ (word14(word) as u32)) as nat * 0x0100_0193) % 0x1_0000_0000) as u32
}

/// The verify digest of `words` at consecutive word addresses from `base`
/// (addresses wrap at 2^32), taken in address order.
pub open spec fn word_digest(base: u32, words: Seq<u16>) -> u32
    decreases words.len(),
{
    if words.len() == 0 {
        digest_basis()
    } else {
        digest_step(
            word_digest(base, words.drop_last()),
            ((base + words.len() - 1) % 0x1_0000_0000) as u32,
            words.last(),
        )
    }
}

/// The verify digest of the words at consecutive word addresses from
/// `base_word_address`: start at `0x811c9dc5`, and for each word in address
/// order xor in the address and the word's low 14 bits and multiply by
/// `0x01000193`.
pub fn verify_digest(base_word_address: u32, words: &[u16]) -> (r: u32)
    ensures
        r == word_digest(base_word_address, words@),
{
    let mut hash: u32 = 0x811c_9dc5;
    let mut address: u32 = base_word_address;
    let mut i: usize = 0;
    while i < words.len()
        invariant
            i <= words@.len(),
            address == ((base_word_address + i) % 0x1_0000_0000) as u32,
            hash == word_digest(base_word_address, words@.take(i as int)),
        decreases words@.len() - i,
    {
        let w = words[i];
        let masked = w & 0x3fff;
        assert(w & 0x3fffu16 == w % 0x4000) by (bit_vector);
        let mixed = hash ^ address ^ (masked as u32);
        let ghost prev = hash;
        hash = mixed.wrapping_mul(0x0100_0193);
        proof {
            let t = words@.take(i + 1);
            assert(t.drop_last() =~= words@.take(i as int));
            assert(t.last() == w);
            assert(hash == digest_step(prev, address, w));
            vstd::arithmetic::div_mod::lemma_add_mod_noop(base_word_address + i, 1, 0x1_0000_0000);
        }
        address = address.wrapping_add(1);
        i = i + 1;
    }
    assert(words@.take(words@.len() as int) =~= words@);
    hash
}

/// The documented verify digest: the digest of no words is 0x811c9dc5, and
/// each further word, at the next word address (wrapping at 2^32), xors in
/// that address and the word's low 14 bits and multiplies by 0x01000193
/// modulo 2^32.
pub proof fn lemma_digest_steps(base: u32, words: Seq<u16>, w: u16)
    ensures
        word_digest(base, Seq::empty()) == 0x811c_9dc5,
        word_digest(base, words.push(w)) == (((word_digest(base, words) ^ (((base + words.len())
            % 0x1_0000_0000) as u32) ^ ((w % 0x4000) as u32)) as nat * 0x0100_0193)
            % 0x1_0000_0000) as u32,
{
    assert(words.push(w).drop_last() =~= words);
}

} // verus!
