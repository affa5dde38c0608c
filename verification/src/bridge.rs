//! The programmer bridge reached over a control link (HID reports or the CDC
//! stream): each operation is one request packet and one checked reply.
use crate::cdc::{decode_words, pair_word, read_words_message};
use crate::device::{id_reply, reply_of, CallReply, DeviceOp, ProbeInfo, ProgrammerDevice};
use crate::hid::{verify_digest, word_digest};
use crate::protocol::{command_code, frame, Command, HID_PACKET_SIZE, MAX_PAYLOAD_SIZE};
use crate::serial::bytes_result;
use crate::session::{
    accepted_payload, command_payload_message, next_sequence, reply_error, CommandSession,
};
use crate::text::{decimal, push_decimal};
use crate::{is_device_error, is_protocol_error, Error, Result};
use vstd::prelude::*;

verus! {

/// The transport of a control channel: it sends a request packet to the
/// bridge and returns the reply packet it received. What comes back, and
/// whether the transport fails, is the bridge's and the transport's to
/// decide; `BridgeProgrammer` records each exchange.
pub trait ControlLink {
    fn exchange(&mut self, request: &[u8; HID_PACKET_SIZE]) -> Result<Vec<u8>>;
}

/// The text that `String::from_utf8_lossy` makes of `bytes`.
pub uninterp spec fn utf8_lossy(bytes: Seq<u8>) -> Seq<char>;

/// The text of bytes that name the target.
///
/// Calls `String::from_utf8_lossy`: the result is a function of the bytes
/// alone, and valid UTF-8 is decoded as such; how invalid sequences are
/// replaced is the standard library's and is only named here.
#[verifier::external_body]
fn lossy_text(bytes: &[u8]) -> (s: String)
    ensures
        s@ == utf8_lossy(bytes@),
        vstd::utf8::valid_utf8(bytes@) ==> s@ == vstd::utf8::decode_utf8(bytes@),
{
    String::from_utf8_lossy(bytes).to_string()
}

/// The little-endian bytes of a `u32`.
pub open spec fn le_bytes(v: u32) -> Seq<u8> {
    seq![
        (v % 0x100) as u8,
        (v / 0x100 % 0x100) as u8,
        (v / 0x1_0000 % 0x100) as u8,
        (v / 0x100_0000) as u8,
    ]
}

/// The little-endian bytes of a `u16`.
pub open spec fn le16_bytes(v: u16) -> Seq<u8> {
    seq![(v % 0x100) as u8, (v / 0x100) as u8]
}

fn push_le32(v: &mut Vec<u8>, x: u32)
    ensures
        final(v)@ == old(v)@ + le_bytes(x),
{
    v.push((x % 0x100) as u8);
    v.push((x / 0x100 % 0x100) as u8);
    v.push((x / 0x1_0000 % 0x100) as u8);
    v.push((x / 0x100_0000) as u8);
    assert(v@ =~= old(v)@ + le_bytes(x));
}

fn push_le16(v: &mut Vec<u8>, x: u16)
    ensures
        final(v)@ == old(v)@ + le16_bytes(x),
{
    v.push((x % 0x100) as u8);
    v.push((x / 0x100) as u8);
    assert(v@ =~= old(v)@ + le16_bytes(x));
}

/// The payload of a reply that the link gave back for request `sequence`,
/// if the reply is accepted.
pub open spec fn reply_payload(sequence: u8, link: std::result::Result<Seq<u8>, Error>) -> Option<
    Seq<u8>,
> {
    match link {
        Ok(packet) => accepted_payload(sequence, packet),
        Err(_) => None,
    }
}

/// `e` is the error of a command whose link gave back `link` for request
/// `sequence`: the link's own error, or why the reply was refused.
pub open spec fn reply_failure(
    sequence: u8,
    link: std::result::Result<Seq<u8>, Error>,
    e: Error,
) -> bool {
    match link {
        Ok(packet) => reply_error(sequence, packet, e),
        Err(x) => e == x,
    }
}

/// Message of the error for a device-id reply of the wrong length.
pub open spec fn read_id_message(len: nat) -> Seq<char> {
    "read-id response has "@ + decimal(len) + " bytes, expected 2"@
}

/// A programmer bridge behind a control link.
pub struct BridgeProgrammer<L: ControlLink> {
    link: L,
    session: CommandSession,
    bridge_name: String,
    log: Ghost<Seq<(DeviceOp, CallReply)>>,
    sent: Ghost<Seq<(Seq<u8>, std::result::Result<Seq<u8>, Error>)>>,
}

/// `after` is `before` after one command with `command` and `payload`: an
/// oversized payload is refused with nothing sent; otherwise the next
/// request packet went to the link.
pub open spec fn sent<L: ControlLink>(
    before: BridgeProgrammer<L>,
    after: BridgeProgrammer<L>,
    command: Command,
    payload: Seq<u8>,
) -> bool {
    if payload.len() > MAX_PAYLOAD_SIZE {
        after.exchanges() == before.exchanges() && after.last_sequence() == before.last_sequence()
    } else {
        &&& after.last_sequence() == next_sequence(before.last_sequence())
        &&& after.exchanges() == before.exchanges().push(
            (frame(after.last_sequence(), command_code(command), payload), after.last_link_result()),
        )
    }
}

/// The result of a command that reads no reply payload: `Ok` exactly when
/// the reply to the last request was accepted, else that refusal's error.
pub open spec fn unit_result<L: ControlLink>(after: BridgeProgrammer<L>, r: Result<()>) -> bool {
    match after.accepted() {
        Some(_) => r is Ok,
        None => r matches Err(e) && after.refused(e),
    }
}

impl<L: ControlLink> BridgeProgrammer<L> {
    /// The requests handed to the link so far, in order, each with what the
    /// link returned.
    pub closed spec fn exchanges(&self) -> Seq<(Seq<u8>, std::result::Result<Seq<u8>, Error>)> {
        self.sent@
    }

    /// The sequence number of the last request.
    pub closed spec fn last_sequence(&self) -> u8 {
        self.session.last_sequence()
    }

    /// The name that probes report for the bridge.
    pub closed spec fn bridge_name_view(&self) -> Seq<char> {
        self.bridge_name@
    }

    /// What the link gave back for the last request.
    pub open spec fn last_link_result(&self) -> std::result::Result<Seq<u8>, Error> {
        self.exchanges().last().1
    }

    /// The payload of the reply to the last request, if it was accepted.
    pub open spec fn accepted(&self) -> Option<Seq<u8>> {
        reply_payload(self.last_sequence(), self.last_link_result())
    }

    /// `e` is why the last request's reply was refused.
    pub open spec fn refused(&self, e: Error) -> bool {
        reply_failure(self.last_sequence(), self.last_link_result(), e)
    }

    /// A bridge behind `link` that has sent no request.
    pub fn new(link: L, bridge_name: String) -> (r: Self)
        ensures
            r.exchanges() == Seq::<(Seq<u8>, std::result::Result<Seq<u8>, Error>)>::empty(),
            r.last_sequence() == 0,
            r.history() == Seq::<(DeviceOp, CallReply)>::empty(),
            r.bridge_name_view() == bridge_name@,
    {
        BridgeProgrammer {
            link,
            session: CommandSession::new(),
            bridge_name,
            log: Ghost(Seq::empty()),
            sent: Ghost(Seq::empty()),
        }
    }

    /// The link, handed back.
    pub fn into_link(self) -> L {
        self.link
    }

    /// Sends one request and checks its reply: a payload over 60 bytes is
    /// refused; otherwise it goes out in the next request packet, and the
    /// link's reply is accepted as `CommandSession::accept_response` says,
    /// giving its payload.
    fn command(&mut self, command: Command, payload: &[u8]) -> (r: Result<Vec<u8>>)
        ensures
            sent(*old(self), *final(self), command, payload@),
            payload@.len() > MAX_PAYLOAD_SIZE ==> (r matches Err(e) && is_protocol_error(
                e,
                command_payload_message(payload@.len()),
            )),
            payload@.len() <= MAX_PAYLOAD_SIZE ==> match final(self).accepted() {
                Some(p) => r matches Ok(v) && v@ == p,
                None => r matches Err(e) && final(self).refused(e),
            },
            final(self).history() == old(self).history(),
            final(self).bridge_name_view() == old(self).bridge_name_view(),
    {
        let packet = match self.session.next_request(command, payload) {
            Ok(packet) => packet,
            Err(e) => {
                return Err(e);
            },
        };
        let reply = self.link.exchange(&packet);
        self.sent = Ghost(self.sent@.push((packet@, bytes_result(reply))));
        let reply = match reply {
            Ok(reply) => reply,
            Err(e) => {
                return Err(e);
            },
        };
        self.session.accept_response(reply.as_slice())
    }

    fn unit_command(&mut self, command: Command, payload: &[u8]) -> (r: Result<()>)
        requires
            payload@.len() <= MAX_PAYLOAD_SIZE,
        ensures
            sent(*old(self), *final(self), command, payload@),
            unit_result(*final(self), r),
            final(self).history() == old(self).history(),
            final(self).bridge_name_view() == old(self).bridge_name_view(),
    {
        match self.command(command, payload) {
            Ok(_) => Ok(()),
            Err(e) => Err(e),
        }
    }
}

impl<L: ControlLink> ProgrammerDevice for BridgeProgrammer<L> {
    closed spec fn history(&self) -> Seq<(DeviceOp, CallReply)> {
        self.log@
    }

    /// Sends a probe; the accepted reply's payload names the target.
    fn probe(&mut self) -> (r: Result<ProbeInfo>)
        ensures
            sent(*old(self), *final(self), Command::Probe, Seq::empty()),
            match final(self).accepted() {
                Some(p) => r matches Ok(info) && info.bridge_name@ == old(self).bridge_name_view()
                    && info.protocol_version == 2 && info.target_name@ == utf8_lossy(p),
                None => r matches Err(e) && final(self).refused(e),
            },
    {
        let empty: [u8; 0] = [];
        let r = match self.command(Command::Probe, &empty) {
            Ok(response) => Ok(
                ProbeInfo {
                    bridge_name: self.bridge_name.clone(),
                    protocol_version: 2,
                    target_name: lossy_text(response.as_slice()),
                },
            ),
            Err(e) => Err(e),
        };
        self.log = Ghost(self.log@.push((DeviceOp::Probe, reply_of(r))));
        r
    }

    /// Sends a reset request.
    fn reset_target(&mut self) -> (r: Result<()>)
        ensures
            sent(*old(self), *final(self), Command::ResetTarget, Seq::empty()),
            unit_result(*final(self), r),
    {
        let empty: [u8; 0] = [];
        let r = self.unit_command(Command::ResetTarget, &empty);
        self.log = Ghost(self.log@.push((DeviceOp::ResetTarget, reply_of(r))));
        r
    }

    /// Sends a device-id read; the accepted reply must be the id's two
    /// little-endian bytes.
    fn read_target_id(&mut self) -> (r: Result<u16>)
        ensures
            sent(*old(self), *final(self), Command::ReadTargetId, Seq::empty()),
            match final(self).accepted() {
                Some(p) => if p.len() == 2 {
                    r == Ok::<u16, Error>((p[0] + 256 * p[1]) as u16)
                } else {
                    r matches Err(e) && is_protocol_error(e, read_id_message(p.len()))
                },
                None => r matches Err(e) && final(self).refused(e),
            },
    {
        let empty: [u8; 0] = [];
        let r = match self.command(Command::ReadTargetId, &empty) {
            Ok(response) => {
                if response.len() != 2 {
                    let mut m = String::new();
                    m.append("read-id response has ");
                    push_decimal(&mut m, response.len() as u64);
                    m.append(" bytes, expected 2");
                    Err(Error::Protocol(m))
                } else {
                    let low = response[0];
                    let high = response[1];
                    assert(((high as u16) << 8u16) | (low as u16) == (low + 256 * high) as u16)
                        by (bit_vector);
                    Ok(((high as u16) << 8u16) | (low as u16))
                }
            },
            Err(e) => Err(e),
        };
        self.log = Ghost(self.log@.push((DeviceOp::ReadTargetId, id_reply(r))));
        r
    }

    /// Sends a begin-flash request with the row count, little-endian.
    fn begin_flash(&mut self, row_count: u32) -> (r: Result<()>)
        ensures
            sent(*old(self), *final(self), Command::BeginFlash, le_bytes(row_count)),
            unit_result(*final(self), r),
    {
        let mut payload: Vec<u8> = Vec::new();
        push_le32(&mut payload, row_count);
        let r = self.unit_command(Command::BeginFlash, payload.as_slice());
        self.log = Ghost(self.log@.push((DeviceOp::BeginFlash { row_count }, reply_of(r))));
        r
    }

    /// Sends an erase request with the row's base word address.
    fn erase_row(&mut self, base_word_address: u32) -> (r: Result<()>)
        ensures
            sent(*old(self), *final(self), Command::EraseRow, le_bytes(base_word_address)),
            unit_result(*final(self), r),
    {
        let mut payload: Vec<u8> = Vec::new();
        push_le32(&mut payload, base_word_address);
        let r = self.unit_command(Command::EraseRow, payload.as_slice());
        self.log = Ghost(
            self.log@.push((DeviceOp::EraseRow { base_word_address }, reply_of(r))),
        );
        r
    }

    /// Sends a chunk write: the base word address, the byte offset, then the
    /// data; a payload over 60 bytes is refused.
    fn write_chunk(&mut self, base_word_address: u32, offset_bytes: u8, data: &[u8]) -> (r: Result<
        (),
    >)
        ensures
            sent(
                *old(self),
                *final(self),
                Command::WriteChunk,
                le_bytes(base_word_address) + seq![offset_bytes] + data@,
            ),
            5 + data@.len() > MAX_PAYLOAD_SIZE ==> (r matches Err(e) && is_protocol_error(
                e,
                command_payload_message(5 + data@.len()),
            )),
            5 + data@.len() <= MAX_PAYLOAD_SIZE ==> unit_result(*final(self), r),
    {
        let mut payload: Vec<u8> = Vec::new();
        push_le32(&mut payload, base_word_address);
        payload.push(offset_bytes);
        let ghost head = payload@;
        let mut i: usize = 0;
        while i < data.len()
            invariant
                i <= data@.len(),
                head == le_bytes(base_word_address) + seq![offset_bytes],
                payload@ == head + data@.take(i as int),
            decreases data@.len() - i,
        {
            payload.push(data[i]);
            i = i + 1;
            assert(payload@ =~= head + data@.take(i as int));
        }
        assert(data@.take(data@.len() as int) =~= data@);
        let r = match self.command(Command::WriteChunk, payload.as_slice()) {
            Ok(_) => Ok(()),
            Err(e) => Err(e),
        };
        self.log = Ghost(
            self.log@.push(
                (DeviceOp::WriteChunk { base_word_address, offset_bytes, data: data@ }, reply_of(r)),
            ),
        );
        r
    }

    /// Sends a commit request with the row's base word address.
    fn commit_row(&mut self, base_word_address: u32) -> (r: Result<()>)
        ensures
            sent(*old(self), *final(self), Command::CommitRow, le_bytes(base_word_address)),
            unit_result(*final(self), r),
    {
        let mut payload: Vec<u8> = Vec::new();
        push_le32(&mut payload, base_word_address);
        let r = self.unit_command(Command::CommitRow, payload.as_slice());
        self.log = Ghost(
            self.log@.push((DeviceOp::CommitRow { base_word_address }, reply_of(r))),
        );
        r
    }

    /// Sends a range verification: the base word address, the word count and
    /// the verify digest of the expected words; a count beyond 16 bits is
    /// refused with nothing sent.
    fn verify_range(&mut self, base_word_address: u32, expected: &[u16]) -> (r: Result<()>)
        ensures
            expected@.len() > 0xffff ==> (r matches Err(e) && is_device_error(
                e,
                "verify range is too large"@,
            ) && final(self).exchanges() == old(self).exchanges() && final(self).last_sequence()
                == old(self).last_sequence()),
            expected@.len() <= 0xffff ==> sent(
                *old(self),
                *final(self),
                Command::VerifyRange,
                le_bytes(base_word_address) + le16_bytes(expected@.len() as u16) + le_bytes(
                    word_digest(base_word_address, expected@),
                ),
            ) && unit_result(*final(self), r),
    {
        let r = if expected.len() > 0xffff {
            Err(Error::Device(String::from_str("verify range is too large")))
        } else {
            let digest = verify_digest(base_word_address, expected);
            let mut payload: Vec<u8> = Vec::new();
            push_le32(&mut payload, base_word_address);
            push_le16(&mut payload, expected.len() as u16);
            push_le32(&mut payload, digest);
            self.unit_command(Command::VerifyRange, payload.as_slice())
        };
        self.log = Ghost(
            self.log@.push(
                (DeviceOp::VerifyRange { base_word_address, expected: expected@ }, reply_of(r)),
            ),
        );
        r
    }

    /// Sends a word read: the base word address and the word count; the
    /// accepted reply holds two little-endian bytes per word, masked to 14
    /// bits. A count beyond 16 bits is refused with nothing sent.
    fn read_words(&mut self, base_word_address: u32, word_count: usize) -> (r: Result<Vec<u16>>)
        ensures
            word_count > 0xffff ==> (r matches Err(e) && is_device_error(
                e,
                "read word count is too large"@,
            ) && final(self).exchanges() == old(self).exchanges() && final(self).last_sequence()
                == old(self).last_sequence()),
            word_count <= 0xffff ==> sent(
                *old(self),
                *final(self),
                Command::ReadWords,
                le_bytes(base_word_address) + le16_bytes(word_count as u16),
            ) && match final(self).accepted() {
                Some(p) => if p.len() == 2 * word_count {
                    r matches Ok(words) && words@ == Seq::new(
                        word_count as nat,
                        |i: int| pair_word(p[2 * i], p[2 * i + 1]),
                    )
                } else {
                    r matches Err(e) && is_protocol_error(
                        e,
                        read_words_message(p.len(), 2 * word_count as nat),
                    )
                },
                None => r matches Err(e) && final(self).refused(e),
            },
    {
        let r = if word_count > 0xffff {
            Err(Error::Device(String::from_str("read word count is too large")))
        } else {
            let mut payload: Vec<u8> = Vec::new();
            push_le32(&mut payload, base_word_address);
            push_le16(&mut payload, word_count as u16);
            match self.command(Command::ReadWords, payload.as_slice()) {
                Ok(response) => decode_words(response.as_slice(), word_count),
                Err(e) => Err(e),
            }
        };
        self.log = Ghost(
            self.log@.push((DeviceOp::ReadWords { base_word_address, word_count }, reply_of(r))),
        );
        r
    }

    /// Sends a run request.
    fn run_target(&mut self) -> (r: Result<()>)
        ensures
            sent(*old(self), *final(self), Command::RunTarget, Seq::empty()),
            unit_result(*final(self), r),
    {
        let empty: [u8; 0] = [];
        let r = self.unit_command(Command::RunTarget, &empty);
        self.log = Ghost(self.log@.push((DeviceOp::RunTarget, reply_of(r))));
        r
    }
}

} // verus!
