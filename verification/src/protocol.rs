//! The 64-byte control packet shared by the host and the programmer bridge.
//!
//! Byte 0 is the magic `0xa7`, byte 1 the sequence number, byte 2 the command
//! (requests) or status (responses), byte 3 the payload length (at most 60),
//! bytes 4.. the payload, and the rest zero.
use crate::text::{decimal, hex_padded, push_decimal, push_hex};
use crate::{is_protocol_error, Error, Result};
use vstd::prelude::*;

verus! {

pub const HID_PACKET_SIZE: usize = 64;

pub const MAX_PAYLOAD_SIZE: usize = 60;

pub const MAGIC: u8 = 0xa7;

/// Request commands and their codes.
#[derive(Debug, Clone, Copy, PartialEq, Eq, Structural)]
pub enum Command {
    Probe,
    ResetTarget,
    ReadTargetId,
    BeginFlash,
    EraseRow,
    WriteChunk,
    CommitRow,
    VerifyRange,
    RunTarget,
    ReadWords,
}

/// The code of a command on the wire.
pub open spec fn command_code(c: Command) -> u8 {
    match c {
        Command::Probe => 0x01,
        Command::ResetTarget => 0x02,
        Command::ReadTargetId => 0x03,
        Command::BeginFlash => 0x10,
        Command::EraseRow => 0x11,
        Command::WriteChunk => 0x12,
        Command::CommitRow => 0x13,
        Command::VerifyRange => 0x14,
        Command::RunTarget => 0x15,
        Command::ReadWords => 0x16,
    }
}

/// The command with wire code `v`, if any.
pub open spec fn command_of(v: u8) -> Option<Command> {
    if v == 0x01 {
        Some(Command::Probe)
    } else if v == 0x02 {
        Some(Command::ResetTarget)
    } else if v == 0x03 {
        Some(Command::ReadTargetId)
    } else if v == 0x10 {
        Some(Command::BeginFlash)
    } else if v == 0x11 {
        Some(Command::EraseRow)
    } else if v == 0x12 {
        Some(Command::WriteChunk)
    } else if v == 0x13 {
        Some(Command::CommitRow)
    } else if v == 0x14 {
        Some(Command::VerifyRange)
    } else if v == 0x15 {
        Some(Command::RunTarget)
    } else if v == 0x16 {
        Some(Command::ReadWords)
    } else {
        None
    }
}

/// Message of the error for an unknown command code.
pub open spec fn unknown_command_message(v: u8) -> Seq<char> {
    "unknown command 0x"@ + hex_padded(v as nat, 2)
}

impl Command {
    /// The wire code of this command.
    pub fn to_u8(self) -> (v: u8)
        ensures
            v == command_code(self),
    {
        match self {
            Command::Probe => 0x01,
            Command::ResetTarget => 0x02,
            Command::ReadTargetId => 0x03,
            Command::BeginFlash => 0x10,
            Command::EraseRow => 0x11,
            Command::WriteChunk => 0x12,
            Command::CommitRow => 0x13,
            Command::VerifyRange => 0x14,
            Command::RunTarget => 0x15,
            Command::ReadWords => 0x16,
        }
    }

    /// The command with wire code `value`; an unknown code is a protocol error.
    pub fn from_u8(value: u8) -> (r: Result<Self>)
        ensures
            match command_of(value) {
                Some(c) => r == Ok::<Command, Error>(c),
                None => r matches Err(e) && is_protocol_error(e, unknown_command_message(value)),
            },
    {
        match value {
            0x01 => Ok(Command::Probe),
            0x02 => Ok(Command::ResetTarget),
            0x03 => Ok(Command::ReadTargetId),
            0x10 => Ok(Command::BeginFlash),
            0x11 => Ok(Command::EraseRow),
            0x12 => Ok(Command::WriteChunk),
            0x13 => Ok(Command::CommitRow),
            0x14 => Ok(Command::VerifyRange),
            0x15 => Ok(Command::RunTarget),
            0x16 => Ok(Command::ReadWords),
            _ => {
                let mut m = String::new();
                m.append("unknown command 0x");
                push_hex(&mut m, value as u64, 2);
                Err(Error::Protocol(m))
            },
        }
    }
}

/// Response statuses and their codes.
#[derive(Debug, Clone, Copy, PartialEq, Eq, Structural)]
pub enum Status {
    Success,
    Busy,
    BadRequest,
    VerifyFailed,
    HardwareFault,
}

/// The code of a status on the wire.
pub open spec fn status_code(s: Status) -> u8 {
    match s {
        Status::Success => 0x00,
        Status::Busy => 0x01,
        Status::BadRequest => 0x80,
        Status::VerifyFailed => 0x81,
        Status::HardwareFault => 0x82,
    }
}

/// The status with wire code `v`, if any.
pub open spec fn status_of(v: u8) -> Option<Status> {
    if v == 0x00 {
        Some(Status::Success)
    } else if v == 0x01 {
        Some(Status::Busy)
    } else if v == 0x80 {
        Some(Status::BadRequest)
    } else if v == 0x81 {
        Some(Status::VerifyFailed)
    } else if v == 0x82 {
        Some(Status::HardwareFault)
    } else {
        None
    }
}

/// Message of the error for an unknown status code.
pub open spec fn unknown_status_message(v: u8) -> Seq<char> {
    "unknown status 0x"@ + hex_padded(v as nat, 2)
}

/// The name of a status, as it appears in messages.
pub open spec fn status_name(s: Status) -> Seq<char> {
    match s {
        Status::Success => "Success"@,
        Status::Busy => "Busy"@,
        Status::BadRequest => "BadRequest"@,
        Status::VerifyFailed => "VerifyFailed"@,
        Status::HardwareFault => "HardwareFault"@,
    }
}

impl Status {
    /// The wire code of this status.
    pub fn to_u8(self) -> (v: u8)
        ensures
            v == status_code(self),
    {
        match self {
            Status::Success => 0x00,
            Status::Busy => 0x01,
            Status::BadRequest => 0x80,
            Status::VerifyFailed => 0x81,
            Status::HardwareFault => 0x82,
        }
    }

    /// The name of this status, as it appears in messages.
    pub fn name(self) -> (s: &'static str)
        ensures
            s@ == status_name(self),
    {
        match self {
            Status::Success => "Success",
            Status::Busy => "Busy",
            Status::BadRequest => "BadRequest",
            Status::VerifyFailed => "VerifyFailed",
            Status::HardwareFault => "HardwareFault",
        }
    }

    /// The status with wire code `value`; an unknown code is a protocol error.
    pub fn from_u8(value: u8) -> (r: Result<Self>)
        ensures
            match status_of(value) {
                Some(s) => r == Ok::<Status, Error>(s),
                None => r matches Err(e) && is_protocol_error(e, unknown_status_message(value)),
            },
    {
        match value {
            0x00 => Ok(Status::Success),
            0x01 => Ok(Status::Busy),
            0x80 => Ok(Status::BadRequest),
            0x81 => Ok(Status::VerifyFailed),
            0x82 => Ok(Status::HardwareFault),
            _ => {
                let mut m = String::new();
                m.append("unknown status 0x");
                push_hex(&mut m, value as u64, 2);
                Err(Error::Protocol(m))
            },
        }
    }
}

/// A request from the host to the bridge.
#[derive(Debug, Clone, PartialEq, Eq)]
pub struct Request {
    pub sequence: u8,
    pub command: Command,
    pub payload: Vec<u8>,
}

/// A response from the bridge to the host.
#[derive(Debug, Clone, PartialEq, Eq)]
pub struct Response {
    pub sequence: u8,
    pub status: Status,
    pub payload: Vec<u8>,
}

/// The packet that carries header bytes `sequence` and `code` and `payload`
/// (of at most 60 bytes), zero-padded to 64 bytes.
pub open spec fn frame(sequence: u8, code: u8, payload: Seq<u8>) -> Seq<u8> {
    seq![MAGIC, sequence, code, payload.len() as u8] + payload + Seq::new(
        (MAX_PAYLOAD_SIZE - payload.len()) as nat,
        |i: int| 0u8,
    )
}

/// Message of the error for a payload longer than a packet can carry.
pub open spec fn oversized_payload_message(len: nat) -> Seq<char> {
    "payload has "@ + decimal(len) + " bytes, max is 60"@
}

/// What decoding a packet of either direction gives: the sequence number,
/// the code byte and the payload, or the error message.
pub open spec fn decode_frame(
    packet: Seq<u8>,
    length_message: Seq<char>,
    magic_message: Seq<char>,
    payload_message: Seq<char>,
) -> std::result::Result<(u8, u8, Seq<u8>), Seq<char>> {
    if packet.len() != HID_PACKET_SIZE {
        Err(length_message)
    } else if packet[0] != MAGIC {
        Err(magic_message)
    } else if packet[3] > MAX_PAYLOAD_SIZE {
        Err(payload_message)
    } else {
        Ok((packet[1], packet[2], packet.subrange(4, 4 + packet[3] as int)))
    }
}

/// What `decode_request` gives for `packet`.
pub open spec fn decode_request_spec(packet: Seq<u8>) -> std::result::Result<
    (u8, Command, Seq<u8>),
    Seq<char>,
> {
    match decode_frame(
        packet,
        "request packet has "@ + decimal(packet.len()) + " bytes, expected 64"@,
        "bad request magic"@,
        "request payload too large"@,
    ) {
        Err(m) => Err(m),
        Ok((sequence, code, payload)) => match command_of(code) {
            Some(c) => Ok((sequence, c, payload)),
            None => Err(unknown_command_message(code)),
        },
    }
}

/// What `decode_response` gives for `packet`.
pub open spec fn decode_response_spec(packet: Seq<u8>) -> std::result::Result<
    (u8, Status, Seq<u8>),
    Seq<char>,
> {
    match decode_frame(
        packet,
        "response packet has "@ + decimal(packet.len()) + " bytes, expected 64"@,
        "bad response magic"@,
        "response payload too large"@,
    ) {
        Err(m) => Err(m),
        Ok((sequence, code, payload)) => match status_of(code) {
            Some(s) => Ok((sequence, s, payload)),
            None => Err(unknown_status_message(code)),
        },
    }
}

fn oversized_payload_error(len: usize) -> (e: Error)
    ensures
        is_protocol_error(e, oversized_payload_message(len as nat)),
{
    let mut m = String::new();
    m.append("payload has ");
    push_decimal(&mut m, len as u64);
    m.append(" bytes, max is 60");
    Error::Protocol(m)
}

fn build_packet(sequence: u8, code: u8, payload: &Vec<u8>) -> (packet: [u8; HID_PACKET_SIZE])
    requires
        payload.len() <= MAX_PAYLOAD_SIZE,
    ensures
        packet@ == frame(sequence, code, payload@),
{
    let mut packet = [0u8;HID_PACKET_SIZE];
    packet[0] = MAGIC;
    packet[1] = sequence;
    packet[2] = code;
    packet[3] = payload.len() as u8;
    let mut i: usize = 0;
    while i < payload.len()
        invariant
            i <= payload.len() <= MAX_PAYLOAD_SIZE,
            packet@.len() == HID_PACKET_SIZE,
            packet@[0] == MAGIC,
            packet@[1] == sequence,
            packet@[2] == code,
            packet@[3] == payload.len() as u8,
            forall|j: int| 0 <= j < i ==> packet@[4 + j] == payload@[j],
            forall|j: int| 4 + i <= j < HID_PACKET_SIZE ==> packet@[j] == 0,
        decreases payload.len() - i,
    {
        packet[4 + i] = payload[i];
        i = i + 1;
    }
    assert(packet@ =~= frame(sequence, code, payload@));
    packet
}

/// Encodes a request into a packet; a payload over 60 bytes is refused.
pub fn encode_request(request: &Request) -> (r: Result<[u8; HID_PACKET_SIZE]>)
    ensures
        request.payload.len() > MAX_PAYLOAD_SIZE ==> (r matches Err(e) && is_protocol_error(
            e,
            oversized_payload_message(request.payload.len() as nat),
        )),
        request.payload.len() <= MAX_PAYLOAD_SIZE ==> (r matches Ok(p) && p@ == frame(
            request.sequence,
            command_code(request.command),
            request.payload@,
        )),
{
    if request.payload.len() > MAX_PAYLOAD_SIZE {
        return Err(oversized_payload_error(request.payload.len()));
    }
    Ok(build_packet(request.sequence, request.command.to_u8(), &request.payload))
}

/// Encodes a response into a packet; a payload over 60 bytes is refused.
pub fn encode_response(response: &Response) -> (r: Result<[u8; HID_PACKET_SIZE]>)
    ensures
        response.payload.len() > MAX_PAYLOAD_SIZE ==> (r matches Err(e) && is_protocol_error(
            e,
            oversized_payload_message(response.payload.len() as nat),
        )),
        response.payload.len() <= MAX_PAYLOAD_SIZE ==> (r matches Ok(p) && p@ == frame(
            response.sequence,
            status_code(response.status),
            response.payload@,
        )),
{
    if response.payload.len() > MAX_PAYLOAD_SIZE {
        return Err(oversized_payload_error(response.payload.len()));
    }
    Ok(build_packet(response.sequence, response.status.to_u8(), &response.payload))
}

fn copy_payload(packet: &[u8], len: usize) -> (payload: Vec<u8>)
    requires
        4 + len <= packet@.len(),
    ensures
        payload@ == packet@.subrange(4, 4 + len as int),
{
    let mut payload: Vec<u8> = Vec::new();
    let mut i: usize = 0;
    while i < len
        invariant
            i <= len,
            4 + len <= packet.len(),
            payload@ == packet@.subrange(4, 4 + i as int),
        decreases len - i,
    {
        payload.push(packet[4 + i]);
        i = i + 1;
        assert(payload@ =~= packet@.subrange(4, 4 + i as int));
    }
    payload
}

fn packet_length_error(direction: &str, len: usize) -> (e: Error)
    ensures
        is_protocol_error(e, direction@ + " packet has "@ + decimal(len as nat) + " bytes, expected 64"@),
{
    let mut m = String::new();
    m.append(direction);
    m.append(" packet has ");
    push_decimal(&mut m, len as u64);
    m.append(" bytes, expected 64");
    Error::Protocol(m)
}

/// Decodes a request packet, checking its length, magic, payload length and
/// command code in that order.
pub fn decode_request(packet: &[u8]) -> (r: Result<Request>)
    ensures
        match decode_request_spec(packet@) {
            Ok((sequence, command, payload)) => r matches Ok(req) && req.sequence == sequence
                && req.command == command && req.payload@ == payload,
            Err(msg) => r matches Err(e) && is_protocol_error(e, msg),
        },
{
    if packet.len() != HID_PACKET_SIZE {
        let e = packet_length_error("request", packet.len());
        assert("request"@ + " packet has "@ + decimal(packet@.len()) + " bytes, expected 64"@
            =~= "request packet has "@ + decimal(packet@.len()) + " bytes, expected 64"@) by {
            reveal_strlit("request");
            reveal_strlit(" packet has ");
            reveal_strlit("request packet has ");
        }
        return Err(e);
    }
    if packet[0] != MAGIC {
        return Err(Error::Protocol(String::from_str("bad request magic")));
    }
    let payload_len = packet[3] as usize;
    if payload_len > MAX_PAYLOAD_SIZE {
        return Err(Error::Protocol(String::from_str("request payload too large")));
    }
    let sequence = packet[1];
    let command = Command::from_u8(packet[2])?;
    Ok(Request { sequence, command, payload: copy_payload(packet, payload_len) })
}

/// Decodes a response packet, checking its length, magic, payload length and
/// status code in that order.
pub fn decode_response(packet: &[u8]) -> (r: Result<Response>)
    ensures
        match decode_response_spec(packet@) {
            Ok((sequence, status, payload)) => r matches Ok(resp) && resp.sequence == sequence
                && resp.status == status && resp.payload@ == payload,
            Err(msg) => r matches Err(e) && is_protocol_error(e, msg),
        },
{
    if packet.len() != HID_PACKET_SIZE {
        let e = packet_length_error("response", packet.len());
        assert("response"@ + " packet has "@ + decimal(packet@.len()) + " bytes, expected 64"@
            =~= "response packet has "@ + decimal(packet@.len()) + " bytes, expected 64"@) by {
            reveal_strlit("response");
            reveal_strlit(" packet has ");
            reveal_strlit("response packet has ");
        }
        return Err(e);
    }
    if packet[0] != MAGIC {
        return Err(Error::Protocol(String::from_str("bad response magic")));
    }
    let payload_len = packet[3] as usize;
    if payload_len > MAX_PAYLOAD_SIZE {
        return Err(Error::Protocol(String::from_str("response payload too large")));
    }
    let sequence = packet[1];
    let status = Status::from_u8(packet[2])?;
    Ok(Response { sequence, status, payload: copy_payload(packet, payload_len) })
}

/// Every command's code decodes back to the command.
pub proof fn lemma_command_code_round_trip(c: Command)
    ensures
        command_of(command_code(c)) == Some(c),
{
}

/// Every status's code decodes back to the status.
pub proof fn lemma_status_code_round_trip(s: Status)
    ensures
        status_of(status_code(s)) == Some(s),
{
}

/// Decoding the packet that encodes a request with a payload of at most 60
/// bytes gives back that request's sequence number, command and payload.
pub proof fn lemma_request_round_trip(sequence: u8, command: Command, payload: Seq<u8>)
    requires
        payload.len() <= MAX_PAYLOAD_SIZE,
    ensures
        decode_request_spec(frame(sequence, command_code(command), payload)) == Ok::<
            (u8, Command, Seq<u8>),
            Seq<char>,
        >((sequence, command, payload)),
{
    let p = frame(sequence, command_code(command), payload);
    assert(p.subrange(4, 4 + p[3] as int) =~= payload);
}

/// Decoding the packet that encodes a response with a payload of at most 60
/// bytes gives back that response's sequence number, status and payload.
pub proof fn lemma_response_round_trip(sequence: u8, status: Status, payload: Seq<u8>)
    requires
        payload.len() <= MAX_PAYLOAD_SIZE,
    ensures
        decode_response_spec(frame(sequence, status_code(status), payload)) == Ok::<
            (u8, Status, Seq<u8>),
            Seq<char>,
        >((sequence, status, payload)),
{
    let p = frame(sequence, status_code(status), payload);
    assert(p.subrange(4, 4 + p[3] as int) =~= payload);
}

/// A packet that decodes as a request, and whose bytes after the payload are
/// zero, is exactly the encoding of the decoded request.
pub proof fn lemma_request_decode_encode(packet: Seq<u8>)
    requires
        decode_request_spec(packet) is Ok,
        forall|j: int| 4 + packet[3] <= j < packet.len() ==> packet[j] == 0,
    ensures
        ({
            let (sequence, command, payload) = decode_request_spec(packet)->Ok_0;
            frame(sequence, command_code(command), payload) == packet
        }),
{
    let (sequence, command, payload) = decode_request_spec(packet)->Ok_0;
    assert(frame(sequence, command_code(command), payload) =~= packet);
}

/// The documented status bytes: a reply byte of 0x00 means success, 0x01
/// busy, 0x80 a bad request, 0x81 a failed verification and 0x82 a hardware
/// fault; no other byte is a status. Each status is written as its byte.
pub proof fn lemma_status_wire_codes(v: u8)
    ensures
        (status_of(v) == Some(Status::Success)) <==> v == 0x00,
        (status_of(v) == Some(Status::Busy)) <==> v == 0x01,
        (status_of(v) == Some(Status::BadRequest)) <==> v == 0x80,
        (status_of(v) == Some(Status::VerifyFailed)) <==> v == 0x81,
        (status_of(v) == Some(Status::HardwareFault)) <==> v == 0x82,
        status_of(v) is None <==> !(v == 0x00 || v == 0x01 || 0x80 <= v <= 0x82),
        status_code(Status::Success) == 0x00,
        status_code(Status::Busy) == 0x01,
        status_code(Status::BadRequest) == 0x80,
        status_code(Status::VerifyFailed) == 0x81,
        status_code(Status::HardwareFault) == 0x82,
{
}

/// A decoded reply reports success exactly when its status byte is 0x00,
/// and carries the sequence number of byte 1 and the payload that byte 3
/// announces.
pub proof fn lemma_reply_status_byte(packet: Seq<u8>)
    requires
        decode_response_spec(packet) is Ok,
    ensures
        packet.len() == 64,
        packet[0] == 0xa7,
        (decode_response_spec(packet)->Ok_0.1 == Status::Success) <==> packet[2] == 0x00,
        decode_response_spec(packet)->Ok_0.0 == packet[1],
        decode_response_spec(packet)->Ok_0.2 == packet.subrange(4, 4 + packet[3] as int),
{
    lemma_status_wire_codes(packet[2]);
}

/// The documented command bytes: 0x01 probe, 0x02 reset, 0x03 read target
/// id, 0x10 begin flash, 0x11 erase row, 0x12 write chunk, 0x13 commit
/// row, 0x14 verify range, 0x15 run target, 0x16 read words; no other byte
/// is a command.
pub proof fn lemma_command_wire_codes(v: u8)
    ensures
        (command_of(v) == Some(Command::Probe)) <==> v == 0x01,
        (command_of(v) == Some(Command::ResetTarget)) <==> v == 0x02,
        (command_of(v) == Some(Command::ReadTargetId)) <==> v == 0x03,
        (command_of(v) == Some(Command::BeginFlash)) <==> v == 0x10,
        (command_of(v) == Some(Command::EraseRow)) <==> v == 0x11,
        (command_of(v) == Some(Command::WriteChunk)) <==> v == 0x12,
        (command_of(v) == Some(Command::CommitRow)) <==> v == 0x13,
        (command_of(v) == Some(Command::VerifyRange)) <==> v == 0x14,
        (command_of(v) == Some(Command::RunTarget)) <==> v == 0x15,
        (command_of(v) == Some(Command::ReadWords)) <==> v == 0x16,
        command_of(v) is None <==> !(0x01 <= v <= 0x03 || 0x10 <= v <= 0x16),
        command_code(Command::Probe) == 0x01,
        command_code(Command::ResetTarget) == 0x02,
        command_code(Command::ReadTargetId) == 0x03,
        command_code(Command::BeginFlash) == 0x10,
        command_code(Command::EraseRow) == 0x11,
        command_code(Command::WriteChunk) == 0x12,
        command_code(Command::CommitRow) == 0x13,
        command_code(Command::VerifyRange) == 0x14,
        command_code(Command::RunTarget) == 0x15,
        command_code(Command::ReadWords) == 0x16,
{
}

/// The packet layout: 64 bytes, magic 0xa7, the sequence number, the
/// command or status byte, the payload length (at most 60), the payload,
/// then zeros.
pub proof fn lemma_frame_layout(sequence: u8, code: u8, payload: Seq<u8>)
    requires
        payload.len() <= 60,
    ensures
        HID_PACKET_SIZE == 64,
        MAX_PAYLOAD_SIZE == 60,
        MAGIC == 0xa7,
        frame(sequence, code, payload).len() == 64,
        frame(sequence, code, payload)[0] == 0xa7,
        frame(sequence, code, payload)[1] == sequence,
        frame(sequence, code, payload)[2] == code,
        frame(sequence, code, payload)[3] == payload.len(),
        forall|i: int| 0 <= i < payload.len() ==> #[trigger] frame(sequence, code, payload)[4 + i] == payload[i],
        forall|i: int| 4 + payload.len() <= i < 64 ==> #[trigger] frame(sequence, code, payload)[i] == 0,
{
    let f = frame(sequence, code, payload);
    assert forall|i: int| 0 <= i < payload.len() implies #[trigger] f[4 + i] == payload[i] by {}
    assert forall|i: int| 4 + payload.len() <= i < 64 implies #[trigger] f[i] == 0 by {}
}

} // verus!
