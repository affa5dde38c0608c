//! The request/response exchange shared by the HID and CDC control paths:
//! each request gets the next sequence number, and a reply is accepted only
//! if it decodes, answers that request and reports success.
use crate::protocol::{
    command_code, decode_response, decode_response_spec, frame, status_name, Command, Response,
    Status, HID_PACKET_SIZE, MAX_PAYLOAD_SIZE,
};
use crate::text::{decimal, push_decimal};
use crate::{is_device_error, is_protocol_error, Error, Result};
use vstd::prelude::*;

verus! {

/// The sequence number of the last request sent on a control channel.
pub struct CommandSession {
    sequence: u8,
}

/// Message of the error for a command payload over 60 bytes.
pub open spec fn command_payload_message(len: nat) -> Seq<char> {
    "command payload has "@ + decimal(len) + " bytes, max is 60"@
}

/// Message of the error for a reply to another request.
pub open spec fn sequence_mismatch_message(got: u8, sent: u8) -> Seq<char> {
    "response sequence "@ + decimal(got as nat) + " did not match request sequence "@ + decimal(
        sent as nat,
    )
}

/// Message of the error for a reply that reports a failure.
pub open spec fn status_message(s: Status) -> Seq<char> {
    "bridge returned status "@ + status_name(s)
}

/// The sequence number that follows `s` (wrapping after 255).
pub open spec fn next_sequence(s: u8) -> u8 {
    ((s + 1) % 256) as u8
}

/// `e` is the error that accepting `packet` as the reply to request
/// `sequence` gives, or `None` when the reply is accepted.
pub open spec fn reply_error(sequence: u8, packet: Seq<u8>, e: Error) -> bool {
    match decode_response_spec(packet) {
        Err(msg) => is_protocol_error(e, msg),
        Ok((got, status, payload)) => if got != sequence {
            is_protocol_error(e, sequence_mismatch_message(got, sequence))
        } else {
            is_device_error(e, status_message(status))
        },
    }
}

/// Whether `packet` is an accepted reply to request `sequence`, with payload `payload`.
pub open spec fn reply_accepted(sequence: u8, packet: Seq<u8>, payload: Seq<u8>) -> bool {
    decode_response_spec(packet) == Ok::<(u8, Status, Seq<u8>), Seq<char>>(
        (sequence, Status::Success, payload),
    )
}

/// The payload of `packet` if it is an accepted reply to request
/// `sequence`: it decodes, carries that sequence number and reports success.
pub open spec fn accepted_payload(sequence: u8, packet: Seq<u8>) -> Option<Seq<u8>> {
    match decode_response_spec(packet) {
        Ok((got, status, payload)) => if got == sequence && status == Status::Success {
            Some(payload)
        } else {
            None
        },
        Err(_) => None,
    }
}

impl CommandSession {
    /// The sequence number of the last request (zero before the first).
    pub closed spec fn last_sequence(&self) -> u8 {
        self.sequence
    }

    /// A session that has sent no request.
    pub fn new() -> (r: Self)
        ensures
            r.last_sequence() == 0,
    {
        CommandSession { sequence: 0 }
    }

    /// The sequence number of the last request.
    pub fn sequence(&self) -> (r: u8)
        ensures
            r == self.last_sequence(),
    {
        self.sequence
    }

    /// The packet of the next request: a payload over 60 bytes is refused
    /// with no sequence number used; otherwise the sequence number advances
    /// (wrapping) and the packet carries it.
    pub fn next_request(&mut self, command: Command, payload: &[u8]) -> (r: Result<
        [u8; HID_PACKET_SIZE],
    >)
        ensures
            payload@.len() > MAX_PAYLOAD_SIZE ==> (r matches Err(e) && is_protocol_error(
                e,
                command_payload_message(payload@.len()),
            ) && final(self).last_sequence() == old(self).last_sequence()),
            payload@.len() <= MAX_PAYLOAD_SIZE ==> (final(self).last_sequence() == next_sequence(
                old(self).last_sequence(),
            ) && (r matches Ok(p) && p@ == frame(
                final(self).last_sequence(),
                command_code(command),
                payload@,
            ))),
    {
        if payload.len() > MAX_PAYLOAD_SIZE {
            let mut m = String::new();
            m.append("command payload has ");
            push_decimal(&mut m, payload.len() as u64);
            m.append(" bytes, max is 60");
            return Err(Error::Protocol(m));
        }
        self.sequence = self.sequence.wrapping_add(1);
        let mut copy: Vec<u8> = Vec::new();
        let mut i: usize = 0;
        while i < payload.len()
            invariant
                i <= payload@.len(),
                copy@ == payload@.take(i as int),
            decreases payload@.len() - i,
        {
            copy.push(payload[i]);
            i = i + 1;
            assert(copy@ =~= payload@.take(i as int));
        }
        assert(payload@.take(payload@.len() as int) =~= payload@);
        let request = crate::protocol::Request { sequence: self.sequence, command, payload: copy };
        crate::protocol::encode_request(&request)
    }

    /// Accepts `packet` as the reply to the last request: it must decode,
    /// carry the same sequence number and report success; its payload is
    /// returned.
    pub fn accept_response(&self, packet: &[u8]) -> (r: Result<Vec<u8>>)
        ensures
            r matches Ok(payload) ==> reply_accepted(self.last_sequence(), packet@, payload@),
            r matches Err(e) ==> reply_error(self.last_sequence(), packet@, e),
            (exists|payload: Seq<u8>| reply_accepted(self.last_sequence(), packet@, payload))
                ==> r is Ok,
            r is Ok <==> accepted_payload(self.last_sequence(), packet@) is Some,
            r matches Ok(payload) ==> accepted_payload(self.last_sequence(), packet@) == Some(
                payload@,
            ),
    {
        let response: Response = match decode_response(packet) {
            Ok(response) => response,
            Err(e) => {
                return Err(e);
            },
        };
        if response.sequence != self.sequence {
            let mut m = String::new();
            m.append("response sequence ");
            push_decimal(&mut m, response.sequence as u64);
            m.append(" did not match request sequence ");
            push_decimal(&mut m, self.sequence as u64);
            return Err(Error::Protocol(m));
        }
        if response.status != Status::Success {
            let mut m = String::new();
            m.append("bridge returned status ");
            m.append(response.status.name());
            return Err(Error::Device(m));
        }
        Ok(response.payload)
    }
}

} // verus!

verus! {

/// The successful reply that carries the last request's sequence number and
/// a payload of at most 60 bytes is accepted, with that payload.
pub proof fn lemma_matching_reply_accepted(sequence: u8, payload: Seq<u8>)
    requires
        payload.len() <= MAX_PAYLOAD_SIZE,
    ensures
        reply_accepted(
            sequence,
            frame(sequence, crate::protocol::status_code(Status::Success), payload),
            payload,
        ),
{
    crate::protocol::lemma_response_round_trip(sequence, Status::Success, payload);
}

} // verus!
