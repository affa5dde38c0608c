use atu10_core::protocol::{
    decode_request, decode_response, encode_request, encode_response, Command, Request, Response,
    Status, HID_PACKET_SIZE, MAGIC, MAX_PAYLOAD_SIZE,
};
use atu10_core::Error;

#[test]
fn request_round_trips_through_hid_packet() {
    let request = Request {
        sequence: 42,
        command: Command::WriteChunk,
        payload: vec![1, 2, 3],
    };

    let packet = encode_request(&request).unwrap();
    assert_eq!(decode_request(&packet).unwrap(), request);
}

#[test]
fn response_round_trips_through_hid_packet() {
    let response = Response {
        sequence: 7,
        status: Status::Success,
        payload: b"ATU10".to_vec(),
    };

    let packet = encode_response(&response).unwrap();
    assert_eq!(decode_response(&packet).unwrap(), response);
}

#[test]
fn rejects_malformed_response() {
    let mut packet = [0u8; HID_PACKET_SIZE];
    packet[0] = 0x55;
    assert!(decode_response(&packet).is_err());

    packet[0] = MAGIC;
    packet[2] = 0xff;
    assert!(decode_response(&packet).is_err());
}

#[test]
fn rejects_oversized_payload() {
    let request = Request {
        sequence: 1,
        command: Command::Probe,
        payload: vec![0; MAX_PAYLOAD_SIZE + 1],
    };

    assert!(encode_request(&request).is_err());
}

#[test]
fn request_packet_layout_is_magic_sequence_command_length_payload() {
    let request = Request {
        sequence: 9,
        command: Command::BeginFlash,
        payload: vec![0xde, 0xad],
    };
    let packet = encode_request(&request).unwrap();
    assert_eq!(&packet[..6], &[0xa7, 9, 0x10, 2, 0xde, 0xad]);
    assert!(packet[6..].iter().all(|b| *b == 0));
}

#[test]
fn every_command_and_status_code_round_trips() {
    for command in [
        Command::Probe,
        Command::ResetTarget,
        Command::ReadTargetId,
        Command::BeginFlash,
        Command::EraseRow,
        Command::WriteChunk,
        Command::CommitRow,
        Command::VerifyRange,
        Command::RunTarget,
        Command::ReadWords,
    ] {
        assert_eq!(Command::from_u8(command.to_u8()).unwrap(), command);
    }
    for status in [
        Status::Success,
        Status::Busy,
        Status::BadRequest,
        Status::VerifyFailed,
        Status::HardwareFault,
    ] {
        assert_eq!(Status::from_u8(status.to_u8()).unwrap(), status);
    }
    assert_eq!(Command::ReadTargetId.to_u8(), 0x03);
    assert_eq!(Command::CommitRow.to_u8(), 0x13);
    assert_eq!(Command::RunTarget.to_u8(), 0x15);
    assert_eq!(Command::ReadWords.to_u8(), 0x16);
    assert_eq!(Status::HardwareFault.to_u8(), 0x82);
}

#[test]
fn unknown_codes_are_protocol_errors() {
    assert_eq!(
        Command::from_u8(0x17).unwrap_err(),
        Error::Protocol("unknown command 0x17".to_string())
    );
    assert_eq!(
        Command::from_u8(0x00).unwrap_err(),
        Error::Protocol("unknown command 0x00".to_string())
    );
    assert_eq!(
        Status::from_u8(0xff).unwrap_err(),
        Error::Protocol("unknown status 0xff".to_string())
    );
}

#[test]
fn decode_errors_come_in_order() {
    assert_eq!(
        decode_request(&[0xa7; 10]).unwrap_err(),
        Error::Protocol("request packet has 10 bytes, expected 64".to_string())
    );
    assert_eq!(
        decode_response(&[0u8; 65]).unwrap_err(),
        Error::Protocol("response packet has 65 bytes, expected 64".to_string())
    );
    let mut packet = [0u8; HID_PACKET_SIZE];
    assert_eq!(
        decode_request(&packet).unwrap_err(),
        Error::Protocol("bad request magic".to_string())
    );
    packet[0] = MAGIC;
    packet[2] = 0x7f;
    packet[3] = 61;
    assert_eq!(
        decode_request(&packet).unwrap_err(),
        Error::Protocol("request payload too large".to_string())
    );
    assert_eq!(
        decode_response(&packet).unwrap_err(),
        Error::Protocol("response payload too large".to_string())
    );
    packet[3] = 60;
    assert_eq!(
        decode_request(&packet).unwrap_err(),
        Error::Protocol("unknown command 0x7f".to_string())
    );
}

#[test]
fn oversized_payload_message_names_the_size() {
    let response = Response {
        sequence: 0,
        status: Status::Busy,
        payload: vec![1; 61],
    };
    assert_eq!(
        encode_response(&response).unwrap_err(),
        Error::Protocol("payload has 61 bytes, max is 60".to_string())
    );
}

#[test]
fn full_payload_round_trips() {
    let request = Request {
        sequence: 255,
        command: Command::VerifyRange,
        payload: (0..60).collect(),
    };
    let packet = encode_request(&request).unwrap();
    assert_eq!(decode_request(&packet).unwrap(), request);
}

#[test]
fn error_text_carries_the_kind() {
    assert_eq!(
        Error::Protocol("x".to_string()).to_string(),
        "protocol error: x"
    );
    assert_eq!(Error::Hex("y".to_string()).to_string(), "hex error: y");
    assert_eq!(Error::Io("z".to_string()).to_string(), "io error: z");
}
