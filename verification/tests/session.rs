use atu10_core::cdc::{decode_words, format_hex, read_timeout_error, response_payload_len};
use atu10_core::protocol::{encode_response, Command, Response, Status};
use atu10_core::session::CommandSession;
use atu10_core::Error;

#[test]
fn requests_take_successive_sequence_numbers() {
    let mut session = CommandSession::new();
    assert_eq!(session.sequence(), 0);
    let first = session.next_request(Command::Probe, &[]).unwrap();
    assert_eq!(first[1], 1);
    assert_eq!(first[2], 0x01);
    let second = session.next_request(Command::BeginFlash, &[2, 0, 0, 0]).unwrap();
    assert_eq!(&second[..8], &[0xa7, 2, 0x10, 4, 2, 0, 0, 0]);
    assert_eq!(session.sequence(), 2);
    assert_eq!(
        session.next_request(Command::Probe, &[0; 61]).unwrap_err(),
        Error::Protocol("command payload has 61 bytes, max is 60".to_string())
    );
    assert_eq!(session.sequence(), 2);
}

#[test]
fn sequence_numbers_wrap() {
    let mut session = CommandSession::new();
    for _ in 0..256 {
        session.next_request(Command::Probe, &[]).unwrap();
    }
    assert_eq!(session.sequence(), 0);
}

#[test]
fn replies_must_match_the_request_and_succeed() {
    let mut session = CommandSession::new();
    session.next_request(Command::Probe, &[]).unwrap();
    let ok = encode_response(&Response { sequence: 1, status: Status::Success, payload: b"ATU".to_vec() }).unwrap();
    assert_eq!(session.accept_response(&ok).unwrap(), b"ATU".to_vec());
    let stale = encode_response(&Response { sequence: 9, status: Status::Success, payload: vec![] }).unwrap();
    assert_eq!(
        session.accept_response(&stale).unwrap_err(),
        Error::Protocol("response sequence 9 did not match request sequence 1".to_string())
    );
    let busy = encode_response(&Response { sequence: 1, status: Status::Busy, payload: vec![] }).unwrap();
    assert_eq!(
        session.accept_response(&busy).unwrap_err(),
        Error::Device("bridge returned status Busy".to_string())
    );
    assert!(session.accept_response(&[0u8; 64]).is_err());
}

#[test]
fn hex_formatting_of_received_bytes() {
    assert_eq!(format_hex(&[]), "");
    assert_eq!(format_hex(&[0x0a]), "0a");
    assert_eq!(format_hex(&[0xa7, 0x01, 0xff]), "a7 01 ff");
    assert_eq!(
        read_timeout_error(&[0xa7, 0x02]),
        Error::Serial("CDC control read timed out after 2 byte(s): a7 02".to_string())
    );
}

#[test]
fn read_back_words_are_little_endian_and_masked() {
    assert_eq!(decode_words(&[0x34, 0x12, 0xff, 0xff], 2).unwrap(), vec![0x1234, 0x3fff]);
    assert_eq!(
        decode_words(&[0x34, 0x12, 0xff], 2).unwrap_err(),
        Error::Protocol("read-words response has 3 bytes, expected 4".to_string())
    );
}

#[test]
fn header_announces_payload_length() {
    assert_eq!(response_payload_len(&[0xa7, 1, 0, 60]).unwrap(), 60);
    assert_eq!(
        response_payload_len(&[0xa7, 1, 0, 61]).unwrap_err(),
        Error::Protocol("response payload too large".to_string())
    );
}
