use atu10_core::hid::{packet_of_report, report_of, verify_digest, HID_REPORT_SIZE};
use atu10_core::protocol::{encode_response, Response, Status, HID_PACKET_SIZE};
use atu10_core::Error;

#[test]
fn verify_digest_changes_with_address_and_data() {
    let first = verify_digest(0x10, &[0xaa]);
    let second = verify_digest(0x11, &[0xaa]);
    let third = verify_digest(0x10, &[0xab]);

    assert_ne!(first, second);
    assert_ne!(first, third);
}

#[test]
fn verify_digest_values() {
    assert_eq!(verify_digest(0x40, &[]), 0x811c_9dc5);
    let step1 = (0x811c_9dc5u32 ^ 0x40 ^ 0x1234).wrapping_mul(0x0100_0193);
    assert_eq!(verify_digest(0x40, &[0x1234]), step1);
    let step2 = (step1 ^ 0x41 ^ 0x3fff).wrapping_mul(0x0100_0193);
    assert_eq!(verify_digest(0x40, &[0x1234, 0xffff]), step2);
    // Addresses wrap at 2^32.
    let wrapped = (0x811c_9dc5u32 ^ 0xffff_ffff ^ 1).wrapping_mul(0x0100_0193);
    let wrapped = (wrapped ^ 0 ^ 2).wrapping_mul(0x0100_0193);
    assert_eq!(verify_digest(0xffff_ffff, &[1, 2]), wrapped);
}

#[test]
fn reports_carry_report_id_zero() {
    let packet = [7u8; HID_PACKET_SIZE];
    let report = report_of(&packet);
    assert_eq!(report.len(), HID_REPORT_SIZE);
    assert_eq!(report[0], 0);
    assert!(report[1..].iter().all(|b| *b == 7));
}

#[test]
fn reply_reports_of_64_or_65_bytes_are_accepted() {
    let packet = encode_response(&Response {
        sequence: 3,
        status: Status::Success,
        payload: vec![9],
    })
    .unwrap();
    let report = report_of(&packet);
    assert_eq!(packet_of_report(&report, 65).unwrap(), packet.to_vec());
    let mut bare = [0u8; HID_REPORT_SIZE];
    bare[..64].copy_from_slice(&packet);
    assert_eq!(packet_of_report(&bare, 64).unwrap(), packet.to_vec());
    assert_eq!(
        packet_of_report(&bare, 0).unwrap_err(),
        Error::Device("timed out waiting for HID response".to_string())
    );
    assert_eq!(
        packet_of_report(&bare, 12).unwrap_err(),
        Error::Protocol("HID response has 12 bytes, expected 64 or 65".to_string())
    );
}
