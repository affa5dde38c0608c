use atu10_core::bridge::{BridgeProgrammer, ControlLink};
use atu10_core::device::{flash_image, verify_image, ProgrammerDevice};
use atu10_core::hex::HexImage;
use atu10_core::hid::verify_digest;
use atu10_core::protocol::{
    decode_request, encode_response, Command, Response, Status, HID_PACKET_SIZE,
};
use atu10_core::{Error, Result};

/// A bridge that answers each request with success, reporting the
/// PIC16F18877's id and erased words, and keeps the requests it received.
struct ScriptedLink {
    requests: Vec<[u8; HID_PACKET_SIZE]>,
    status: Status,
    id_payload: Vec<u8>,
}

impl ScriptedLink {
    fn new() -> Self {
        ScriptedLink {
            requests: Vec::new(),
            status: Status::Success,
            id_payload: vec![0x75, 0x30],
        }
    }
}

impl ControlLink for ScriptedLink {
    fn exchange(&mut self, request: &[u8; HID_PACKET_SIZE]) -> Result<Vec<u8>> {
        self.requests.push(*request);
        let decoded = decode_request(request)?;
        let payload = match decoded.command {
            Command::Probe => b"PIC16F18877".to_vec(),
            Command::ReadTargetId => self.id_payload.clone(),
            Command::ReadWords => {
                let count = u16::from_le_bytes([decoded.payload[4], decoded.payload[5]]);
                let mut bytes = Vec::new();
                for _ in 0..count {
                    bytes.extend_from_slice(&[0xff, 0xff]);
                }
                bytes
            }
            _ => Vec::new(),
        };
        Ok(encode_response(&Response {
            sequence: decoded.sequence,
            status: self.status,
            payload,
        })?
        .to_vec())
    }
}

fn commands(link: &ScriptedLink) -> Vec<u8> {
    link.requests.iter().map(|r| r[2]).collect()
}

#[test]
fn bridge_flash_sends_the_documented_commands() {
    let image = HexImage::parse(":0400000001020304F2\n:00000001FF\n").unwrap();
    let mut bridge = BridgeProgrammer::new(ScriptedLink::new(), "bridge".to_string());

    let plan = flash_image(&mut bridge, &image).unwrap();

    assert_eq!(plan.rows.len(), 1);
    let link = bridge_link(bridge);
    assert_eq!(
        commands(&link),
        vec![0x01, 0x02, 0x03, 0x10, 0x11, 0x12, 0x12, 0x13, 0x14, 0x15]
    );
    // Sequence numbers count up from one.
    assert_eq!(link.requests[0][1], 1);
    assert_eq!(link.requests[9][1], 10);
    // Begin flash carries the row count.
    assert_eq!(&link.requests[3][3..8], &[4, 1, 0, 0, 0]);
    // The first chunk: base 0, offset 0, then 48 packed bytes.
    assert_eq!(link.requests[5][3], 53);
    assert_eq!(&link.requests[5][4..13], &[0, 0, 0, 0, 0, 0x01, 0x02, 0x03, 0x04]);
    // The second chunk starts at byte 48 and holds the last 16 bytes.
    assert_eq!(link.requests[6][3], 21);
    assert_eq!(link.requests[6][8], 48);
    // Verify carries the base, the word count and the digest of the row.
    let words = plan.rows[0].words.clone();
    let digest = verify_digest(0, &words).to_le_bytes();
    assert_eq!(link.requests[8][3], 10);
    assert_eq!(&link.requests[8][4..10], &[0, 0, 0, 0, 32, 0]);
    assert_eq!(&link.requests[8][10..14], &digest);
}

fn bridge_link(bridge: BridgeProgrammer<ScriptedLink>) -> ScriptedLink {
    bridge.into_link()
}

#[test]
fn bridge_verify_sends_one_range_check_per_row() {
    let image = HexImage::parse(":0400000001020304F2\n:02004000AABB59\n:00000001FF\n").unwrap();
    let mut bridge = BridgeProgrammer::new(ScriptedLink::new(), "bridge".to_string());

    verify_image(&mut bridge, &image).unwrap();

    let link = bridge_link(bridge);
    assert_eq!(commands(&link), vec![0x01, 0x02, 0x03, 0x10, 0x14, 0x14, 0x15]);
}

#[test]
fn bridge_probe_names_the_target_from_the_reply() {
    let mut bridge = BridgeProgrammer::new(ScriptedLink::new(), "atu10-bridge".to_string());
    let info = bridge.probe().unwrap();
    assert_eq!(info.bridge_name, "atu10-bridge");
    assert_eq!(info.protocol_version, 2);
    assert_eq!(info.target_name, "PIC16F18877");
}

#[test]
fn bridge_reads_the_target_id_little_endian() {
    let mut bridge = BridgeProgrammer::new(ScriptedLink::new(), "b".to_string());
    assert_eq!(bridge.read_target_id().unwrap(), 0x3075);

    let mut link = ScriptedLink::new();
    link.id_payload = vec![0x75];
    let mut short = BridgeProgrammer::new(link, "b".to_string());
    assert_eq!(
        short.read_target_id().unwrap_err(),
        Error::Protocol("read-id response has 1 bytes, expected 2".to_string())
    );
}

#[test]
fn bridge_reads_words_masked_to_14_bits() {
    let mut bridge = BridgeProgrammer::new(ScriptedLink::new(), "b".to_string());
    assert_eq!(bridge.read_words(0x20, 3).unwrap(), vec![0x3fff, 0x3fff, 0x3fff]);
    assert_eq!(
        bridge.read_words(0, 0x1_0000).unwrap_err(),
        Error::Device("read word count is too large".to_string())
    );
}

#[test]
fn bridge_status_failure_is_a_device_error() {
    let mut link = ScriptedLink::new();
    link.status = Status::VerifyFailed;
    let mut bridge = BridgeProgrammer::new(link, "b".to_string());
    assert_eq!(
        bridge.run_target().unwrap_err(),
        Error::Device("bridge returned status VerifyFailed".to_string())
    );
}

#[test]
fn bridge_refuses_an_oversized_chunk() {
    let mut bridge = BridgeProgrammer::new(ScriptedLink::new(), "b".to_string());
    assert_eq!(
        bridge.write_chunk(0, 0, &[0u8; 56]).unwrap_err(),
        Error::Protocol("command payload has 61 bytes, max is 60".to_string())
    );
    assert!(bridge.write_chunk(0, 0, &[0u8; 55]).is_ok());
}
