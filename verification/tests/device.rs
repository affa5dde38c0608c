use atu10_core::device::{
    check_target_id, flash_image, verify_image, DeviceEvent, FakeProgrammer, ProgrammerDevice,
    F18877_DEVICE_ID, MAX_HID_CHUNK_BYTES,
};
use atu10_core::flash::F18877_ROW_WORDS;
use atu10_core::hex::HexImage;
use atu10_core::Error;

#[test]
fn fake_flash_pipeline_uses_expected_sequence() {
    let image = HexImage::parse(
        ":0400000001020304F2\n\
         :02004000AABB59\n\
         :00000001FF\n",
    )
    .unwrap();
    let mut device = FakeProgrammer::default();

    let plan = flash_image(&mut device, &image).unwrap();

    assert_eq!(plan.rows.len(), 2);
    assert_eq!(
        device.events(),
        &[
            DeviceEvent::Probe,
            DeviceEvent::ResetTarget,
            DeviceEvent::ReadTargetId,
            DeviceEvent::BeginFlash { row_count: 2 },
            DeviceEvent::EraseRow {
                base_word_address: 0
            },
            DeviceEvent::WriteChunk {
                base_word_address: 0,
                offset_bytes: 0,
                len: MAX_HID_CHUNK_BYTES
            },
            DeviceEvent::WriteChunk {
                base_word_address: 0,
                offset_bytes: MAX_HID_CHUNK_BYTES as u8,
                len: F18877_ROW_WORDS * 2 - MAX_HID_CHUNK_BYTES
            },
            DeviceEvent::CommitRow {
                base_word_address: 0
            },
            DeviceEvent::VerifyRange {
                base_word_address: 0,
                word_count: F18877_ROW_WORDS
            },
            DeviceEvent::EraseRow {
                base_word_address: 0x20
            },
            DeviceEvent::WriteChunk {
                base_word_address: 0x20,
                offset_bytes: 0,
                len: MAX_HID_CHUNK_BYTES
            },
            DeviceEvent::WriteChunk {
                base_word_address: 0x20,
                offset_bytes: MAX_HID_CHUNK_BYTES as u8,
                len: F18877_ROW_WORDS * 2 - MAX_HID_CHUNK_BYTES
            },
            DeviceEvent::CommitRow {
                base_word_address: 0x20
            },
            DeviceEvent::VerifyRange {
                base_word_address: 0x20,
                word_count: F18877_ROW_WORDS
            },
            DeviceEvent::RunTarget
        ]
    );
}

#[test]
fn fake_verify_failure_surfaces_as_error() {
    let image = HexImage::parse(":0400000001020304F2\n:00000001FF\n").unwrap();
    let mut device = FakeProgrammer::default();
    device.set_fail_verify(true);

    let err = flash_image(&mut device, &image).unwrap_err();
    assert!(err.to_string().contains("verify"));
}

#[test]
fn target_id_mismatch_is_rejected_before_flash() {
    let image = HexImage::parse(":0400000001020304F2\n:00000001FF\n").unwrap();
    let mut device = FakeProgrammer::default();
    device.set_target_id(0x3020);

    let err = flash_image(&mut device, &image).unwrap_err();
    assert!(err.to_string().contains("device id"));
}

#[test]
fn target_id_message_is_exact() {
    assert!(check_target_id(F18877_DEVICE_ID).is_ok());
    assert_eq!(
        check_target_id(0x3020).unwrap_err(),
        Error::Device(
            "unexpected target device id 0x3020; expected PIC16F18877 0x3075".to_string()
        )
    );
}

#[test]
fn flashed_words_read_back_as_planned() {
    let image = HexImage::parse(":0400000001020304F2\n:00000001FF\n").unwrap();
    let mut device = FakeProgrammer::default();
    let plan = flash_image(&mut device, &image).unwrap();
    let words = device.read_words(0, F18877_ROW_WORDS).unwrap();
    assert_eq!(words, plan.rows[0].words);
    assert_eq!(words[0], 0x0201);
    assert_eq!(words[1], 0x0403);
    assert_eq!(device.memory().get(&0), Some(&0x0201));
    assert_eq!(device.memory().len(), F18877_ROW_WORDS);
    assert!(device.verify_range(0, &plan.rows[0].words).is_ok());
}

#[test]
fn planning_error_issues_no_command() {
    let image = HexImage::parse(":020000040001F9\n:02000E00FF3FB2\n:00000001FF\n").unwrap();
    let mut device = FakeProgrammer::default();
    assert!(flash_image(&mut device, &image).is_err());
    assert!(device.events().is_empty());
}

#[test]
fn fake_probe_reports_the_fake_bridge() {
    let mut device = FakeProgrammer::default();
    let info = device.probe().unwrap();
    assert_eq!(info.bridge_name, "fake-programmer-bridge");
    assert_eq!(info.protocol_version, 2);
    assert_eq!(info.target_name, "fake-pic16f18877");
    assert_eq!(device.read_target_id().unwrap(), F18877_DEVICE_ID);
}

#[test]
fn fake_row_commands_check_their_order() {
    let mut device = FakeProgrammer::default();
    assert_eq!(
        device.write_chunk(0, 0, &[1, 2]).unwrap_err(),
        Error::Device("fake row was not erased before write".to_string())
    );
    assert_eq!(
        device.commit_row(0).unwrap_err(),
        Error::Device("fake row was not buffered".to_string())
    );
    device.erase_row(0x40).unwrap();
    assert_eq!(
        device.write_chunk(0x40, 60, &[0; 5]).unwrap_err(),
        Error::Device("fake row chunk exceeds row size".to_string())
    );
    device.write_chunk(0x40, 2, &[0x34, 0xd2]).unwrap();
    device.commit_row(0x40).unwrap();
    let words = device.read_words(0x40, 3).unwrap();
    assert_eq!(words, vec![0x3fff, 0x1234, 0x3fff]);
    assert_eq!(
        device.verify_range(0x40, &[0x3fff, 0x0000]).unwrap_err(),
        Error::Device("fake verify failed".to_string())
    );
    assert!(device.verify_range(0x40, &[0xffff, 0xd234]).is_ok());
}

#[test]
fn erase_clears_committed_words() {
    let mut device = FakeProgrammer::default();
    device.erase_row(0).unwrap();
    device.write_chunk(0, 0, &[0x11, 0x22]).unwrap();
    device.commit_row(0).unwrap();
    assert_eq!(device.read_words(0, 1).unwrap(), vec![0x2211]);
    device.erase_row(0).unwrap();
    assert_eq!(device.read_words(0, 1).unwrap(), vec![0x3fff]);
    assert!(device.memory().is_empty());
}

#[test]
fn verify_after_flash_checks_each_row_without_writing() {
    let image = HexImage::parse(
        ":0400000001020304F2\n\
         :02004000AABB59\n\
         :00000001FF\n",
    )
    .unwrap();
    let mut device = FakeProgrammer::default();
    flash_image(&mut device, &image).unwrap();
    let flashed = device.events().len();

    let plan = verify_image(&mut device, &image).unwrap();

    assert_eq!(plan.rows.len(), 2);
    assert_eq!(
        &device.events()[flashed..],
        &[
            DeviceEvent::Probe,
            DeviceEvent::ResetTarget,
            DeviceEvent::ReadTargetId,
            DeviceEvent::BeginFlash { row_count: 2 },
            DeviceEvent::VerifyRange {
                base_word_address: 0,
                word_count: F18877_ROW_WORDS
            },
            DeviceEvent::VerifyRange {
                base_word_address: 0x20,
                word_count: F18877_ROW_WORDS
            },
            DeviceEvent::RunTarget,
        ]
    );
}

#[test]
fn verify_of_unflashed_target_fails_at_first_row() {
    let image = HexImage::parse(":0400000001020304F2\n:00000001FF\n").unwrap();
    let mut device = FakeProgrammer::default();

    let err = verify_image(&mut device, &image).unwrap_err();

    assert!(matches!(err, Error::Device(_)));
    assert!(err.to_string().contains("verify"));
    assert_eq!(
        device.events().last(),
        Some(&DeviceEvent::VerifyRange {
            base_word_address: 0,
            word_count: F18877_ROW_WORDS
        })
    );
}

#[test]
fn verify_rejects_wrong_target_before_checking_rows() {
    let image = HexImage::parse(":0400000001020304F2\n:00000001FF\n").unwrap();
    let mut device = FakeProgrammer::default();
    device.set_target_id(0x1234);

    let err = verify_image(&mut device, &image).unwrap_err();

    assert_eq!(
        err,
        Error::Device(
            "unexpected target device id 0x1234; expected PIC16F18877 0x3075".to_string()
        )
    );
    assert_eq!(device.events().len(), 3);
}

#[test]
fn fake_refuses_rows_beyond_the_word_space() {
    let mut device = FakeProgrammer::default();
    assert_eq!(
        device.erase_row(0xffff_fff0).unwrap_err(),
        Error::Device("fake address outside the word address space".to_string())
    );
    assert_eq!(
        device.read_words(0xffff_fffe, 3).unwrap_err(),
        Error::Device("fake address outside the word address space".to_string())
    );
    assert_eq!(device.read_words(0xffff_fffe, 2).unwrap(), vec![0x3fff, 0x3fff]);
    assert_eq!(
        device.verify_range(0xffff_ffff, &[0x3fff, 0x3fff]).unwrap_err(),
        Error::Device("fake verify failed".to_string())
    );
    assert!(device.verify_range(0xffff_ffff, &[0x3fff]).is_ok());
}

#[test]
fn flashed_fake_holds_exactly_the_planned_words() {
    let image = HexImage::parse(
        ":0400000001020304F2\n\
         :02004000AABB59\n\
         :00000001FF\n",
    )
    .unwrap();
    let mut device = FakeProgrammer::default();
    let plan = flash_image(&mut device, &image).unwrap();
    assert_eq!(device.memory(), &plan.verify_words());
}

#[test]
fn cloned_fake_keeps_its_state() {
    let image = HexImage::parse(":0400000001020304F2\n:00000001FF\n").unwrap();
    let mut device = FakeProgrammer::default();
    flash_image(&mut device, &image).unwrap();
    let copy = device.clone();
    assert_eq!(copy.events(), device.events());
    assert_eq!(copy.memory(), device.memory());
}
