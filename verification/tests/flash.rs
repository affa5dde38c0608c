use atu10_core::flash::{FlashPlan, FlashRow, F18877_ERASED_WORD};
use atu10_core::hex::HexImage;
use atu10_core::Error;

#[test]
fn rows_are_aligned_and_gap_filled() {
    let image = HexImage::parse(
        ":04000400112233444E\n\
         :02004000AABB59\n\
         :00000001FF\n",
    )
    .unwrap();

    let plan = FlashPlan::from_image(&image, 8, F18877_ERASED_WORD).unwrap();

    assert_eq!(plan.rows.len(), 2);
    assert_eq!(plan.rows[0].base_word_address, 0x00);
    assert_eq!(
        plan.rows[0].words,
        vec![0x3fff, 0x3fff, 0x2211, 0x0433, 0x3fff, 0x3fff, 0x3fff, 0x3fff]
    );
    assert_eq!(plan.rows[1].base_word_address, 0x20);
    assert_eq!(
        plan.rows[1].words,
        vec![0x3baa, 0x3fff, 0x3fff, 0x3fff, 0x3fff, 0x3fff, 0x3fff, 0x3fff]
    );
}

#[test]
fn rejects_invalid_row_size() {
    let image = HexImage::parse(":00000001FF\n").unwrap();
    assert!(FlashPlan::from_image(&image, 0, F18877_ERASED_WORD).is_err());
    assert!(FlashPlan::from_image(&image, 7, F18877_ERASED_WORD).is_err());
}

#[test]
fn rejects_config_or_user_id_regions_by_default() {
    let image = HexImage::parse(
        ":020000040001F9\n\
         :02000E00FF3FB2\n\
         :00000001FF\n",
    )
    .unwrap();

    let err = FlashPlan::f18877_from_image(&image).unwrap_err();
    assert!(err.to_string().contains("config"));
}

#[test]
fn packs_words_little_endian_for_icsp_transfer() {
    let row = FlashRow {
        base_word_address: 0,
        words: vec![0x1234, 0x3fff],
    };

    assert_eq!(row.packed_bytes(), vec![0x34, 0x12, 0xff, 0x3f]);
}

#[test]
fn packing_drops_the_top_two_bits() {
    let row = FlashRow {
        base_word_address: 0,
        words: vec![0xffff, 0xc001],
    };
    assert_eq!(row.packed_bytes(), vec![0xff, 0x3f, 0x01, 0x00]);
}

#[test]
fn lowest_address_beyond_flash_is_reported() {
    let image = HexImage::parse(
        ":020000040001F9\n\
         :0100200011CE\n\
         :0100100022CD\n\
         :00000001FF\n",
    )
    .unwrap();
    assert_eq!(
        FlashPlan::f18877_from_image(&image).unwrap_err(),
        Error::Device(
            "HEX address 0x00010010 is outside PIC16F18877 program flash; config/user/eeprom writes are intentionally rejected"
                .to_string()
        )
    );
}

#[test]
fn row_size_error_message() {
    let image = HexImage::parse(":00000001FF\n").unwrap();
    assert_eq!(
        FlashPlan::from_image(&image, 12, 0).unwrap_err(),
        Error::Device("row word count must be a non-zero power of two".to_string())
    );
}

#[test]
fn lone_high_byte_keeps_the_fill_low_byte() {
    // One byte at odd address 3: word 1 gets its high six bits from it.
    let image = HexImage::parse(":01000300FFFD\n:00000001FF\n").unwrap();
    let plan = FlashPlan::from_image(&image, 4, 0x1234).unwrap();
    assert_eq!(plan.rows.len(), 1);
    assert_eq!(plan.rows[0].words, vec![0x1234, 0x3f34, 0x1234, 0x1234]);
    assert_eq!(plan.fill_word, 0x1234);
    assert_eq!(plan.row_words, 4);
}

#[test]
fn empty_image_plans_no_rows() {
    let image = HexImage::parse(":00000001FF\n").unwrap();
    let plan = FlashPlan::f18877_from_image(&image).unwrap();
    assert!(plan.rows.is_empty());
    assert!(plan.verify_words().is_empty());
}

#[test]
fn verify_words_masks_every_planned_word() {
    let plan = FlashPlan {
        row_words: 2,
        fill_word: 0xffff,
        rows: vec![
            FlashRow {
                base_word_address: 4,
                words: vec![0xffff, 0x1234],
            },
            FlashRow {
                base_word_address: 8,
                words: vec![0x0001, 0x4002],
            },
        ],
    };
    let words = plan.verify_words();
    assert_eq!(words.len(), 4);
    assert_eq!(words.get(&4), Some(&0x3fff));
    assert_eq!(words.get(&5), Some(&0x1234));
    assert_eq!(words.get(&8), Some(&0x0001));
    assert_eq!(words.get(&9), Some(&0x0002));
}
