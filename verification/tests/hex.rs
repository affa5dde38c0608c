use atu10_core::hex::HexImage;
use atu10_core::Error;

#[test]
fn parses_sparse_extended_linear_image() {
    let image = HexImage::parse(
        ":020000040001F9\n\
         :0400100001020304E2\n\
         :02002000AABB79\n\
         :00000001FF\n",
    )
    .unwrap();

    assert_eq!(image.bytes().get(&0x0001_0010), Some(&0x01));
    assert_eq!(image.bytes().get(&0x0001_0013), Some(&0x04));
    assert_eq!(image.bytes().get(&0x0001_0020), Some(&0xaa));
    assert_eq!(image.bytes().get(&0x0001_0021), Some(&0xbb));
    assert_eq!(image.bytes().get(&0x0001_0014), None);
}

#[test]
fn rejects_bad_checksum() {
    let err = HexImage::parse(":0100000000FE\n:00000001FF\n").unwrap_err();
    assert!(err.to_string().contains("checksum"));
}

#[test]
fn rejects_missing_eof() {
    let err = HexImage::parse(":0100000000FF\n").unwrap_err();
    assert!(err.to_string().contains("missing EOF"));
}

fn hex_error(input: &str) -> String {
    match HexImage::parse(input).unwrap_err() {
        Error::Hex(message) => message,
        other => panic!("not a hex error: {other:?}"),
    }
}

#[test]
fn each_refusal_names_its_line() {
    assert_eq!(hex_error("\n  0100\n"), "line 2: missing ':'");
    assert_eq!(hex_error(":012\n"), "line 1: odd number of hex digits");
    assert_eq!(hex_error(":0G\n"), "line 1: invalid hex digit 'G'");
    assert_eq!(hex_error(":0000\n"), "line 1: record too short");
    assert_eq!(
        hex_error(":0300000000FF\n"),
        "line 1: length says 3 data bytes but record has 1"
    );
    assert_eq!(hex_error(":01000001FFFF\n"), "line 1: EOF has data");
    assert_eq!(
        hex_error(":0100000400FB\n"),
        "line 1: extended linear address must have 2 bytes"
    );
    assert_eq!(
        hex_error(":00000002FE\n"),
        "line 1: unsupported record type 0x02"
    );
    assert_eq!(hex_error(""), "missing EOF record");
}

#[test]
fn non_ascii_digit_is_reported_by_its_first_byte() {
    // U+00E9 is encoded as C3 A9; the refusal shows the byte 0xC3 as a character.
    assert_eq!(hex_error(":0\u{e9}0\n"), "line 1: invalid hex digit '\u{c3}'");
}

#[test]
fn blank_lines_and_whitespace_are_skipped_and_eof_ends_parsing() {
    let image = HexImage::parse(
        "\r\n   \n\t:0100000042BD \r\n:00000001FF\nthis is never read\n",
    )
    .unwrap();
    assert_eq!(image.bytes().len(), 1);
    assert_eq!(image.bytes().get(&0), Some(&0x42));
    assert!(!image.is_empty());
}

#[test]
fn later_data_replaces_earlier_data_at_the_same_address() {
    let image = HexImage::parse(":0100000011EE\n:0100000022DD\n:00000001FF\n").unwrap();
    assert_eq!(image.bytes().get(&0), Some(&0x22));
}

#[test]
fn empty_image_with_only_eof() {
    let image = HexImage::parse(":00000001ff\n").unwrap();
    assert!(image.is_empty());
}

#[test]
fn address_space_overflow_is_detected() {
    let text = ":02000004FFFFFC\n:02FFFF00AABB9B\n:00000001FF\n";
    assert!(HexImage::exceeds_address_space(text));
    assert!(!HexImage::exceeds_address_space(":00000001FF\n"));
}

#[test]
fn text_after_the_eof_record_is_ignored() {
    let base = ":0400000001020304F2\n:00000001FF\n";
    let extended = format!("{base}junk\n:0100000000FF\n");
    assert_eq!(
        HexImage::parse(&extended).unwrap(),
        HexImage::parse(base).unwrap()
    );
}

#[test]
fn digit_case_does_not_matter() {
    assert_eq!(
        HexImage::parse(":02004000AABB59\n:00000001FF\n").unwrap(),
        HexImage::parse(":02004000aabb59\n:00000001ff\n").unwrap()
    );
}

#[test]
fn blank_lines_do_not_matter() {
    assert_eq!(
        HexImage::parse(":02004000AABB59\n\n:00000001FF\n").unwrap(),
        HexImage::parse(":02004000AABB59\n:00000001FF\n").unwrap()
    );
}

#[test]
fn leading_spaces_do_not_matter() {
    assert_eq!(
        HexImage::parse("  :02004000AABB59\n :00000001FF\n").unwrap(),
        HexImage::parse(":02004000AABB59\n:00000001FF\n").unwrap()
    );
}

#[test]
fn trailing_whitespace_and_tabs_do_not_matter() {
    assert_eq!(
        HexImage::parse(":02004000AABB59 \t\n\t:00000001FF  \n").unwrap(),
        HexImage::parse(":02004000AABB59\n:00000001FF\n").unwrap()
    );
}

#[test]
fn refusals_stay_refusals_when_lines_are_added_or_followed() {
    assert!(HexImage::parse(":0100000000FE\n\n:00000001FF\n").is_err());
    assert_eq!(
        HexImage::parse(":0100000000FE\n:00000001FF\nanything").unwrap_err(),
        HexImage::parse(":0100000000FE\n:00000001FF\n:junk\n").unwrap_err()
    );
}
