use atu10_core::serial::{check_echo, check_hello, serial_smoke, FakeSerialTunnel, SerialTunnel};
use atu10_core::Error;
use std::collections::VecDeque;

#[test]
fn fake_serial_supports_smoke_test() {
    let mut serial = FakeSerialTunnel::default();
    serial_smoke(&mut serial).unwrap();
}

#[test]
fn bad_hello_fails_smoke_test() {
    let mut serial = FakeSerialTunnel::with_lines(VecDeque::from(["not ready".to_string()]));
    assert!(serial_smoke(&mut serial).is_err());
}

#[test]
fn hello_must_carry_the_marker() {
    assert!(check_hello("boot: ATU10-IMPROVED READY 115200").is_ok());
    assert_eq!(
        check_hello("ATU10-IMPROVED").unwrap_err(),
        Error::Serial("unexpected hello line: ATU10-IMPROVED".to_string())
    );
}

#[test]
fn echo_must_repeat_the_ping() {
    assert!(check_echo(b"ping\n").is_ok());
    assert_eq!(
        check_echo(b"pong\n").unwrap_err(),
        Error::Serial("echo mismatch".to_string())
    );
    assert!(check_echo(b"ping").is_err());
}

#[test]
fn fake_tunnel_echoes_what_was_written() {
    let mut serial = FakeSerialTunnel::with_lines(VecDeque::new());
    assert_eq!(
        serial.read_line().unwrap_err(),
        Error::Serial("no line available".to_string())
    );
    serial.write(&[1, 2, 3]).unwrap();
    assert_eq!(
        serial.read_exact(4).unwrap_err(),
        Error::Serial("wanted 4 bytes, only 3 available".to_string())
    );
    assert_eq!(serial.read_exact(2).unwrap(), vec![1, 2]);
    assert_eq!(serial.read_exact(1).unwrap(), vec![3]);
}

#[test]
fn smoke_without_any_line_fails() {
    let mut serial = FakeSerialTunnel::with_lines(VecDeque::new());
    assert_eq!(
        serial_smoke(&mut serial).unwrap_err(),
        Error::Serial("no line available".to_string())
    );
}
