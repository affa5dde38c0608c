//! Host-side core of the ATU10 programmer tooling: Intel HEX parsing, flash
//! row planning, control-packet framing, the fake programmer and serial
//! tunnel used without hardware, and the flash/smoke sequencing run against
//! any programmer.
use vstd::prelude::*;

pub mod bridge;
pub mod cdc;
pub mod device;
pub mod flash;
pub mod hex;
pub mod hid;
pub mod order;
pub mod protocol;
pub mod serial;
pub mod session;
pub mod tasks;
pub mod text;

verus! {

/// Errors of the library; each carries its message text.
#[derive(Debug, Clone, PartialEq, Eq)]
pub enum Error {
    Hex(String),
    Protocol(String),
    Device(String),
    Serial(String),
    Io(String),
}

pub type Result<T> = std::result::Result<T, Error>;

/// `e` is a HEX error whose message is `msg`.
pub open spec fn is_hex_error(e: Error, msg: Seq<char>) -> bool {
    e matches Error::Hex(m) && m@ == msg
}

/// `e` is a protocol error whose message is `msg`.
pub open spec fn is_protocol_error(e: Error, msg: Seq<char>) -> bool {
    e matches Error::Protocol(m) && m@ == msg
}

/// `e` is a device error whose message is `msg`.
pub open spec fn is_device_error(e: Error, msg: Seq<char>) -> bool {
    e matches Error::Device(m) && m@ == msg
}

/// `e` is a serial error whose message is `msg`.
pub open spec fn is_serial_error(e: Error, msg: Seq<char>) -> bool {
    e matches Error::Serial(m) && m@ == msg
}

/// The displayed text of an error: a kind prefix, then the message.
pub open spec fn error_text(e: Error) -> Seq<char> {
    match e {
        Error::Hex(m) => "hex error: "@ + m@,
        Error::Protocol(m) => "protocol error: "@ + m@,
        Error::Device(m) => "device error: "@ + m@,
        Error::Serial(m) => "serial error: "@ + m@,
        Error::Io(m) => "io error: "@ + m@,
    }
}

impl Error {
    /// The displayed text of the error.
    pub fn to_string(&self) -> (s: String)
        ensures
            s@ == error_text(*self),
    {
        let (prefix, message) = match self {
            Error::Hex(m) => ("hex error: ", m),
            Error::Protocol(m) => ("protocol error: ", m),
            Error::Device(m) => ("device error: ", m),
            Error::Serial(m) => ("serial error: ", m),
            Error::Io(m) => ("io error: ", m),
        };
        let mut s = String::new();
        s.append(prefix);
        s.append(message.as_str());
        s
    }
}

} // verus!
