# atu10-core

Host-side core of the ATU10 programmer tooling, written in Verus: the
functions in `src/` carry contracts that Verus proves, except three trusted
wrappers around the standard library (`text::push_char` over `String::push`,
`cdc::utf8_text` over `String::from_utf8`, `bridge::lossy_text` over
`String::from_utf8_lossy`), whose contracts are assumed.

- `src/hex.rs`: Intel HEX parsing into a sparse byte image, specified
  line by line over the input text.
- `src/flash.rs`: planning of aligned, gap-filled flash rows and their
  little-endian packing.
- `src/protocol.rs`, `src/session.rs`: the 64-byte control packets, their
  encoding and decoding, and the sequence-numbered request/reply exchange.
- `src/device.rs`: the programmer interface, the flash and verify sequences
  run against any programmer, and a fake programmer with a modelled memory.
- `src/serial.rs`: the serial smoke test (hello, then echo) and a fake tunnel.
- `src/bridge.rs`, `src/hid.rs`, `src/cdc.rs`: the bridge programmer behind a
  control link, and the HID/CDC framing and reply handling.
- `src/tasks.rs`: the decisions of the workspace tasks (required tools, format
  steps).
- `src/text.rs`, `src/order.rs`: number rendering for messages and facts about
  `u32` key order.

`app/` holds the `atu10ctl` command line, the hidapi/serialport I/O and the
process side of the workspace tasks; it is
ordinary Rust built on the library. `tests/` runs the library on concrete
values.
