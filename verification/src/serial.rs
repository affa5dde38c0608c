//! The serial tunnel to the running target, the smoke test run over it, and
//! a fake tunnel that greets and echoes.
use crate::text::{chars_of, decimal};
use crate::{is_serial_error, Error, Result};
use std::collections::VecDeque;
use vstd::prelude::*;

verus! {

/// An operation on a serial tunnel, with what it returned.
pub enum SerialCall {
    ReadLine { line: std::result::Result<Seq<char>, Error> },
    Write { bytes: Seq<u8>, done: std::result::Result<(), Error> },
    ReadExact { len: usize, received: std::result::Result<Seq<u8>, Error> },
    /// Lines queued on a fake tunnel for reading (no operation reaches a
    /// target).
    Queue { lines: Seq<Seq<char>> },
}

/// A line result as text.
pub open spec fn line_result(r: Result<String>) -> std::result::Result<Seq<char>, Error> {
    match r {
        Ok(s) => Ok(s@),
        Err(e) => Err(e),
    }
}

/// A byte-read result as a sequence.
pub open spec fn bytes_result(r: Result<Vec<u8>>) -> std::result::Result<Seq<u8>, Error> {
    match r {
        Ok(v) => Ok(v@),
        Err(e) => Err(e),
    }
}

/// A serial tunnel to the target. Each method performs one operation;
/// `transcript` is the sequence of operations so far, each with what it
/// returned. What an operation returns is the tunnel's to decide.
pub trait SerialTunnel {
    /// The operations performed so far, in order, with their results.
    spec fn transcript(&self) -> Seq<SerialCall>;

    fn read_line(&mut self) -> (r: Result<String>)
        ensures
            final(self).transcript() == old(self).transcript().push(
                SerialCall::ReadLine { line: line_result(r) },
            ),
    ;

    fn write(&mut self, bytes: &[u8]) -> (r: Result<()>)
        ensures
            final(self).transcript() == old(self).transcript().push(
                SerialCall::Write { bytes: bytes@, done: r },
            ),
    ;

    fn read_exact(&mut self, len: usize) -> (r: Result<Vec<u8>>)
        ensures
            final(self).transcript() == old(self).transcript().push(
                SerialCall::ReadExact { len, received: bytes_result(r) },
            ),
    ;
}

/// Whether `pattern` occurs in `s`.
pub open spec fn contains_seq(s: Seq<char>, pattern: Seq<char>) -> bool {
    exists|i: int| 0 <= i && i + pattern.len() <= s.len() && #[trigger] s.subrange(i, i + pattern.len()) == pattern
}

/// The marker that the target's hello line carries.
pub open spec fn ready_marker() -> Seq<char> {
    "ATU10-IMPROVED READY"@
}

/// The bytes sent and expected back in the echo test.
pub open spec fn ping() -> Seq<u8> {
    seq![0x70u8, 0x69u8, 0x6eu8, 0x67u8, 0x0au8]
}

/// Message of the error for a hello line without the marker.
pub open spec fn hello_message(line: Seq<char>) -> Seq<char> {
    "unexpected hello line: "@ + line
}

/// Accepts a hello line that contains the ready marker.
pub fn check_hello(line: &str) -> (r: Result<()>)
    ensures
        contains_seq(line@, ready_marker()) ==> r is Ok,
        !contains_seq(line@, ready_marker()) ==> (r matches Err(e) && is_serial_error(
            e,
            hello_message(line@),
        )),
{
    let text = chars_of(line);
    let marker = chars_of("ATU10-IMPROVED READY");
    let mut i: usize = 0;
    if marker.len() <= text.len() {
        while i <= text.len() - marker.len()
            invariant
                text@ == line@,
                marker@ == ready_marker(),
                marker.len() <= text.len(),
                i <= text.len() - marker.len() + 1,
                forall|k: int| 0 <= k < i ==> #[trigger] text@.subrange(k, k + marker@.len()) != marker@,
            decreases text.len() - marker.len() + 1 - i,
        {
            let mut j: usize = 0;
            while j < marker.len() && text[i + j] == marker[j]
                invariant
                    i + marker.len() <= text.len(),
                    j <= marker.len(),
                    forall|t: int| 0 <= t < j ==> text@[i + t] == marker@[t],
                decreases marker.len() - j,
            {
                j = j + 1;
            }
            if j == marker.len() {
                assert(text@.subrange(i as int, i + marker@.len()) =~= marker@);
                return Ok(());
            }
            assert(text@.subrange(i as int, i + marker@.len())[j as int] != marker@[j as int]);
            i = i + 1;
        }
    }
    assert(!contains_seq(line@, ready_marker()));
    let mut m = String::new();
    m.append("unexpected hello line: ");
    m.append(line);
    Err(Error::Serial(m))
}

fn ping_bytes() -> (v: Vec<u8>)
    ensures
        v@ == ping(),
{
    let mut v: Vec<u8> = Vec::new();
    v.push(0x70);
    v.push(0x69);
    v.push(0x6e);
    v.push(0x67);
    v.push(0x0a);
    assert(v@ =~= ping());
    v
}

/// Accepts an echo that repeats the ping.
pub fn check_echo(echo: &[u8]) -> (r: Result<()>)
    ensures
        echo@ == ping() ==> r is Ok,
        echo@ != ping() ==> (r matches Err(e) && is_serial_error(e, "echo mismatch"@)),
{
    let expected = ping_bytes();
    let mut same = echo.len() == expected.len();
    let mut i: usize = 0;
    while same && i < expected.len()
        invariant
            expected@ == ping(),
            i <= expected.len(),
            same ==> echo@.len() == expected@.len(),
            same ==> forall|k: int| 0 <= k < i ==> echo@[k] == expected@[k],
            !same ==> echo@ != ping(),
        decreases expected.len() - i,
    {
        if echo[i] != expected[i] {
            same = false;
        }
        i = i + 1;
    }
    if same {
        assert(echo@ =~= ping());
        Ok(())
    } else {
        Err(Error::Serial(String::from_str("echo mismatch")))
    }
}

/// What the smoke test returns after the operations `calls`, and that
/// those were the operations it performed: it reads the hello line, which
/// must carry the ready marker; then writes the ping and reads back as many
/// bytes, which must repeat it. The first failure ends it with that error.
pub open spec fn smoke_outcome(calls: Seq<SerialCall>, r: Result<()>) -> bool {
    calls.len() >= 1 && match calls[0] {
        SerialCall::ReadLine { line: Err(e) } => calls.len() == 1 && r == Err::<(), Error>(e),
        SerialCall::ReadLine { line: Ok(line) } => if !contains_seq(line, ready_marker()) {
            calls.len() == 1 && (r matches Err(e) && is_serial_error(e, hello_message(line)))
        } else {
            calls.len() >= 2 && match calls[1] {
                SerialCall::Write { bytes, done } => bytes == ping() && match done {
                    Err(e) => calls.len() == 2 && r == Err::<(), Error>(e),
                    Ok(_) => calls.len() == 3 && match calls[2] {
                        SerialCall::ReadExact { len, received: echo } => len == 5 && match echo {
                            Err(e) => r == Err::<(), Error>(e),
                            Ok(echo) => if echo == ping() {
                                r is Ok
                            } else {
                                r matches Err(e) && is_serial_error(e, "echo mismatch"@)
                            },
                        },
                        _ => false,
                    },
                },
                _ => false,
            }
        },
        _ => false,
    }
}

/// The smoke test: the hello line must carry the ready marker, and the
/// ping `"ping\n"` must come back unchanged. The first failure ends it.
pub fn serial_smoke<T: SerialTunnel + ?Sized>(serial: &mut T) -> (r: Result<()>)
    ensures
        final(serial).transcript().take(old(serial).transcript().len() as int) == old(
            serial,
        ).transcript(),
        smoke_outcome(
            final(serial).transcript().skip(old(serial).transcript().len() as int),
            r,
        ),
{
    let ghost before = serial.transcript();
    let hello = serial.read_line();
    let ghost h1 = serial.transcript();
    proof {
        assert(h1.take(before.len() as int) =~= before);
        assert(h1.skip(before.len() as int) =~= seq![h1.last()]);
    }
    let hello = match hello {
        Ok(line) => line,
        Err(e) => {
            return Err(e);
        },
    };
    if let Err(e) = check_hello(hello.as_str()) {
        return Err(e);
    }
    let ping = ping_bytes();
    let written = serial.write(ping.as_slice());
    let ghost h2 = serial.transcript();
    proof {
        assert(h2.take(before.len() as int) =~= before);
        assert(h2.skip(before.len() as int) =~= seq![h1.last(), h2.last()]);
    }
    if let Err(e) = written {
        return Err(e);
    }
    let echo = serial.read_exact(ping.len());
    let ghost h3 = serial.transcript();
    proof {
        assert(h3.take(before.len() as int) =~= before);
        assert(h3.skip(before.len() as int) =~= seq![h1.last(), h2.last(), h3.last()]);
    }
    let echo = match echo {
        Ok(bytes) => bytes,
        Err(e) => {
            return Err(e);
        },
    };
    check_echo(echo.as_slice())
}

/// A tunnel without hardware: it hands out queued lines and echoes back
/// whatever is written. Its state is what its transcript gives: the lines
/// queued and not yet read, the bytes written and not yet read back.
pub struct FakeSerialTunnel {
    lines: VecDeque<String>,
    rx: VecDeque<u8>,
    log: Ghost<Seq<SerialCall>>,
}

/// Message of the error for reading more bytes than are queued.
pub open spec fn short_read_message(wanted: nat, available: nat) -> Seq<char> {
    "wanted "@ + decimal(wanted) + " bytes, only "@ + decimal(available) + " available"@
}

/// The fake tunnel's state after one operation: queued lines and echoed
/// bytes.
pub open spec fn fake_tunnel_step(state: (Seq<Seq<char>>, Seq<u8>), call: SerialCall) -> (
    Seq<Seq<char>>,
    Seq<u8>,
) {
    let (lines, rx) = state;
    match call {
        SerialCall::Queue { lines: more } => (lines + more, rx),
        SerialCall::ReadLine { .. } => if lines.len() == 0 {
            (lines, rx)
        } else {
            (lines.drop_first(), rx)
        },
        SerialCall::Write { bytes, .. } => (lines, rx + bytes),
        SerialCall::ReadExact { len, .. } => if rx.len() < len {
            (lines, rx)
        } else {
            (lines, rx.skip(len as int))
        },
    }
}

/// Whether `call` returned what the fake tunnel in `state` returns.
pub open spec fn fake_tunnel_reply(state: (Seq<Seq<char>>, Seq<u8>), call: SerialCall) -> bool {
    let (lines, rx) = state;
    match call {
        SerialCall::Queue { .. } => true,
        SerialCall::ReadLine { line } => match line {
            Ok(l) => lines.len() > 0 && l == lines[0],
            Err(e) => lines.len() == 0 && is_serial_error(e, "no line available"@),
        },
        SerialCall::Write { done, .. } => done is Ok,
        SerialCall::ReadExact { len, received } => match received {
            Ok(b) => rx.len() >= len && b == rx.take(len as int),
            Err(e) => rx.len() < len && is_serial_error(e, short_read_message(len as nat, rx.len())),
        },
    }
}

/// The fake tunnel's state after the operations `t`, from nothing queued.
pub open spec fn fake_tunnel_state(t: Seq<SerialCall>) -> (Seq<Seq<char>>, Seq<u8>)
    decreases t.len(),
{
    if t.len() == 0 {
        (Seq::empty(), Seq::empty())
    } else {
        fake_tunnel_step(fake_tunnel_state(t.drop_last()), t.last())
    }
}

/// Whether every operation of `t` returned what the fake tunnel returns.
pub open spec fn fake_tunnel_run(t: Seq<SerialCall>) -> bool
    decreases t.len(),
{
    t.len() == 0 || (fake_tunnel_run(t.drop_last()) && fake_tunnel_reply(
        fake_tunnel_state(t.drop_last()),
        t.last(),
    ))
}

/// The texts of the strings.
pub open spec fn texts(v: Seq<String>) -> Seq<Seq<char>> {
    v.map_values(|s: String| s@)
}

impl FakeSerialTunnel {
    /// Every operation returned what the fake returns, and the queues are
    /// what the operations left.
    #[verifier::type_invariant]
    pub open spec fn well_formed(self) -> bool {
        &&& fake_tunnel_run(self.transcript())
        &&& self.queues_agree()
    }

    /// The queues hold what the transcript leaves.
    pub closed spec fn queues_agree(self) -> bool {
        &&& texts(self.lines@) == fake_tunnel_state(self.log@).0
        &&& self.rx@ == fake_tunnel_state(self.log@).1
    }

    /// The lines still to be handed out.
    pub open spec fn lines_view(&self) -> Seq<Seq<char>> {
        fake_tunnel_state(self.transcript()).0
    }

    /// The bytes written and not yet read back.
    pub open spec fn echo_view(&self) -> Seq<u8> {
        fake_tunnel_state(self.transcript()).1
    }

    /// A tunnel that hands out `lines`, with nothing echoed yet.
    pub fn with_lines(lines: VecDeque<String>) -> (r: Self)
        ensures
            r.transcript() == seq![SerialCall::Queue { lines: texts(lines@) }],
            r.lines_view() == texts(lines@),
            r.echo_view() == Seq::<u8>::empty(),
    {
        let ghost t = seq![SerialCall::Queue { lines: texts(lines@) }];
        proof {
            assert(t.drop_last() =~= Seq::<SerialCall>::empty());
            assert(Seq::<Seq<char>>::empty() + texts(lines@) =~= texts(lines@));
            assert(fake_tunnel_state(t) == fake_tunnel_step(
                fake_tunnel_state(Seq::<SerialCall>::empty()),
                t.last(),
            ));
            assert(fake_tunnel_run(Seq::<SerialCall>::empty()));
            assert(fake_tunnel_run(t));
        }
        let rx: VecDeque<u8> = VecDeque::new();
        proof {
            assert(rx@ =~= Seq::<u8>::empty());
        }
        FakeSerialTunnel { lines, rx, log: Ghost(t) }
    }

    fn placeholder() -> (r: Self) {
        let lines: VecDeque<String> = VecDeque::new();
        let rx: VecDeque<u8> = VecDeque::new();
        proof {
            assert(texts(lines@) =~= Seq::<Seq<char>>::empty());
            assert(rx@ =~= Seq::<u8>::empty());
        }
        FakeSerialTunnel { lines, rx, log: Ghost(Seq::empty()) }
    }
}

impl Clone for FakeSerialTunnel {
    fn clone(&self) -> (r: Self)
        ensures
            r.transcript() == self.transcript(),
    {
        proof {
            use_type_invariant(self);
        }
        let lines = self.lines.clone();
        let rx = self.rx.clone();
        proof {
            assert forall|i: int| 0 <= i < lines@.len() implies lines@[i] == self.lines@[i] by {
                assert(vstd::pervasive::cloned::<String>(self.lines@[i], lines@[i]));
            }
            assert(lines@ =~= self.lines@);
            assert forall|i: int| 0 <= i < rx@.len() implies rx@[i] == self.rx@[i] by {
                assert(vstd::pervasive::cloned::<u8>(self.rx@[i], rx@[i]));
            }
            assert(rx@ =~= self.rx@);
        }
        FakeSerialTunnel { lines, rx, log: Ghost(self.log@) }
    }
}

impl Default for FakeSerialTunnel {
    /// A tunnel whose one line is the target's hello,
    /// `"ATU10-IMPROVED READY 115200"`, with nothing echoed yet.
    fn default() -> (r: Self)
        ensures
            r.transcript() == seq![
                SerialCall::Queue { lines: seq!["ATU10-IMPROVED READY 115200"@] },
            ],
            r.lines_view() == seq!["ATU10-IMPROVED READY 115200"@],
            r.echo_view() == Seq::<u8>::empty(),
    {
        let mut lines: VecDeque<String> = VecDeque::new();
        lines.push_back(String::from_str("ATU10-IMPROVED READY 115200"));
        proof {
            assert(texts(lines@) =~= seq!["ATU10-IMPROVED READY 115200"@]);
        }
        Self::with_lines(lines)
    }
}

fn short_read(wanted: usize, available: usize) -> (e: Error)
    ensures
        is_serial_error(e, short_read_message(wanted as nat, available as nat)),
{
    let mut m = String::new();
    m.append("wanted ");
    crate::text::push_decimal(&mut m, wanted as u64);
    m.append(" bytes, only ");
    crate::text::push_decimal(&mut m, available as u64);
    m.append(" available");
    Error::Serial(m)
}

/// A transcript extended by one operation that returned what the fake
/// returns is still a fake run, and the state moves by that operation.
proof fn lemma_fake_tunnel_push(t: Seq<SerialCall>, call: SerialCall)
    requires
        fake_tunnel_run(t),
        fake_tunnel_reply(fake_tunnel_state(t), call),
    ensures
        fake_tunnel_run(t.push(call)),
        fake_tunnel_state(t.push(call)) == fake_tunnel_step(fake_tunnel_state(t), call),
{
    assert(t.push(call).drop_last() =~= t);
}

impl SerialTunnel for FakeSerialTunnel {
    closed spec fn transcript(&self) -> Seq<SerialCall> {
        self.log@
    }

    /// Hands out the next queued line.
    fn read_line(&mut self) -> (r: Result<String>)
        ensures
            old(self).lines_view().len() == 0 ==> (r matches Err(e) && is_serial_error(
                e,
                "no line available"@,
            )),
            old(self).lines_view().len() > 0 ==> (r matches Ok(s) && s@ == old(
                self,
            ).lines_view()[0]),
    {
        proof {
            use_type_invariant(&*self);
        }
        let mut fake = Self::placeholder();
        std::mem::swap(self, &mut fake);
        let FakeSerialTunnel { mut lines, rx, log } = fake;
        let ghost before = texts(lines@);
        let r = match lines.pop_front() {
            Some(line) => Ok(line),
            None => Err(Error::Serial(String::from_str("no line available"))),
        };
        let ghost call = SerialCall::ReadLine { line: line_result(r) };
        proof {
            if before.len() > 0 {
                assert(texts(lines@) =~= before.drop_first());
            }
            lemma_fake_tunnel_push(log@, call);
        }
        *self = FakeSerialTunnel { lines, rx, log: Ghost(log@.push(call)) };
        r
    }

    /// Queues the bytes to be read back.
    fn write(&mut self, bytes: &[u8]) -> (r: Result<()>)
        ensures
            r is Ok,
    {
        proof {
            use_type_invariant(&*self);
        }
        let mut fake = Self::placeholder();
        std::mem::swap(self, &mut fake);
        let FakeSerialTunnel { lines, mut rx, log } = fake;
        let ghost start = rx@;
        let mut i: usize = 0;
        while i < bytes.len()
            invariant
                i <= bytes@.len(),
                rx@ == start + bytes@.take(i as int),
            decreases bytes@.len() - i,
        {
            rx.push_back(bytes[i]);
            i = i + 1;
            assert(rx@ =~= start + bytes@.take(i as int));
        }
        assert(bytes@.take(bytes@.len() as int) =~= bytes@);
        let ghost call = SerialCall::Write { bytes: bytes@, done: Ok(()) };
        proof {
            lemma_fake_tunnel_push(log@, call);
        }
        *self = FakeSerialTunnel { lines, rx, log: Ghost(log@.push(call)) };
        Ok(())
    }

    /// Reads back the first `len` queued bytes; fewer than `len` queued is
    /// an error that reads nothing.
    fn read_exact(&mut self, len: usize) -> (r: Result<Vec<u8>>)
        ensures
            old(self).echo_view().len() < len ==> (r matches Err(e) && is_serial_error(
                e,
                short_read_message(len as nat, old(self).echo_view().len()),
            )),
            old(self).echo_view().len() >= len ==> (r matches Ok(v) && v@
                == old(self).echo_view().take(len as int)),
    {
        proof {
            use_type_invariant(&*self);
        }
        let mut fake = Self::placeholder();
        std::mem::swap(self, &mut fake);
        let FakeSerialTunnel { lines, mut rx, log } = fake;
        let ghost start = rx@;
        let r = if rx.len() < len {
            Err(short_read(len, rx.len()))
        } else {
            let mut out: Vec<u8> = Vec::new();
            let mut i: usize = 0;
            while i < len
                invariant
                    i <= len <= start.len(),
                    out@ == start.take(i as int),
                    rx@ == start.skip(i as int),
                decreases len - i,
            {
                match rx.pop_front() {
                    Some(b) => {
                        out.push(b);
                    },
                    None => {},
                }
                i = i + 1;
                assert(out@ =~= start.take(i as int));
                assert(rx@ =~= start.skip(i as int));
            }
            Ok(out)
        };
        let ghost call = SerialCall::ReadExact { len, received: bytes_result(r) };
        proof {
            lemma_fake_tunnel_push(log@, call);
        }
        *self = FakeSerialTunnel { lines, rx, log: Ghost(log@.push(call)) };
        r
    }
}

} // verus!

verus! {

/// The fake tunnel reads back what was written, in order: bytes written
/// after those already queued come back right after them.
pub proof fn lemma_fake_echo(queued: Seq<u8>, written: Seq<u8>)
    ensures
        (queued + written).take(queued.len() as int) == queued,
        (queued + written).skip(queued.len() as int) == written,
{
    assert((queued + written).take(queued.len() as int) =~= queued);
    assert((queued + written).skip(queued.len() as int) =~= written);
}

proof fn lemma_fake_run_prefix(before: Seq<SerialCall>, calls: Seq<SerialCall>, k: int)
    requires
        fake_tunnel_run(before + calls),
        0 <= k < calls.len(),
    ensures
        fake_tunnel_reply(fake_tunnel_state(before + calls.take(k)), calls[k]),
        fake_tunnel_state(before + calls.take(k + 1)) == fake_tunnel_step(
            fake_tunnel_state(before + calls.take(k)),
            calls[k],
        ),
    decreases calls.len(),
{
    let t = before + calls;
    if k == calls.len() - 1 {
        assert(t.drop_last() =~= before + calls.take(k));
        assert(calls.take(k + 1) =~= calls);
        assert((before + calls.take(k + 1)).drop_last() =~= before + calls.take(k));
    } else {
        assert(t.drop_last() =~= before + calls.drop_last());
        assert(calls.drop_last().take(k) =~= calls.take(k));
        assert(calls.drop_last().take(k + 1) =~= calls.take(k + 1));
        lemma_fake_run_prefix(before, calls.drop_last(), k);
    }
}

/// The smoke test run on a fake tunnel that has a line queued and nothing
/// echoed: it passes when that line carries the ready marker, and fails
/// with the hello error otherwise.
pub proof fn lemma_fake_smoke(before: Seq<SerialCall>, calls: Seq<SerialCall>, r: Result<()>)
    requires
        fake_tunnel_run(before + calls),
        smoke_outcome(calls, r),
        fake_tunnel_state(before).0.len() > 0,
        fake_tunnel_state(before).1.len() == 0,
    ensures
        contains_seq(fake_tunnel_state(before).0[0], ready_marker()) ==> r is Ok,
        !contains_seq(fake_tunnel_state(before).0[0], ready_marker()) ==> (r matches Err(e)
            && is_serial_error(e, hello_message(fake_tunnel_state(before).0[0]))),
{
    let hello = fake_tunnel_state(before).0[0];
    assert(before + calls.take(0) =~= before);
    lemma_fake_run_prefix(before, calls, 0);
    if contains_seq(hello, ready_marker()) {
        lemma_fake_run_prefix(before, calls, 1);
        lemma_fake_run_prefix(before, calls, 2);
        assert(Seq::<u8>::empty() + ping() =~= ping());
        assert(ping().take(5) =~= ping());
    }
}

/// The fake tunnel's greeting passes the hello check.
pub proof fn lemma_fake_greeting_is_ready()
    ensures
        contains_seq("ATU10-IMPROVED READY 115200"@, ready_marker()),
{
    reveal_strlit("ATU10-IMPROVED READY 115200");
    reveal_strlit("ATU10-IMPROVED READY");
    let s = "ATU10-IMPROVED READY 115200"@;
    let m = ready_marker();
    assert(m.len() == 20);
    assert(s.subrange(0, 0 + m.len() as int) =~= m);
}

} // verus!

verus! {

/// A byte stream to the target, such as the bridge's CDC port. What it
/// reads, and whether it fails, is the port's to decide.
pub trait LinePort {
    /// Reads one line (see `cdc::accept_line_byte`).
    fn read_line(&mut self) -> Result<String>;

    fn write_bytes(&mut self, bytes: &[u8]) -> Result<()>;

    fn read_bytes(&mut self, len: usize) -> Result<Vec<u8>>;
}

/// A serial tunnel over a port: each operation goes to the port once, in
/// the order asked.
pub struct PortTunnel<P: LinePort> {
    port: P,
    log: Ghost<Seq<SerialCall>>,
}

impl<P: LinePort> PortTunnel<P> {
    /// A tunnel over `port` that has performed no operation.
    pub fn new(port: P) -> (r: Self)
        ensures
            r.transcript() == Seq::<SerialCall>::empty(),
    {
        PortTunnel { port, log: Ghost(Seq::empty()) }
    }
}

impl<P: LinePort> SerialTunnel for PortTunnel<P> {
    closed spec fn transcript(&self) -> Seq<SerialCall> {
        self.log@
    }

    fn read_line(&mut self) -> (r: Result<String>) {
        let r = self.port.read_line();
        self.log = Ghost(self.log@.push(SerialCall::ReadLine { line: line_result(r) }));
        r
    }

    fn write(&mut self, bytes: &[u8]) -> (r: Result<()>) {
        let r = self.port.write_bytes(bytes);
        self.log = Ghost(self.log@.push(SerialCall::Write { bytes: bytes@, done: r }));
        r
    }

    fn read_exact(&mut self, len: usize) -> (r: Result<Vec<u8>>) {
        let r = self.port.read_bytes(len);
        self.log = Ghost(self.log@.push(SerialCall::ReadExact { len, received: bytes_result(r) }));
        r
    }
}

} // verus!
