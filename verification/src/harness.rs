//! Frame building, and runs of the pipeline: byte source -> ring buffer ->
//! parser -> device, one millisecond at a time.

use crate::bounded::{frame_new, frame_push, frame_view, text_view};
use crate::crc::crc16_ccitt;
use crate::frame::{
    byte_sum, check_field, encode_frame, frame_body, stuff, stuffed_byte, Check, FrameFormat, ESC,
    SYNC,
};
use crate::fsm::{
    device_wf, invalid_spec, next_after, packet_in_range, packet_spec, tick_spec, Device, DeviceModel, State,
};
use crate::log::{capture_text, CaptureLogger, Logger};
use crate::parser::{at_rest, cmd_of, feed, fresh_parser, model_wf, step_spec, CmdType, Parser, ParserModel};
use crate::ringbuf::RingBuf;
use vstd::prelude::*;

verus! {

/// The first `n` elements of `s`, or all of `s` when it is shorter.
pub open spec fn first_n(s: Seq<u8>, n: nat) -> Seq<u8> {
    if s.len() <= n {
        s
    } else {
        s.take(n as int)
    }
}

proof fn lemma_first_n_append(p: Seq<u8>, x: Seq<u8>, n: nat)
    ensures
        first_n(first_n(p, n) + x, n) == first_n(p + x, n),
{
    if p.len() > n {
        assert((p.take(n as int) + x).take(n as int) =~= (p + x).take(n as int));
    }
}

/// The bytes that one byte becomes on the wire.
pub open spec fn wire_byte(stuffing: bool, b: u8) -> Seq<u8> {
    if stuffing {
        stuffed_byte(b)
    } else {
        seq![b]
    }
}

/// A byte sequence as it goes on the wire.
pub open spec fn wire(stuffing: bool, s: Seq<u8>) -> Seq<u8> {
    if stuffing {
        stuff(s)
    } else {
        s
    }
}

/// Sending one more byte appends what that byte becomes on the wire.
pub proof fn lemma_wire_push(stuffing: bool, s: Seq<u8>, b: u8)
    ensures
        wire(stuffing, s.push(b)) == wire(stuffing, s) + wire_byte(stuffing, b),
{
    if stuffing {
        assert(s.push(b).drop_last() =~= s);
    }
}

/// Appends `b` (escaped when `stuffing` and `b` is `0xAA` or `0x7D`); bytes
/// that do not fit in the 64 are dropped.
fn push_stuffed(v: &mut heapless::Vec<u8, 64>, b: u8, stuffing: bool)
    ensures
        frame_view(*final(v)) == first_n(frame_view(*old(v)) + wire_byte(stuffing, b), 64),
{
    if stuffing && (b == SYNC || b == ESC) {
        let _ = frame_push(v, ESC);
        let _ = frame_push(v, b ^ 0x20);
        proof {
            let o = frame_view(*old(v));
            let piece = seq![ESC, b ^ 0x20u8];
            if o.len() + 2 <= 64 {
                assert(o + piece =~= o.push(ESC).push(b ^ 0x20u8));
            } else if o.len() + 1 == 64 {
                assert((o + piece).take(64) =~= o.push(ESC));
            } else {
                assert((o + piece).take(64) =~= o);
            }
        }
    } else {
        let _ = frame_push(v, b);
        proof {
            let o = frame_view(*old(v));
            if o.len() >= 64 {
                assert((o + seq![b]).take(64) =~= o);
            } else {
                assert(o + seq![b] =~= o.push(b));
            }
        }
    }
}

/// Builds one frame for `typ` and `payload` in `format`: SYNC, then LEN, TYPE,
/// PAYLOAD and the check field, stuffed when the format says so.  Bytes past
/// the 64 that the buffer holds are dropped.
pub fn make_frame_in(format: FrameFormat, typ: u8, payload: &[u8]) -> (v: heapless::Vec<u8, 64>)
    requires
        payload@.len() <= 64,
    ensures
        frame_view(v) == first_n(encode_frame(format, typ, payload@), 64),
{
    let chk_len = format.check_len();
    let len: u8 = 1 + payload.len() as u8 + chk_len;
    let ghost body = frame_body(format.check, typ, payload@);

    // The bytes that the check field covers: [LEN, TYPE, PAYLOAD...].
    let mut tmp: [u8; 66] = [0; 66];
    let mut t: usize = 0;
    tmp[t] = len;
    t += 1;
    tmp[t] = typ;
    t += 1;
    let mut i: usize = 0;
    while i < payload.len()
        invariant
            payload@.len() <= 64,
            t == i + 2,
            i <= payload@.len(),
            body == seq![len, typ] + payload@,
            tmp@.take(t as int) == body.take(t as int),
        decreases payload.len() - i,
    {
        tmp[t] = payload[i];
        proof {
            assert(tmp@.take(t + 1) =~= body.take(t + 1));
        }
        t += 1;
        i += 1;
    }
    proof {
        assert(body.take(t as int) =~= body);
    }
    let covered = vstd::slice::slice_subrange(tmp.as_slice(), 0, t);
    assert(covered@ =~= body);

    let mut check: [u8; 2] = [0; 2];
    let mut check_n: usize = 1;
    match format.check {
        Check::Sum8 => {
            let mut s: u16 = 0;
            let mut k: usize = 0;
            while k < t
                invariant
                    k <= t,
                    t <= 66,
                    covered@ == body,
                    covered@.len() == t,
                    s == byte_sum(body.take(k as int)),
                    s <= 255 * k,
                decreases t - k,
            {
                proof {
                    assert(body.take(k + 1).drop_last() =~= body.take(k as int));
                }
                s = s.wrapping_add(covered[k] as u16);
                k += 1;
            }
            proof {
                assert(body.take(t as int) =~= body);
                assert(!(s as u8) == (255 - s % 256) as u8) by (bit_vector);
            }
            check[0] = !(s as u8);
        },
        Check::Crc16Low => {
            let crc = crc16_ccitt(covered);
            proof {
                assert(crc & 0xFF == crc % 256) by (bit_vector);
            }
            check[0] = (crc & 0xFF) as u8;
        },
        Check::Crc16Pair => {
            let crc = crc16_ccitt(covered);
            proof {
                assert(crc >> 8 & 0xFF == crc / 256) by (bit_vector);
                assert(crc & 0xFF == crc % 256) by (bit_vector);
            }
            check[0] = ((crc >> 8) & 0xFF) as u8;
            check[1] = (crc & 0xFF) as u8;
            check_n = 2;
        },
    }
    assert(check@.take(check_n as int) =~= check_field(format.check, body));

    // The frame itself: SYNC is never escaped.
    let ghost tail = body + check_field(format.check, body);
    let mut v = frame_new();
    let _ = frame_push(&mut v, SYNC);
    assert(frame_view(v) =~= seq![SYNC]);
    let ghost mut sent: Seq<u8> = Seq::empty();
    let mut j: usize = 0;
    while j < t
        invariant
            j <= t,
            t <= 66,
            covered@ == body,
            covered@.len() == t,
            sent == body.take(j as int),
            frame_view(v) == first_n(seq![SYNC] + wire(format.stuffing, sent), 64),
        decreases t - j,
    {
        let b = covered[j];
        let ghost before = seq![SYNC] + wire(format.stuffing, sent);
        push_stuffed(&mut v, b, format.stuffing);
        proof {
            lemma_first_n_append(before, wire_byte(format.stuffing, b), 64);
            lemma_wire_push(format.stuffing, sent, b);
            assert(body.take(j + 1) =~= sent.push(b));
            assert(before + wire_byte(format.stuffing, b) =~= seq![SYNC] + wire(
                format.stuffing,
                sent.push(b),
            ));
            sent = sent.push(b);
        }
        j += 1;
    }
    proof {
        assert(body.take(t as int) =~= body);
    }
    let mut c: usize = 0;
    while c < check_n
        invariant
            c <= check_n,
            check_n <= 2,
            check_n == check_field(format.check, body).len(),
            check@.take(check_n as int) == check_field(format.check, body),
            sent == body + check_field(format.check, body).take(c as int),
            frame_view(v) == first_n(seq![SYNC] + wire(format.stuffing, sent), 64),
        decreases check_n - c,
    {
        let b = check[c];
        let ghost before = seq![SYNC] + wire(format.stuffing, sent);
        push_stuffed(&mut v, b, format.stuffing);
        proof {
            lemma_first_n_append(before, wire_byte(format.stuffing, b), 64);
            lemma_wire_push(format.stuffing, sent, b);
            assert(body + check_field(format.check, body).take(c + 1) =~= sent.push(b));
            assert(before + wire_byte(format.stuffing, b) =~= seq![SYNC] + wire(
                format.stuffing,
                sent.push(b),
            ));
            sent = sent.push(b);
        }
        c += 1;
    }
    proof {
        assert(check_field(format.check, body).take(check_n as int) =~= check_field(format.check, body));
        assert(sent =~= tail);
    }
    v
}

/// Builds one frame in the plain format (8-bit sum check, no stuffing).
pub fn make_frame(typ: u8, payload: &[u8]) -> (v: heapless::Vec<u8, 64>)
    requires
        payload@.len() <= 64,
    ensures
        frame_view(v) == first_n(encode_frame(FrameFormat { check: Check::Sum8, stuffing: false }, typ, payload@), 64),
{
    make_frame_in(FrameFormat::plain(), typ, payload)
}


/// Where a capture run stands: parser and device, the lines logged so far,
/// how much input has been delivered, how many chunks were taken, and whether
/// every packet so far kept the device's clock arithmetic within `u32`.
pub struct RunState {
    pub parser: ParserModel,
    pub dev: DeviceModel,
    pub lines: Seq<Seq<char>>,
    pub cur: nat,
    pub chunks: nat,
    pub ok: bool,
}

/// Capacity of the ring between the byte source and the parser in a capture run.
pub const CAPTURE_RING: usize = 32;

/// Capacity of the ring in a demo run.
pub const DEMO_RING: usize = 128;

/// The run before the first millisecond, with a parser for `fmt`.
pub open spec fn run_start(fmt: FrameFormat) -> RunState {
    RunState {
        parser: fresh_parser(fmt),
        dev: DeviceModel {
            state: State::Idle,
            now: 0,
            active_since: 0,
            last_cmd: 0,
            next_hb: 0,
            threshold: 3,
        },
        lines: Seq::empty(),
        cur: 0,
        chunks: 0,
        ok: true,
    }
}

/// Size of the `k`-th chunk: the sizes are used in turn, over and over; with
/// no sizes given every chunk is 8 bytes.
pub open spec fn chunk_size(sizes: Seq<usize>, k: nat) -> nat {
    if sizes.len() == 0 {
        8
    } else {
        sizes[(k % sizes.len()) as int] as nat
    }
}

/// One byte through the parser, then the device: a completed frame is handled
/// as a packet, and the device learns the parser's invalid count.
pub open spec fn pump_byte(s: RunState, b: u8) -> RunState {
    let o = step_spec(s.parser, b);
    let (dev1, lines1, ok1) = match o.frame {
        Some(f) => {
            let p = packet_spec(s.dev, cmd_of(f.0), f.1);
            (p.0, s.lines + p.1, s.ok && packet_in_range(s.dev, cmd_of(f.0)))
        },
        None => (s.dev, s.lines, s.ok),
    };
    let inv = invalid_spec(dev1, o.next.invalid);
    RunState { parser: o.next, dev: inv.0, lines: lines1 + inv.1, ok: ok1, ..s }
}

/// The bytes, one after another, through parser and device.
pub open spec fn pump(s: RunState, bytes: Seq<u8>) -> RunState
    decreases bytes.len(),
{
    if bytes.len() == 0 {
        s
    } else {
        pump_byte(pump(s, bytes.drop_last()), bytes.last())
    }
}

/// Size of the chunk taken at run state `s`: the next chunk size, cut to the
/// input that is left; none once the input is used up.
pub open spec fn chunk_len(input: Seq<u8>, sizes: Seq<usize>, s: RunState) -> nat {
    if s.cur < input.len() {
        vstd::math::min(chunk_size(sizes, s.chunks) as int, input.len() - s.cur) as nat
    } else {
        0
    }
}

/// The bytes that reach the parser at run state `s`: the chunk, as far as it
/// fits in the (empty) ring of `cap` bytes.
pub open spec fn delivered(input: Seq<u8>, sizes: Seq<usize>, cap: nat, s: RunState) -> Seq<u8> {
    first_n(input.subrange(s.cur as int, (s.cur + chunk_len(input, sizes, s)) as int), cap)
}

/// The run state once the chunk at `s` has been taken from the input.
pub open spec fn after_chunk(input: Seq<u8>, sizes: Seq<usize>, s: RunState) -> RunState {
    RunState {
        cur: s.cur + chunk_len(input, sizes, s),
        chunks: if s.cur < input.len() {
            s.chunks + 1
        } else {
            s.chunks
        },
        ..s
    }
}

/// The device ticks at `t`.
pub open spec fn tick_run(s: RunState, t: u32) -> RunState {
    RunState { dev: tick_spec(s.dev, t).0, lines: s.lines + tick_spec(s.dev, t).1, ..s }
}

/// Millisecond `t` of a run: while input is left, the next chunk goes into
/// the (empty) ring, which keeps its first `cap` bytes; the ring is drained
/// through parser and device; then the device ticks at `t`.
pub open spec fn run_ms(input: Seq<u8>, sizes: Seq<usize>, cap: nat, s: RunState, t: u32) -> RunState {
    tick_run(pump(after_chunk(input, sizes, s), delivered(input, sizes, cap, s)), t)
}

/// A run through milliseconds `0..t` with a ring of `cap` bytes.
pub open spec fn run_until(fmt: FrameFormat, input: Seq<u8>, sizes: Seq<usize>, cap: nat, t: nat) -> RunState
    decreases t,
{
    if t == 0 {
        run_start(fmt)
    } else {
        run_ms(input, sizes, cap, run_until(fmt, input, sizes, cap, (t - 1) as nat), (t - 1) as u32)
    }
}

proof fn lemma_pump_byte_ok(s: RunState, b: u8)
    ensures
        pump_byte(s, b).ok ==> s.ok,
        pump_byte(s, b).cur == s.cur,
        pump_byte(s, b).chunks == s.chunks,
{
}

proof fn lemma_pump_ok_prefix(s: RunState, bytes: Seq<u8>, j: int)
    requires
        0 <= j <= bytes.len(),
        pump(s, bytes).ok,
    ensures
        pump(s, bytes.take(j)).ok,
    decreases bytes.len(),
{
    if j < bytes.len() {
        lemma_pump_byte_ok(pump(s, bytes.drop_last()), bytes.last());
        lemma_pump_ok_prefix(s, bytes.drop_last(), j);
        assert(bytes.drop_last().take(j) =~= bytes.take(j));
    } else {
        assert(bytes.take(j) =~= bytes);
    }
}

proof fn lemma_pump_keeps(s: RunState, bytes: Seq<u8>)
    ensures
        pump(s, bytes).cur == s.cur,
        pump(s, bytes).chunks == s.chunks,
        pump(s, bytes).ok ==> s.ok,
    decreases bytes.len(),
{
    if bytes.len() > 0 {
        lemma_pump_keeps(s, bytes.drop_last());
        lemma_pump_byte_ok(pump(s, bytes.drop_last()), bytes.last());
    }
}

proof fn lemma_run_ok_prefix(fmt: FrameFormat, input: Seq<u8>, sizes: Seq<usize>, cap: nat, t1: nat, t2: nat)
    requires
        t1 <= t2,
        run_until(fmt, input, sizes, cap, t2).ok,
    ensures
        run_until(fmt, input, sizes, cap, t1).ok,
    decreases t2,
{
    if t1 < t2 {
        let prev = run_until(fmt, input, sizes, cap, (t2 - 1) as nat);
        lemma_pump_keeps(after_chunk(input, sizes, prev), delivered(input, sizes, cap, prev));
        lemma_run_ok_prefix(fmt, input, sizes, cap, t1, (t2 - 1) as nat);
    }
}

/// The end of the clock that a run must keep clear of: every packet's
/// arithmetic stays within `u32` while the clock is at most this.
pub const CLOCK_LIMIT: u32 = 0xFFFF_F3E3;

/// A device whose clock is at most `CLOCK_LIMIT` and whose next heartbeat,
/// while active, is due within 2000 ms.
pub open spec fn clock_clear(d: DeviceModel) -> bool {
    &&& d.now <= CLOCK_LIMIT
    &&& d.state == State::Active ==> d.next_hb <= d.now + 2000
}

proof fn lemma_next_after_bound(next: u32, now: u32)
    requires
        now <= CLOCK_LIMIT,
    ensures
        next_after(next, now) <= if next <= now {
            now + 1000
        } else {
            next as int
        },
    decreases u32::MAX - next,
{
    if next <= now && next < u32::MAX {
        lemma_next_after_bound(next.saturating_add(1000), now);
    }
}

proof fn lemma_pump_byte_clear(s: RunState, b: u8)
    requires
        s.ok,
        clock_clear(s.dev),
    ensures
        pump_byte(s, b).ok,
        clock_clear(pump_byte(s, b).dev),
        pump_byte(s, b).dev.now == s.dev.now,
{
}

proof fn lemma_pump_clear(s: RunState, bytes: Seq<u8>)
    requires
        s.ok,
        clock_clear(s.dev),
    ensures
        pump(s, bytes).ok,
        clock_clear(pump(s, bytes).dev),
        pump(s, bytes).dev.now == s.dev.now,
    decreases bytes.len(),
{
    if bytes.len() > 0 {
        lemma_pump_clear(s, bytes.drop_last());
        lemma_pump_byte_clear(pump(s, bytes.drop_last()), bytes.last());
    }
}

proof fn lemma_run_clear(fmt: FrameFormat, input: Seq<u8>, sizes: Seq<usize>, cap: nat, t: nat)
    requires
        t <= CLOCK_LIMIT + 1,
    ensures
        run_until(fmt, input, sizes, cap, t).ok,
        clock_clear(run_until(fmt, input, sizes, cap, t).dev),
        run_until(fmt, input, sizes, cap, t).dev.now == if t == 0 {
            0
        } else {
            t - 1
        },
    decreases t,
{
    if t > 0 {
        let prev = run_until(fmt, input, sizes, cap, (t - 1) as nat);
        lemma_run_clear(fmt, input, sizes, cap, (t - 1) as nat);
        let s1 = after_chunk(input, sizes, prev);
        lemma_pump_clear(s1, delivered(input, sizes, cap, prev));
        let s2 = pump(s1, delivered(input, sizes, cap, prev));
        lemma_next_after_bound(s2.dev.next_hb, (t - 1) as u32);
    }
}

/// Law (clock arithmetic): a run that ends by `CLOCK_LIMIT` never drives the
/// device's clock arithmetic out of `u32`, whatever its input.
pub proof fn run_within_clock(fmt: FrameFormat, input: Seq<u8>, sizes: Seq<usize>, cap: nat, max_ms: u32)
    requires
        max_ms <= CLOCK_LIMIT,
    ensures
        run_until(fmt, input, sizes, cap, max_ms as nat + 1).ok,
{
    lemma_run_clear(fmt, input, sizes, cap, max_ms as nat + 1);
}

/// Pushes the chunk into an empty ring; what does not fit is dropped.
fn fill_ring<const R: usize>(rb: &mut RingBuf<R>, chunk: &[u8])
    requires
        R > 0,
        old(rb)@.len() == 0,
    ensures
        final(rb)@ == first_n(chunk@, R as nat),
{
    let mut i: usize = 0;
    while i < chunk.len()
        invariant
            R > 0,
            i <= chunk.len(),
            rb@ == first_n(chunk@.take(i as int), R as nat),
        decreases chunk.len() - i,
    {
        let ghost before = chunk@.take(i as int);
        let _ = rb.push(chunk[i]);
        proof {
            let after = chunk@.take(i + 1);
            assert(after =~= before.push(chunk@[i as int]));
            if before.len() > R {
                assert(after.take(R as int) =~= before.take(R as int));
            } else if before.len() == R {
                assert(after.take(R as int) =~= before);
            }
        }
        i += 1;
    }
    assert(chunk@.take(i as int) =~= chunk@);
}

/// Pops every byte of the ring into the parser, calling `on_invalid` with
/// each byte that is an invalid event; a completed frame goes to the device
/// as a packet, and after each byte the device learns the parser's invalid
/// count. Stops with `false` at a packet that would take a timer past the
/// end of the clock.
fn drain_ring<L: Logger, F: Fn(u8), const R: usize>(
    rb: &mut RingBuf<R>,
    parser: &mut Parser,
    dev: &mut Device<L>,
    on_invalid: &F,
    Ghost(s1): Ghost<RunState>,
    Ghost(lines0): Ghost<Seq<Seq<char>>>,
) -> (done: bool)
    requires
        s1.ok,
        forall|b: u8| call_requires(*on_invalid, (b,)),
        old(parser).wf(),
        old(parser)@ == s1.parser,
        old(dev).wf(),
        old(dev).model() == s1.dev,
        old(dev).log.lines() == lines0 + s1.lines,
    ensures
        done == pump(s1, old(rb)@).ok,
        done ==> {
            &&& final(rb)@.len() == 0
            &&& final(parser).wf()
            &&& final(parser)@ == pump(s1, old(rb)@).parser
            &&& final(dev).wf()
            &&& final(dev).model() == pump(s1, old(rb)@).dev
            &&& final(dev).log.lines() == lines0 + pump(s1, old(rb)@).lines
        },
{
    let ghost delivered = rb@;
    let ghost mut st = s1;
    let ghost mut j: int = 0;
    assert(delivered.take(0) =~= Seq::<u8>::empty());
    assert(delivered =~= delivered.take(0) + rb@);
    loop
        invariant
            0 <= j <= delivered.len(),
            delivered == old(rb)@,
            delivered == delivered.take(j) + rb@,
            forall|b: u8| call_requires(*on_invalid, (b,)),
            st.ok,
            st == pump(s1, delivered.take(j)),
            parser.wf(),
            parser@ == st.parser,
            dev.wf(),
            dev.model() == st.dev,
            dev.log.lines() == lines0 + st.lines,
        ensures
            st == pump(s1, delivered),
            st.ok,
            rb@.len() == 0,
            parser.wf(),
            parser@ == st.parser,
            dev.wf(),
            dev.model() == st.dev,
            dev.log.lines() == lines0 + st.lines,
        decreases rb@.len(),
    {
        let ghost before_rb = rb@;
        let ghost s_prev = st;
        match rb.pop() {
            Some(b) => {
                proof {
                    assert(delivered[j] == b) by {
                        assert(delivered[j] == (delivered.take(j) + before_rb)[j]);
                    }
                    assert(delivered.take(j + 1) =~= delivered.take(j).push(b));
                    assert(delivered.take(j + 1).drop_last() =~= delivered.take(j));
                    assert(pump(s1, delivered.take(j + 1)) == pump_byte(s_prev, b));
                }
                let r = parser.step(b, || requires call_requires(*on_invalid, (b,)), { on_invalid(b) });
                match r {
                    Some(pkt) => {
                        if !dev.packet_fits(pkt.typ) {
                            proof {
                                assert(!pump(s1, delivered.take(j + 1)).ok);
                                if pump(s1, delivered).ok {
                                    lemma_pump_ok_prefix(s1, delivered, j + 1);
                                }
                            }
                            return false;
                        }
                        dev.handle_packet(pkt);
                    },
                    None => {},
                }
                let ghost lines_pkt = dev.log.lines();
                dev.on_invalid_consecutive(parser.invalid_consecutive());
                proof {
                    let o = step_spec(s_prev.parser, b);
                    match o.frame {
                        Some(f) => {
                            let p = packet_spec(s_prev.dev, cmd_of(f.0), f.1);
                            assert(lines_pkt =~= lines0 + (s_prev.lines + p.1));
                            let inv = invalid_spec(p.0, o.next.invalid);
                            assert(dev.log.lines() =~= lines0 + (s_prev.lines + p.1 + inv.1));
                        },
                        None => {
                            let inv = invalid_spec(s_prev.dev, o.next.invalid);
                            assert(dev.log.lines() =~= lines0 + (s_prev.lines + inv.1));
                        },
                    }
                    st = pump_byte(s_prev, b);
                    assert(delivered =~= delivered.take(j + 1) + rb@);
                    j = j + 1;
                }
            },
            None => {
                proof {
                    assert(delivered.take(j) + before_rb =~= delivered.take(j));
                    assert(delivered.take(j) =~= delivered);
                }
                break;
            },
        }
    }
    true
}

/// Runs the pipeline: feeds `input` in chunks of `chunk_sizes` (used in turn,
/// one chunk per millisecond) through a ring of `R` bytes (bytes that do not
/// fit are dropped), a parser for `format`, which calls `on_invalid` with
/// each byte that is an invalid event, and a device that logs into `log`;
/// ticks the device at every millisecond `0..=max_ms`. Returns the logger,
/// or stops with `Err` and the logger at a packet that would take a timer
/// past the end of the `u32` clock.
pub fn run_with<L: Logger, F: Fn(u8), const R: usize>(
    format: FrameFormat,
    input: &[u8],
    chunk_sizes: &[usize],
    max_ms: u32,
    log: L,
    on_invalid: F,
) -> (r: Result<L, L>)
    requires
        R > 0,
        max_ms < u32::MAX,
        forall|b: u8| call_requires(on_invalid, (b,)),
    ensures
        r is Ok <==> run_until(format, input@, chunk_sizes@, R as nat, max_ms as nat + 1).ok,
        r matches Ok(out) ==> out.lines() == log.lines() + run_until(
            format,
            input@,
            chunk_sizes@,
            R as nat,
            max_ms as nat + 1,
        ).lines,
{
    let ghost cap = R as nat;
    let ghost lines0 = log.lines();
    let mut rb: RingBuf<R> = RingBuf::new();
    let mut parser = Parser::with_format(format);
    let mut dev = Device::new(log);
    let mut now: u32 = 0;
    let mut cur: usize = 0;
    let mut k: usize = 0;
    let ghost mut st = run_start(format);
    assert(parser@ =~= st.parser);
    while now <= max_ms
        invariant
            max_ms < u32::MAX,
            now <= max_ms + 1,
            forall|b: u8| call_requires(on_invalid, (b,)),
            st.ok,
            st == run_until(format, input@, chunk_sizes@, cap, now as nat),
            cap == R,
            R > 0,
            rb@.len() == 0,
            parser.wf(),
            parser@ == st.parser,
            dev.wf(),
            dev.model() == st.dev,
            dev.log.lines() == lines0 + st.lines,
            cur == st.cur,
            cur <= input@.len(),
            chunk_sizes@.len() > 0 ==> k == st.chunks % chunk_sizes@.len(),
            chunk_sizes@.len() > 0 ==> k < chunk_sizes@.len(),
        decreases max_ms + 1 - now,
    {
        let ghost s0 = st;
        // A chunk of input into the ring.
        let mut n: usize = 0;
        if cur < input.len() {
            let size = if chunk_sizes.len() == 0 {
                8
            } else {
                chunk_sizes[k]
            };
            n = if size < input.len() - cur {
                size
            } else {
                input.len() - cur
            };
            fill_ring(&mut rb, vstd::slice::slice_subrange(input, cur, cur + n));
            if chunk_sizes.len() > 0 {
                proof {
                    let l = chunk_sizes@.len() as int;
                    vstd::arithmetic::div_mod::lemma_add_mod_noop(s0.chunks as int, 1, l);
                    if l == 1 {
                        vstd::arithmetic::div_mod::lemma_mod_self_0(1);
                    } else {
                        vstd::arithmetic::div_mod::lemma_small_mod(1nat, l as nat);
                        if k + 1 < l {
                            vstd::arithmetic::div_mod::lemma_small_mod((k + 1) as nat, l as nat);
                        } else {
                            vstd::arithmetic::div_mod::lemma_mod_self_0(l);
                        }
                    }
                }
                k = if k + 1 == chunk_sizes.len() {
                    0
                } else {
                    k + 1
                };
            }
            cur = cur + n;
        }
        let ghost s1 = after_chunk(input@, chunk_sizes@, s0);
        proof {
            assert(rb@ == delivered(input@, chunk_sizes@, cap, s0));
            lemma_pump_keeps(s1, rb@);
        }
        let ghost dl = rb@;

        // Drain the ring through parser and device, then tick.
        if !drain_ring(&mut rb, &mut parser, &mut dev, &on_invalid, Ghost(s1), Ghost(lines0)) {
            proof {
                assert(!run_until(format, input@, chunk_sizes@, cap, now as nat + 1).ok);
                if run_until(format, input@, chunk_sizes@, cap, max_ms as nat + 1).ok {
                    lemma_run_ok_prefix(format, input@, chunk_sizes@, cap, now as nat + 1, max_ms as nat + 1);
                }
            }
            return Err(dev.log);
        }
        let ghost s2 = pump(s1, dl);
        dev.tick(now);
        proof {
            st = tick_run(s2, now);
            assert(dev.log.lines() =~= lines0 + st.lines);
        }
        now = now + 1;
    }
    proof {
        assert(st == run_until(format, input@, chunk_sizes@, cap, max_ms as nat + 1));
    }
    Ok(dev.log)
}

/// Headless run: as `run_with`, in the plain format, with a 32-byte ring and
/// a capture logger;
/// returns the captured text.
pub fn run_capture(input: &[u8], chunk_sizes: &[usize], max_ms: u32) -> (r: heapless::String<1024>)
    requires
        max_ms < u32::MAX,
        run_until(FrameFormat { check: Check::Sum8, stuffing: false }, input@, chunk_sizes@, CAPTURE_RING as nat, max_ms as nat + 1).ok,
    ensures
        text_view(r) == capture_text(
            run_until(FrameFormat { check: Check::Sum8, stuffing: false }, input@, chunk_sizes@, CAPTURE_RING as nat, max_ms as nat + 1).lines,
        ),
{
    let log = match run_with::<CaptureLogger, _, 32>(
        FrameFormat::plain(),
        input, chunk_sizes, max_ms, CaptureLogger::new(), |_b: u8| {}) {
        Ok(log) => log,
        Err(log) => log,
    };
    proof {
        let run = run_until(FrameFormat { check: Check::Sum8, stuffing: false }, input@, chunk_sizes@, CAPTURE_RING as nat, max_ms as nat + 1);
        assert(Seq::<Seq<char>>::empty() + run.lines =~= run.lines);
    }
    log.take()
}


proof fn lemma_pump_append(s: RunState, a: Seq<u8>, b: Seq<u8>)
    ensures
        pump(s, a + b) == pump(pump(s, a), b),
    decreases b.len(),
{
    if b.len() == 0 {
        assert(a + b =~= a);
    } else {
        lemma_pump_append(s, a, b.drop_last());
        assert((a + b).drop_last() =~= a + b.drop_last());
        assert((a + b).last() == b.last());
    }
}

/// The parser of a run goes through the bytes as feeding them would take it.
proof fn lemma_pump_parser(s: RunState, bytes: Seq<u8>)
    ensures
        pump(s, bytes).parser == feed(s.parser, bytes).0,
    decreases bytes.len(),
{
    if bytes.len() > 0 {
        lemma_pump_parser(s, bytes.drop_last());
    }
}

/// A device in `Error` stays there through bytes that complete no RESET frame.
proof fn lemma_pump_stays_error(s: RunState, bytes: Seq<u8>)
    requires
        s.dev.state == State::Error,
        forall|i: int|
            0 <= i < feed(s.parser, bytes).1.len() ==> cmd_of(#[trigger] feed(s.parser, bytes).1[i].0)
                != CmdType::Reset,
    ensures
        pump(s, bytes).dev.state == State::Error,
    decreases bytes.len(),
{
    if bytes.len() > 0 {
        let init = bytes.drop_last();
        let fi = feed(s.parser, init).1;
        let fb = feed(s.parser, bytes).1;
        let o = step_spec(feed(s.parser, init).0, bytes.last());
        assert forall|i: int| 0 <= i < fi.len() implies cmd_of(#[trigger] fi[i].0) != CmdType::Reset by {
            assert(fb[i] == fi[i]);
        }
        lemma_pump_stays_error(s, init);
        lemma_pump_parser(s, init);
        match o.frame {
            Some(f) => {
                assert(fb[fi.len() as int] == f);
            },
            None => {},
        }
    }
}

/// Invalid bytes while the parser waits for SYNC: the parser counts them, and
/// the device enters `Error` once the count reaches its threshold.
proof fn lemma_pump_noise(s: RunState, noise: Seq<u8>)
    requires
        at_rest(s.parser),
        forall|i: int|
            0 <= i < noise.len() ==> noise[i] != SYNC && !(s.parser.format.stuffing && noise[i] == ESC),
    ensures
        pump(s, noise).parser == (ParserModel {
            invalid: crate::laws::add_invalid(s.parser.invalid, noise.len()),
            ..s.parser
        }),
        pump(s, noise).dev.threshold == s.dev.threshold,
        s.dev.state == State::Error || (noise.len() > 0 && crate::laws::add_invalid(
            s.parser.invalid,
            noise.len(),
        ) >= s.dev.threshold) ==> pump(s, noise).dev.state == State::Error,
    decreases noise.len(),
{
    if noise.len() > 0 {
        let init = noise.drop_last();
        lemma_pump_noise(s, init);
        assert(noise.last() == noise[noise.len() - 1]);
        if s.parser.invalid + init.len() >= u32::MAX {
            assert(crate::laws::add_invalid(s.parser.invalid, noise.len()) == u32::MAX);
        }
    } else {
        assert(ParserModel { invalid: crate::laws::add_invalid(s.parser.invalid, 0), ..s.parser } == s.parser);
    }
}

/// Law (invalid bytes reach the device at once): in a run the device learns
/// the parser's invalid count after every byte, so invalid bytes that bring
/// the count to 3 while the parser waits for SYNC put the device in `Error`
/// right after them, and a frame other than RESET that follows in the same
/// chunk does not take it out again.
pub proof fn noise_in_run_enters_error(s: RunState, noise: Seq<u8>, typ: u8, payload: Seq<u8>)
    requires
        model_wf(s.parser),
        at_rest(s.parser),
        device_wf(s.dev),
        forall|i: int|
            0 <= i < noise.len() ==> noise[i] != SYNC && !(s.parser.format.stuffing && noise[i] == ESC),
        noise.len() > 0,
        s.parser.invalid + noise.len() >= 3,
        payload.len() <= 24,
        cmd_of(typ) != CmdType::Reset,
    ensures
        pump(s, noise).dev.state == State::Error,
        pump(s, noise + encode_frame(s.parser.format, typ, payload)).dev.state == State::Error,
{
    lemma_pump_noise(s, noise);
    let s1 = pump(s, noise);
    let e = encode_frame(s.parser.format, typ, payload);
    crate::laws::frame_roundtrip(s1.parser, typ, payload);
    lemma_pump_append(s, noise, e);
    assert(feed(s1.parser, e).1 == seq![(typ, payload)]);
    lemma_pump_stays_error(s1, e);
}

} // verus!
