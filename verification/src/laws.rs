//! Properties that span several operations of the library.

use crate::crc::crc16_spec;
use crate::frame::{
    byte_sum, check_field, check_len, encode_frame, frame_body, len_byte, stuff,
    sum8_check, Check, FrameFormat, ESC, SYNC,
};
use crate::fsm::{
    deadline, device_wf, errors_line, heartbeat_line, heartbeats, invalid_spec, packet_in_range, packet_spec,
    tick_spec, DeviceModel, State,
};
use crate::harness::{first_n, wire, wire_byte};
use crate::log::{capture_text, CAPTURE_CAP};
use crate::parser::{
    lemma_byte_sum_bound, accept, at_rest, body_crc, feed, model_wf, phase_outcome, reject, step_spec, sum8_expected,
    CmdType, ParserModel, Phase, StepOutcome,
};
use vstd::prelude::*;

verus! {

/// The frames that feeding already-unstuffed bytes completes.
spec fn plain_feed(m: ParserModel, bytes: Seq<u8>) -> (ParserModel, Seq<(u8, Seq<u8>)>)
    decreases bytes.len(),
{
    if bytes.len() == 0 {
        (m, Seq::empty())
    } else {
        let (m1, frames) = plain_feed(m, bytes.drop_last());
        let o = phase_outcome(m1, bytes.last());
        (
            o.next,
            match o.frame {
                Some(f) => frames.push(f),
                None => frames,
            },
        )
    }
}

spec fn with_frame(frames: Seq<(u8, Seq<u8>)>, o: StepOutcome) -> Seq<(u8, Seq<u8>)> {
    match o.frame {
        Some(f) => frames.push(f),
        None => frames,
    }
}

proof fn lemma_feed_append(m: ParserModel, a: Seq<u8>, b: Seq<u8>)
    ensures
        feed(m, a + b) == (feed(feed(m, a).0, b).0, feed(m, a).1 + feed(feed(m, a).0, b).1),
    decreases b.len(),
{
    if b.len() == 0 {
        assert(a + b =~= a);
        assert(feed(m, a).1 + Seq::empty() =~= feed(m, a).1);
    } else {
        lemma_feed_append(m, a, b.drop_last());
        assert((a + b).drop_last() =~= a + b.drop_last());
        let mid = feed(m, a).0;
        let o = step_spec(feed(mid, b.drop_last()).0, b.last());
        match o.frame {
            Some(f) => {
                assert(feed(m, a).1 + feed(mid, b.drop_last()).1.push(f) =~= (feed(m, a).1 + feed(
                    mid,
                    b.drop_last(),
                ).1).push(f));
            },
            None => {},
        }
    }
}

proof fn lemma_plain_feed_append(m: ParserModel, a: Seq<u8>, b: Seq<u8>)
    ensures
        plain_feed(m, a + b) == (
            plain_feed(plain_feed(m, a).0, b).0,
            plain_feed(m, a).1 + plain_feed(plain_feed(m, a).0, b).1,
        ),
    decreases b.len(),
{
    if b.len() == 0 {
        assert(a + b =~= a);
        assert(plain_feed(m, a).1 + Seq::empty() =~= plain_feed(m, a).1);
    } else {
        lemma_plain_feed_append(m, a, b.drop_last());
        assert((a + b).drop_last() =~= a + b.drop_last());
        let mid = plain_feed(m, a).0;
        let o = phase_outcome(plain_feed(mid, b.drop_last()).0, b.last());
        match o.frame {
            Some(f) => {
                assert(plain_feed(m, a).1 + plain_feed(mid, b.drop_last()).1.push(f) =~= (
                plain_feed(m, a).1 + plain_feed(mid, b.drop_last()).1).push(f));
            },
            None => {},
        }
    }
}

proof fn lemma_feed_one(m: ParserModel, b: u8)
    ensures
        feed(m, seq![b]) == (step_spec(m, b).next, with_frame(Seq::empty(), step_spec(m, b))),
{
    assert(seq![b].drop_last() =~= Seq::<u8>::empty());
    assert(feed(m, Seq::<u8>::empty()) == (m, Seq::<(u8, Seq<u8>)>::empty()));
}

proof fn lemma_plain_feed_one(m: ParserModel, b: u8)
    ensures
        plain_feed(m, seq![b]) == (
            phase_outcome(m, b).next,
            with_frame(Seq::empty(), phase_outcome(m, b)),
        ),
{
    assert(seq![b].drop_last() =~= Seq::<u8>::empty());
    assert(plain_feed(m, Seq::<u8>::empty()) == (m, Seq::<(u8, Seq<u8>)>::empty()));
}

/// Unstuffing keeps the escape flag and the format.
proof fn lemma_phase_outcome_keeps(m: ParserModel, b: u8)
    ensures
        phase_outcome(m, b).next.escape_next == m.escape_next,
        phase_outcome(m, b).next.format == m.format,
{
}

proof fn lemma_plain_feed_keeps(m: ParserModel, s: Seq<u8>)
    ensures
        plain_feed(m, s).0.escape_next == m.escape_next,
        plain_feed(m, s).0.format == m.format,
    decreases s.len(),
{
    if s.len() > 0 {
        lemma_plain_feed_keeps(m, s.drop_last());
        lemma_phase_outcome_keeps(plain_feed(m, s.drop_last()).0, s.last());
    }
}

/// One byte as sent on the wire is taken in as that byte.
proof fn lemma_feed_wire_byte(m: ParserModel, c: u8)
    requires
        !m.escape_next,
    ensures
        feed(m, wire_byte(m.format.stuffing, c)) == plain_feed(m, seq![c]),
{
    lemma_plain_feed_one(m, c);
    if m.format.stuffing && (c == SYNC || c == ESC) {
        let s = seq![ESC, c ^ 0x20u8];
        assert(s.drop_last() =~= seq![ESC]);
        lemma_feed_one(m, ESC);
        let m1 = ParserModel { escape_next: true, ..m };
        assert((c ^ 0x20u8) ^ 0x20u8 == c) by (bit_vector);
        assert(ParserModel { escape_next: false, ..m1 } == m);
    } else {
        lemma_feed_one(m, c);
    }
}

/// Feeding bytes as sent on the wire takes in the unstuffed bytes.
proof fn lemma_feed_wire(m: ParserModel, s: Seq<u8>)
    requires
        !m.escape_next,
    ensures
        feed(m, wire(m.format.stuffing, s)) == plain_feed(m, s),
    decreases s.len(),
{
    if s.len() > 0 {
        let init = s.drop_last();
        let c = s.last();
        lemma_feed_wire(m, init);
        crate::harness::lemma_wire_push(m.format.stuffing, init, c);
        assert(init.push(c) =~= s);
        lemma_feed_append(m, wire(m.format.stuffing, init), wire_byte(m.format.stuffing, c));
        let mid = plain_feed(m, init).0;
        lemma_plain_feed_keeps(m, init);
        lemma_feed_wire_byte(mid, c);
        lemma_plain_feed_one(mid, c);
        lemma_plain_feed_append(m, init, seq![c]);
        assert(init + seq![c] =~= s);
    }
}

proof fn lemma_byte_sum_append(a: Seq<u8>, b: Seq<u8>)
    ensures
        byte_sum(a + b) == byte_sum(a) + byte_sum(b),
    decreases b.len(),
{
    if b.len() == 0 {
        assert(a + b =~= a);
    } else {
        lemma_byte_sum_append(a, b.drop_last());
        assert((a + b).drop_last() =~= a + b.drop_last());
    }
}

/// The parser while it reads the payload of a frame, after `k` payload bytes.
spec fn reading(m: ParserModel, len: u8, typ: u8, payload: Seq<u8>, k: int) -> ParserModel {
    ParserModel {
        phase: Phase::ReadPayload {
            len,
            typ,
            remain: (payload.len() - k) as u8,
            sum: if m.format.check == Check::Sum8 {
                byte_sum(payload.take(k)) as u16
            } else {
                0
            },
        },
        payload: payload.take(k),
        ..m
    }
}

proof fn lemma_feed_payload(m: ParserModel, len: u8, typ: u8, payload: Seq<u8>, k: int)
    requires
        payload.len() <= 24,
        0 <= k <= payload.len(),
    ensures
        plain_feed(reading(m, len, typ, payload, 0), payload.take(k)) == (
            reading(m, len, typ, payload, k),
            Seq::<(u8, Seq<u8>)>::empty(),
        ),
    decreases k,
{
    if k == 0 {
        assert(payload.take(0) =~= Seq::<u8>::empty());
        assert(reading(m, len, typ, payload, 0) == reading(m, len, typ, payload, k));
    } else {
        lemma_feed_payload(m, len, typ, payload, k - 1);
        assert(payload.take(k).drop_last() =~= payload.take(k - 1));
        assert(payload.take(k - 1).push(payload[k - 1]) =~= payload.take(k));
        lemma_byte_sum_bound(payload.take(k));
        assert(byte_sum(payload.take(k)) == byte_sum(payload.take(k - 1)) + payload[k - 1]);
    }
}

/// LEN and TYPE of a frame with `payload` take a parser that awaits LEN to
/// the start of the payload.
proof fn lemma_feed_header(m: ParserModel, typ: u8, payload: Seq<u8>)
    requires
        m.phase == Phase::ReadLen,
        m.payload.len() == 0,
        payload.len() <= 24,
    ensures
        plain_feed(m, seq![len_byte(m.format.check, payload.len()), typ]) == (
            reading(m, len_byte(m.format.check, payload.len()), typ, payload, 0),
            Seq::<(u8, Seq<u8>)>::empty(),
        ),
{
    let len = len_byte(m.format.check, payload.len());
    let m2 = ParserModel { phase: Phase::ReadType { len }, ..m };
    let m3 = reading(m, len, typ, payload, 0);
    assert(len.saturating_sub((1 + check_len(m.format.check)) as u8) == payload.len());
    assert(payload.take(0) =~= Seq::<u8>::empty());
    lemma_plain_feed_one(m, len);
    lemma_plain_feed_one(m2, typ);
    assert(phase_outcome(m2, typ).next == m3);
    lemma_plain_feed_append(m, seq![len], seq![typ]);
    assert(seq![len] + seq![typ] =~= seq![len, typ]);
}

/// The check field of a frame closes it: the parser hands out the frame.
#[verifier::rlimit(30)]
proof fn lemma_feed_check(m: ParserModel, typ: u8, payload: Seq<u8>)
    requires
        m.crc_hi is None,
        payload.len() <= 24,
    ensures
        ({
            let len = len_byte(m.format.check, payload.len());
            let body = frame_body(m.format.check, typ, payload);
            let m4 = reading(m, len, typ, payload, payload.len() as int);
            plain_feed(m4, check_field(m.format.check, body)) == (
                accept(m4),
                seq![(typ, payload)],
            )
        }),
{
    let c = m.format.check;
    let len = len_byte(c, payload.len());
    let body = frame_body(c, typ, payload);
    let chk = check_field(c, body);
    let m4 = reading(m, len, typ, payload, payload.len() as int);
    assert(payload.take(payload.len() as int) =~= payload);
    assert(m4.payload == payload);
    assert(body_crc(len, typ, payload) == crc16_spec(body)) by {
        assert(seq![len, typ] + payload =~= body);
    }
    assert(seq![(typ, payload)] =~= Seq::<(u8, Seq<u8>)>::empty().push((typ, payload)));
    match c {
        Check::Sum8 => {
            lemma_byte_sum_bound(payload);
            lemma_byte_sum_append(seq![len, typ], payload);
            assert(seq![len, typ].drop_last() =~= seq![len]);
            assert(seq![len].drop_last() =~= Seq::<u8>::empty());
            assert(byte_sum(Seq::<u8>::empty()) == 0);
            assert(byte_sum(seq![len]) == len);
            assert(byte_sum(seq![len, typ]) == len + typ);
            assert(byte_sum(body) == len + typ + byte_sum(payload)) by {
                assert(body =~= seq![len, typ] + payload);
            }
            assert(sum8_expected(len, typ, byte_sum(payload) as u16) == chk[0]);
            lemma_plain_feed_one(m4, chk[0]);
            assert(chk =~= seq![chk[0]]);
        },
        Check::Crc16Low => {
            lemma_plain_feed_one(m4, chk[0]);
            assert(chk =~= seq![chk[0]]);
        },
        Check::Crc16Pair => {
            let hi = chk[0];
            let lo = chk[1];
            assert(chk =~= seq![hi] + seq![lo]);
            lemma_plain_feed_one(m4, hi);
            let m5 = ParserModel { crc_hi: Some(hi), ..m4 };
            assert(phase_outcome(m4, hi).next == m5);
            lemma_plain_feed_one(m5, lo);
            assert(accept(ParserModel { crc_hi: None, ..m5 }) == accept(m4));
            lemma_plain_feed_append(m4, seq![hi], seq![lo]);
        },
    }
}

/// Law (builder and parser agree): a parser at rest that is fed a frame built
/// in its own format hands out exactly that frame's TYPE byte and payload, and
/// is at rest again with the invalid counter cleared.
pub proof fn frame_roundtrip(m: ParserModel, typ: u8, payload: Seq<u8>)
    requires
        model_wf(m),
        at_rest(m),
        payload.len() <= 24,
    ensures
        feed(m, encode_frame(m.format, typ, payload)) == (accept(m), seq![(typ, payload)]),
{
    let fmt = m.format;
    let c = fmt.check;
    let len = len_byte(c, payload.len());
    let body = frame_body(c, typ, payload);
    let chk = check_field(c, body);
    let tail = body + chk;
    let none = Seq::<(u8, Seq<u8>)>::empty();
    assert(encode_frame(fmt, typ, payload) =~= seq![SYNC] + wire(fmt.stuffing, tail));

    // SYNC is taken in as it is; the rest is taken in unstuffed.
    lemma_feed_append(m, seq![SYNC], wire(fmt.stuffing, tail));
    lemma_feed_one(m, SYNC);
    let m1 = ParserModel { phase: Phase::ReadLen, ..m };
    assert(feed(m, seq![SYNC]) == (m1, none));
    lemma_feed_wire(m1, tail);

    // LEN and TYPE, then the payload.
    lemma_feed_header(m1, typ, payload);
    lemma_feed_payload(m1, len, typ, payload, payload.len() as int);
    assert(payload.take(payload.len() as int) =~= payload);
    lemma_plain_feed_append(m1, seq![len, typ], payload);
    assert(body =~= seq![len, typ] + payload);
    assert(none + none =~= none);
    let m4 = reading(m1, len, typ, payload, payload.len() as int);
    assert(plain_feed(m1, body) == (m4, none));

    // The check field.
    lemma_feed_check(m1, typ, payload);
    lemma_plain_feed_append(m1, body, chk);
    assert(none + seq![(typ, payload)] =~= seq![(typ, payload)]);
    assert(accept(m4) == accept(m));
}


/// Feeding `bytes` to `m` raises no invalid event and completes no frame.
spec fn quiet(m: ParserModel, bytes: Seq<u8>) -> bool
    decreases bytes.len(),
{
    if bytes.len() == 0 {
        true
    } else {
        let o = step_spec(feed(m, bytes.drop_last()).0, bytes.last());
        quiet(m, bytes.drop_last()) && !o.invalid && o.frame is None
    }
}

/// The same for already-unstuffed bytes.
spec fn plain_quiet(m: ParserModel, bytes: Seq<u8>) -> bool
    decreases bytes.len(),
{
    if bytes.len() == 0 {
        true
    } else {
        let o = phase_outcome(plain_feed(m, bytes.drop_last()).0, bytes.last());
        plain_quiet(m, bytes.drop_last()) && !o.invalid && o.frame is None
    }
}

proof fn lemma_quiet_index(m: ParserModel, bytes: Seq<u8>)
    requires
        quiet(m, bytes),
    ensures
        forall|k: int|
            0 <= k < bytes.len() ==> {
                &&& !(#[trigger] step_spec(feed(m, bytes.take(k)).0, bytes[k])).invalid
                &&& step_spec(feed(m, bytes.take(k)).0, bytes[k]).frame is None
            },
    decreases bytes.len(),
{
    if bytes.len() > 0 {
        let init = bytes.drop_last();
        lemma_quiet_index(m, init);
        assert forall|k: int| 0 <= k < bytes.len() implies {
            &&& !(#[trigger] step_spec(feed(m, bytes.take(k)).0, bytes[k])).invalid
            &&& step_spec(feed(m, bytes.take(k)).0, bytes[k]).frame is None
        } by {
            if k < init.len() {
                assert(init.take(k) =~= bytes.take(k));
                assert(init[k] == bytes[k]);
                assert(step_spec(feed(m, init.take(k)).0, init[k]) == step_spec(feed(m, bytes.take(k)).0, bytes[k]));
            } else {
                assert(bytes.take(k) =~= init);
            }
        }
    }
}

proof fn lemma_plain_quiet_no_frames(m: ParserModel, bytes: Seq<u8>)
    requires
        plain_quiet(m, bytes),
    ensures
        plain_feed(m, bytes).1.len() == 0,
    decreases bytes.len(),
{
    if bytes.len() > 0 {
        lemma_plain_quiet_no_frames(m, bytes.drop_last());
    }
}

proof fn lemma_quiet_append(m: ParserModel, a: Seq<u8>, b: Seq<u8>)
    ensures
        quiet(m, a + b) == (quiet(m, a) && quiet(feed(m, a).0, b)),
    decreases b.len(),
{
    if b.len() == 0 {
        assert(a + b =~= a);
    } else {
        lemma_quiet_append(m, a, b.drop_last());
        assert((a + b).drop_last() =~= a + b.drop_last());
        lemma_feed_append(m, a, b.drop_last());
    }
}

proof fn lemma_plain_quiet_append(m: ParserModel, a: Seq<u8>, b: Seq<u8>)
    ensures
        plain_quiet(m, a + b) == (plain_quiet(m, a) && plain_quiet(plain_feed(m, a).0, b)),
    decreases b.len(),
{
    if b.len() == 0 {
        assert(a + b =~= a);
    } else {
        lemma_plain_quiet_append(m, a, b.drop_last());
        assert((a + b).drop_last() =~= a + b.drop_last());
        lemma_plain_feed_append(m, a, b.drop_last());
    }
}

proof fn lemma_quiet_one(m: ParserModel, c: u8)
    ensures
        quiet(m, seq![c]) == (!step_spec(m, c).invalid && step_spec(m, c).frame is None),
{
    let e = Seq::<u8>::empty();
    assert(seq![c].drop_last() =~= e);
    assert(quiet(m, e));
    assert(feed(m, e).0 == m);
}

proof fn lemma_plain_quiet_one(m: ParserModel, c: u8)
    ensures
        plain_quiet(m, seq![c]) == (!phase_outcome(m, c).invalid && phase_outcome(m, c).frame is None),
{
    let e = Seq::<u8>::empty();
    assert(seq![c].drop_last() =~= e);
    assert(plain_quiet(m, e));
    assert(plain_feed(m, e).0 == m);
}

/// A byte that completes a frame is no invalid event.
proof fn lemma_frame_not_invalid(m: ParserModel, b: u8)
    ensures
        phase_outcome(m, b).frame is Some ==> !phase_outcome(m, b).invalid,
{
}

/// One byte as sent on the wire: what comes before its last wire byte is
/// quiet, and that last wire byte does what the byte itself does.
proof fn lemma_wire_byte_steps(m: ParserModel, c: u8)
    requires
        !m.escape_next,
    ensures
        ({
            let w = wire_byte(m.format.stuffing, c);
            &&& w.len() > 0
            &&& quiet(m, w.drop_last())
            &&& step_spec(feed(m, w.drop_last()).0, w.last()) == phase_outcome(m, c)
            &&& quiet(m, w) == plain_quiet(m, seq![c])
        }),
{
    let w = wire_byte(m.format.stuffing, c);
    let e = Seq::<u8>::empty();
    lemma_plain_quiet_one(m, c);
    assert(quiet(m, e));
    assert(feed(m, e).0 == m);
    if m.format.stuffing && (c == SYNC || c == ESC) {
        let x = c ^ 0x20u8;
        assert(w == seq![ESC, x]);
        assert(w.drop_last() =~= seq![ESC]);
        assert(w =~= seq![ESC] + seq![x]);
        lemma_feed_one(m, ESC);
        lemma_quiet_one(m, ESC);
        let m1 = ParserModel { escape_next: true, ..m };
        assert(step_spec(m, ESC).next == m1);
        assert(feed(m, w.drop_last()).0 == m1);
        assert(x ^ 0x20u8 == c) by (bit_vector)
            requires x == c ^ 0x20u8;
        assert(ParserModel { escape_next: false, ..m1 } == m);
        assert(step_spec(m1, x) == phase_outcome(m, c));
        lemma_quiet_one(m1, x);
        lemma_quiet_append(m, seq![ESC], seq![x]);
    } else {
        assert(w == seq![c]);
        assert(w.drop_last() =~= e);
        assert(step_spec(m, c) == phase_outcome(m, c));
        lemma_quiet_one(m, c);
    }
}

/// Feeding bytes as sent on the wire is quiet exactly when feeding the
/// unstuffed bytes is.
proof fn lemma_quiet_wire(m: ParserModel, s: Seq<u8>)
    requires
        !m.escape_next,
    ensures
        quiet(m, wire(m.format.stuffing, s)) == plain_quiet(m, s),
    decreases s.len(),
{
    if s.len() > 0 {
        let init = s.drop_last();
        let c = s.last();
        lemma_quiet_wire(m, init);
        crate::harness::lemma_wire_push(m.format.stuffing, init, c);
        assert(init.push(c) =~= s);
        lemma_quiet_append(m, wire(m.format.stuffing, init), wire_byte(m.format.stuffing, c));
        lemma_feed_wire(m, init);
        let mid = plain_feed(m, init).0;
        lemma_plain_feed_keeps(m, init);
        lemma_wire_byte_steps(mid, c);
        lemma_plain_quiet_append(m, init, seq![c]);
        assert(init + seq![c] =~= s);
    }
}

/// The payload bytes of a frame are quiet.
proof fn lemma_payload_quiet(m: ParserModel, len: u8, typ: u8, payload: Seq<u8>, k: int)
    requires
        payload.len() <= 24,
        0 <= k <= payload.len(),
    ensures
        plain_quiet(reading(m, len, typ, payload, 0), payload.take(k)),
    decreases k,
{
    if k > 0 {
        lemma_payload_quiet(m, len, typ, payload, k - 1);
        lemma_feed_payload(m, len, typ, payload, k - 1);
        assert(payload.take(k).drop_last() =~= payload.take(k - 1));
        assert(payload.take(k).last() == payload[k - 1]);
        assert(reading(m, len, typ, payload, k - 1).payload.len() == k - 1);
    } else {
        assert(payload.take(0) =~= Seq::<u8>::empty());
    }
}

/// LEN and TYPE of a frame are quiet.
proof fn lemma_header_quiet(m: ParserModel, typ: u8, payload: Seq<u8>)
    requires
        m.phase == Phase::ReadLen,
        payload.len() <= 24,
    ensures
        plain_quiet(m, seq![len_byte(m.format.check, payload.len()), typ]),
{
    let len = len_byte(m.format.check, payload.len());
    assert(2 <= len <= 32);
    lemma_plain_quiet_one(m, len);
    lemma_plain_feed_one(m, len);
    let m2 = ParserModel { phase: Phase::ReadType { len }, ..m };
    assert(plain_feed(m, seq![len]).0 == m2);
    lemma_plain_quiet_one(m2, typ);
    lemma_plain_quiet_append(m, seq![len], seq![typ]);
    assert(seq![len] + seq![typ] =~= seq![len, typ]);
}

/// The check field of a frame: every byte but the last is quiet, and the
/// last completes the frame without an invalid event.
proof fn lemma_check_steps(m: ParserModel, typ: u8, payload: Seq<u8>)
    requires
        m.crc_hi is None,
        payload.len() <= 24,
    ensures
        ({
            let len = len_byte(m.format.check, payload.len());
            let chk = check_field(m.format.check, frame_body(m.format.check, typ, payload));
            let m4 = reading(m, len, typ, payload, payload.len() as int);
            let o = phase_outcome(plain_feed(m4, chk.drop_last()).0, chk.last());
            &&& chk.len() > 0
            &&& plain_quiet(m4, chk.drop_last())
            &&& !o.invalid
            &&& o.frame == Some((typ, payload))
            &&& plain_feed(m4, chk.drop_last()).0.escape_next == m.escape_next
            &&& plain_feed(m4, chk.drop_last()).0.format == m.format
        }),
{
    let c = m.format.check;
    let len = len_byte(c, payload.len());
    let body = frame_body(c, typ, payload);
    let chk = check_field(c, body);
    let m4 = reading(m, len, typ, payload, payload.len() as int);
    lemma_feed_check(m, typ, payload);
    lemma_plain_feed_keeps(m4, chk.drop_last());
    let e = Seq::<u8>::empty();
    if c == Check::Crc16Pair {
        assert(chk.drop_last() =~= seq![chk[0]]);
        assert(m4.phase matches Phase::ReadPayload { remain, .. } && remain == 0);
        lemma_plain_quiet_one(m4, chk[0]);
    } else {
        assert(chk.drop_last() =~= e);
        assert(plain_quiet(m4, e));
    }
    lemma_plain_quiet_no_frames(m4, chk.drop_last());
    let o = phase_outcome(plain_feed(m4, chk.drop_last()).0, chk.last());
    assert(plain_feed(m4, chk).1 == with_frame(plain_feed(m4, chk.drop_last()).1, o));
    assert(with_frame(Seq::empty(), o) == seq![(typ, payload)]);
    lemma_frame_not_invalid(plain_feed(m4, chk.drop_last()).0, chk.last());
}

/// The bytes after SYNC, unstuffed: every byte but the last is quiet, and
/// the last completes the frame without an invalid event.
#[verifier::rlimit(40)]
proof fn lemma_tail_steps(m1: ParserModel, typ: u8, payload: Seq<u8>)
    requires
        m1.phase == Phase::ReadLen,
        m1.payload.len() == 0,
        m1.crc_hi is None,
        payload.len() <= 24,
    ensures
        ({
            let body = frame_body(m1.format.check, typ, payload);
            let tail = body + check_field(m1.format.check, body);
            let mid = plain_feed(m1, tail.drop_last()).0;
            &&& tail.len() > 0
            &&& plain_quiet(m1, tail.drop_last())
            &&& mid.escape_next == m1.escape_next
            &&& mid.format == m1.format
            &&& !phase_outcome(mid, tail.last()).invalid
            &&& phase_outcome(mid, tail.last()).frame == Some((typ, payload))
        }),
{
    let c = m1.format.check;
    let len = len_byte(c, payload.len());
    let body = frame_body(c, typ, payload);
    let chk = check_field(c, body);
    let tail = body + chk;
    let m4 = reading(m1, len, typ, payload, payload.len() as int);
    lemma_check_steps(m1, typ, payload);
    assert(tail.drop_last() =~= body + chk.drop_last());
    assert(tail.last() == chk.last());
    lemma_feed_header(m1, typ, payload);
    lemma_feed_payload(m1, len, typ, payload, payload.len() as int);
    lemma_header_quiet(m1, typ, payload);
    lemma_payload_quiet(m1, len, typ, payload, payload.len() as int);
    assert(payload.take(payload.len() as int) =~= payload);
    lemma_plain_feed_append(m1, seq![len, typ], payload);
    lemma_plain_quiet_append(m1, seq![len, typ], payload);
    assert(body =~= seq![len, typ] + payload);
    assert(plain_feed(m1, body).0 == m4);
    lemma_plain_feed_append(m1, body, chk.drop_last());
    lemma_plain_quiet_append(m1, body, chk.drop_last());
}

/// Sending bytes on the wire: when the unstuffed bytes before the last are
/// quiet, so are the wire bytes before the last, and the last wire byte does
/// what the last byte does.
proof fn lemma_wire_last(m: ParserModel, s: Seq<u8>)
    requires
        !m.escape_next,
        s.len() > 0,
        plain_quiet(m, s.drop_last()),
    ensures
        ({
            let w = wire(m.format.stuffing, s);
            &&& w.len() > 0
            &&& quiet(m, w.drop_last())
            &&& step_spec(feed(m, w.drop_last()).0, w.last()) == phase_outcome(
                plain_feed(m, s.drop_last()).0,
                s.last(),
            )
        }),
{
    let st = m.format.stuffing;
    let init = s.drop_last();
    let c = s.last();
    crate::harness::lemma_wire_push(st, init, c);
    assert(init.push(c) =~= s);
    let wb = wire_byte(st, c);
    let w = wire(st, s);
    lemma_feed_wire(m, init);
    lemma_quiet_wire(m, init);
    lemma_plain_feed_keeps(m, init);
    let mid = plain_feed(m, init).0;
    lemma_wire_byte_steps(mid, c);
    assert(w =~= wire(st, init) + wb);
    assert(w.drop_last() =~= wire(st, init) + wb.drop_last());
    lemma_quiet_append(m, wire(st, init), wb.drop_last());
    lemma_feed_append(m, wire(st, init), wb.drop_last());
}

/// Law (builder and parser agree, byte by byte): fed one byte at a time to a
/// parser at rest, no byte of a frame built in the parser's own format is an
/// invalid event, and only its last byte completes a frame, which carries
/// that frame's TYPE byte and payload.
#[verifier::rlimit(40)]
pub proof fn frame_roundtrip_per_byte(m: ParserModel, typ: u8, payload: Seq<u8>)
    requires
        model_wf(m),
        at_rest(m),
        payload.len() <= 24,
    ensures
        ({
            let e = encode_frame(m.format, typ, payload);
            &&& forall|k: int|
                0 <= k < e.len() ==> !(#[trigger] step_spec(feed(m, e.take(k)).0, e[k])).invalid
            &&& forall|k: int|
                0 <= k < e.len() - 1 ==> (#[trigger] step_spec(feed(m, e.take(k)).0, e[k])).frame is None
            &&& step_spec(feed(m, e.drop_last()).0, e.last()).frame == Some((typ, payload))
        }),
{
    let fmt = m.format;
    let body = frame_body(fmt.check, typ, payload);
    let tail = body + check_field(fmt.check, body);
    let e = encode_frame(fmt, typ, payload);
    let m1 = ParserModel { phase: Phase::ReadLen, ..m };
    lemma_tail_steps(m1, typ, payload);
    lemma_wire_last(m1, tail);
    let w = wire(fmt.stuffing, tail);
    assert(e =~= seq![SYNC] + w);
    assert(e.drop_last() =~= seq![SYNC] + w.drop_last());
    assert(e.last() == w.last());
    lemma_feed_one(m, SYNC);
    lemma_quiet_one(m, SYNC);
    assert(feed(m, seq![SYNC]).0 == m1);
    lemma_quiet_append(m, seq![SYNC], w.drop_last());
    lemma_feed_append(m, seq![SYNC], w.drop_last());
    lemma_quiet_index(m, e.drop_last());
    assert forall|k: int| 0 <= k < e.len() implies !(#[trigger] step_spec(feed(m, e.take(k)).0, e[k])).invalid
        && (k < e.len() - 1 ==> step_spec(feed(m, e.take(k)).0, e[k]).frame is None) by {
        if k < e.len() - 1 {
            assert(e.drop_last().take(k) =~= e.take(k));
            assert(e.drop_last()[k] == e[k]);
        } else {
            assert(e.take(k) =~= e.drop_last());
        }
    }
}

/// Law (recovery): once in `Error`, the device stays there through ticks and
/// further invalid reports, and every packet but RESET leaves it in `Error`;
/// RESET takes it to `Idle`.
pub proof fn error_left_only_by_reset(d: DeviceModel, now: u32, n: u32, typ: CmdType, payload: Seq<u8>)
    requires
        d.state == State::Error,
    ensures
        tick_spec(d, now).0.state == State::Error,
        invalid_spec(d, n).0.state == State::Error,
        typ != CmdType::Reset ==> packet_spec(d, typ, payload).0.state == State::Error,
        typ == CmdType::Reset ==> packet_spec(d, typ, payload).0.state == State::Idle,
{
}

/// Law (activation): the device becomes `Active` only by a START while `Idle`;
/// ticks and invalid reports never activate it.
pub proof fn activation_only_by_start(d: DeviceModel, now: u32, n: u32, typ: CmdType, payload: Seq<u8>)
    requires
        d.state != State::Active,
    ensures
        tick_spec(d, now).0.state != State::Active,
        invalid_spec(d, n).0.state != State::Active,
        packet_spec(d, typ, payload).0.state == State::Active <==> (typ == CmdType::Start && d.state
            == State::Idle),
{
}

/// Law (staying active): an `Active` device leaves `Active` by a packet only
/// on STOP, which takes it to `Idle`; by a tick only on the inactivity
/// timeout, again to `Idle`; and by an invalid report only to `Error`.
/// RESET, in particular, is only noted.
pub proof fn active_left_only_by_stop_or_timeout(
    d: DeviceModel,
    now: u32,
    n: u32,
    typ: CmdType,
    payload: Seq<u8>,
)
    requires
        d.state == State::Active,
    ensures
        packet_spec(d, typ, payload).0.state != State::Active <==> typ == CmdType::Stop,
        typ == CmdType::Stop ==> packet_spec(d, typ, payload).0.state == State::Idle,
        typ == CmdType::Reset ==> packet_spec(d, typ, payload).1 == seq!["RESET ignored (not in Error)"@],
        tick_spec(d, now).0.state != State::Active <==> now.saturating_sub(d.last_cmd) >= 5000,
        tick_spec(d, now).0.state != State::Active ==> tick_spec(d, now).0.state == State::Idle,
        invalid_spec(d, n).0.state != State::Active ==> invalid_spec(d, n).0.state == State::Error,
{
}

/// Law (error threshold): a report of at least 3 consecutive invalid frames
/// sends a device that is not in `Error` there, with one `ERRORS` line; fewer
/// change nothing.
pub proof fn three_invalid_enter_error(d: DeviceModel, n: u32)
    requires
        device_wf(d),
    ensures
        d.state != State::Error && n >= 3 ==> invalid_spec(d, n).0 == (DeviceModel {
            state: State::Error,
            ..d
        }) && invalid_spec(d, n).1 == seq![errors_line(n)],
        n < 3 ==> invalid_spec(d, n).0 == d && invalid_spec(d, n).1.len() == 0,
{
}

/// Law (inactivity): a tick 5000 ms or more after the last command takes an
/// active device to `Idle`, and the last line it logs says so.
pub proof fn inactivity_returns_to_idle(d: DeviceModel, now: u32)
    requires
        d.state == State::Active,
        now >= d.last_cmd + 5000,
    ensures
        tick_spec(d, now).0.state == State::Idle,
        tick_spec(d, now).1.last() == "STATE: Active -> Idle (inactivity)"@,
{
}

/// Law (heartbeat cadence): every heartbeat that a tick logs reports a whole
/// number of seconds since activation.
pub proof fn heartbeats_on_cadence(next: u32, since: u32, now: u32, i: int)
    requires
        since <= next,
        next == u32::MAX || (next - since) % 1000 == 0,
        0 <= i < heartbeats(next, since, now).len(),
    ensures
        exists|ms: u32| ms % 1000 == 0 && heartbeats(next, since, now)[i] == heartbeat_line(ms),
    decreases u32::MAX - next,
{
    if next <= now && next < u32::MAX {
        let rest = heartbeats(next.saturating_add(1000), since, now);
        let first = heartbeat_line((next - since) as u32);
        assert(heartbeats(next, since, now) == seq![first] + rest);
        if i == 0 {
            assert(heartbeats(next, since, now)[i] == heartbeat_line((next - since) as u32));
        } else {
            heartbeats_on_cadence(next.saturating_add(1000), since, now, i - 1);
            assert(heartbeats(next, since, now)[i] == rest[i - 1]);
        }
    }
}

/// The invalid counter after `n` more invalid events.
pub open spec fn add_invalid(count: u32, n: nat) -> u32 {
    if count + n > u32::MAX {
        u32::MAX
    } else {
        (count + n) as u32
    }
}

/// Law (resynchronisation): while waiting for SYNC, every byte that is not
/// SYNC (nor, under stuffing, the escape byte) is an invalid event; the parser
/// keeps waiting and adds one to its invalid counter per byte.
pub proof fn noise_counts_invalid(m: ParserModel, noise: Seq<u8>)
    requires
        at_rest(m),
        forall|i: int|
            0 <= i < noise.len() ==> noise[i] != SYNC && !(m.format.stuffing && noise[i] == ESC),
    ensures
        feed(m, noise) == (
            ParserModel { invalid: add_invalid(m.invalid, noise.len()), ..m },
            Seq::<(u8, Seq<u8>)>::empty(),
        ),
    decreases noise.len(),
{
    if noise.len() > 0 {
        let init = noise.drop_last();
        noise_counts_invalid(m, init);
        let m1 = ParserModel { invalid: add_invalid(m.invalid, init.len()), ..m };
        assert(noise.last() == noise[noise.len() - 1]);
        assert(step_spec(m1, noise.last()).next == ParserModel {
            invalid: add_invalid(m.invalid, noise.len()),
            ..m
        });
    } else {
        assert(ParserModel { invalid: add_invalid(m.invalid, 0), ..m } == m);
    }
}

/// Law (length check): a frame header whose LEN is outside `2..=32` is an
/// invalid frame: the parser drops it and waits for SYNC again.
pub proof fn bad_len_rejected(m: ParserModel, len: u8)
    requires
        at_rest(m),
        !(2 <= len <= 32),
        !(m.format.stuffing && len == ESC),
    ensures
        feed(m, seq![SYNC, len]) == (reject(m), Seq::<(u8, Seq<u8>)>::empty()),
{
    lemma_feed_append(m, seq![SYNC], seq![len]);
    assert(seq![SYNC] + seq![len] =~= seq![SYNC, len]);
    lemma_feed_one(m, SYNC);
    let m1 = ParserModel { phase: Phase::ReadLen, ..m };
    lemma_feed_one(m1, len);
    assert(reject(m1) == reject(m));
    assert(Seq::<(u8, Seq<u8>)>::empty() + Seq::<(u8, Seq<u8>)>::empty() =~= Seq::<(u8, Seq<u8>)>::empty());
}

/// Law (checksum): in the plain format, a frame whose check byte is not the
/// right one is an invalid frame: no packet comes out, the invalid counter
/// goes up by one and the parser waits for SYNC again.
pub proof fn wrong_check_rejected(m: ParserModel, typ: u8, payload: Seq<u8>, wrong: u8)
    requires
        model_wf(m),
        at_rest(m),
        !m.format.stuffing,
        m.format.check == Check::Sum8,
        payload.len() <= 24,
        wrong != sum8_check(frame_body(Check::Sum8, typ, payload)),
    ensures
        feed(m, encode_frame(m.format, typ, payload).drop_last().push(wrong)) == (
            reject(m),
            Seq::<(u8, Seq<u8>)>::empty(),
        ),
{
    let len = len_byte(Check::Sum8, payload.len());
    let body = frame_body(Check::Sum8, typ, payload);
    let none = Seq::<(u8, Seq<u8>)>::empty();
    let frame = encode_frame(m.format, typ, payload);
    assert(frame.drop_last() =~= seq![SYNC] + body);
    let bad = seq![SYNC] + body + seq![wrong];
    assert(frame.drop_last().push(wrong) =~= bad);

    lemma_feed_append(m, seq![SYNC], body + seq![wrong]);
    assert(seq![SYNC] + (body + seq![wrong]) =~= bad);
    lemma_feed_one(m, SYNC);
    let m1 = ParserModel { phase: Phase::ReadLen, ..m };
    assert(wire(false, body + seq![wrong]) == body + seq![wrong]);
    lemma_feed_wire(m1, body + seq![wrong]);
    lemma_feed_header(m1, typ, payload);
    lemma_feed_payload(m1, len, typ, payload, payload.len() as int);
    assert(payload.take(payload.len() as int) =~= payload);
    lemma_plain_feed_append(m1, seq![len, typ], payload);
    assert(body =~= seq![len, typ] + payload);
    assert(none + none =~= none);
    let m4 = reading(m1, len, typ, payload, payload.len() as int);
    assert(plain_feed(m1, body) == (m4, none));
    lemma_plain_feed_append(m1, body, seq![wrong]);
    lemma_plain_feed_one(m4, wrong);
    lemma_byte_sum_bound(payload);
    lemma_byte_sum_append(seq![len, typ], payload);
    assert(seq![len, typ].drop_last() =~= seq![len]);
    assert(seq![len].drop_last() =~= Seq::<u8>::empty());
    assert(byte_sum(Seq::<u8>::empty()) == 0);
    assert(byte_sum(seq![len]) == len);
    assert(byte_sum(seq![len, typ]) == len + typ);
    assert(sum8_expected(len, typ, byte_sum(payload) as u16) == sum8_check(body));
    assert(reject(m4) == reject(m));
}

proof fn lemma_stuff_len(s: Seq<u8>)
    ensures
        stuff(s).len() <= 2 * s.len(),
    decreases s.len(),
{
    if s.len() > 0 {
        lemma_stuff_len(s.drop_last());
    }
}

/// Law (frame size): a frame with at most 24 payload bytes takes at most 57
/// bytes on the wire, so the 64-byte frame buffer holds all of it.
pub proof fn frame_fits(fmt: FrameFormat, typ: u8, payload: Seq<u8>)
    requires
        payload.len() <= 24,
    ensures
        encode_frame(fmt, typ, payload).len() <= 57,
        first_n(encode_frame(fmt, typ, payload), 64) == encode_frame(fmt, typ, payload),
{
    let body = frame_body(fmt.check, typ, payload);
    let tail = body + check_field(fmt.check, body);
    lemma_stuff_len(tail);
}

/// Law (LEN field): LEN counts the bytes from TYPE through the check field,
/// and the check byte of the plain format brings the byte sum of LEN, TYPE,
/// payload and check byte to `0xFF` modulo 256.
pub proof fn frame_fields(c: Check, typ: u8, payload: Seq<u8>)
    requires
        payload.len() <= 64,
    ensures
        ({
            let body = frame_body(c, typ, payload);
            &&& body[0] as nat == body.len() - 1 + check_field(c, body).len()
            &&& (byte_sum(body) + sum8_check(body)) % 256 == 255
        }),
{
}

/// The lines, each as UTF-8 bytes followed by a newline, one after another.
pub open spec fn joined_lines(lines: Seq<Seq<char>>) -> Seq<u8>
    decreases lines.len(),
{
    if lines.len() == 0 {
        Seq::empty()
    } else {
        joined_lines(lines.drop_last()) + vstd::utf8::encode_utf8(lines.last()) + seq![10u8]
    }
}

/// Law (capture): as long as everything fits in its 1024 bytes, the capture
/// logger holds exactly the lines it was given, each followed by a newline.
pub proof fn capture_holds_lines(lines: Seq<Seq<char>>)
    requires
        joined_lines(lines).len() <= CAPTURE_CAP,
    ensures
        capture_text(lines) == joined_lines(lines),
    decreases lines.len(),
{
    if lines.len() > 0 {
        let init = lines.drop_last();
        capture_holds_lines(init);
        let t = joined_lines(init) + vstd::utf8::encode_utf8(lines.last());
        assert(t.push(10u8) =~= t + seq![10u8]);
    }
}

proof fn lemma_heartbeats_len(next: u32, since: u32, now: u32)
    ensures
        heartbeats(next, since, now).len() <= if next <= now {
            (now - next) / 1000 + 1
        } else {
            0
        },
    decreases u32::MAX - next,
{
    if next <= now && next < u32::MAX {
        let n2 = next.saturating_add(1000);
        lemma_heartbeats_len(n2, since, now);
        assert(heartbeats(next, since, now).len() == 1 + heartbeats(n2, since, now).len());
        if n2 <= now && n2 < u32::MAX {
            assert(n2 == next + 1000);
            assert((now - n2) / 1000 + 1 == (now - next) / 1000);
        }
    }
}

/// Law (bounded work): one tick logs at most one heartbeat per whole second
/// that the clock advanced, plus one, and at most one state line.
pub proof fn tick_is_bounded(d: DeviceModel, now: u32)
    requires
        device_wf(d),
    ensures
        tick_spec(d, now).1.len() <= now.saturating_sub(d.now) / 1000 + 2,
{
    if d.state == State::Active {
        lemma_heartbeats_len(d.next_hb, d.active_since, now);
        if d.next_hb <= now && d.next_hb < u32::MAX {
            assert(d.next_hb > d.now);
            assert((now - d.next_hb) / 1000 <= (now - d.now) / 1000);
        }
    }
}

/// Law (tickless deadline): without a deadline a tick changes nothing that is
/// seen; with deadline `D`, every tick before `D` logs nothing and leaves the
/// device active, and a tick at `D` logs at least one line.
pub proof fn deadline_is_earliest_action(d: DeviceModel, t: u32)
    requires
        device_wf(d),
        d.state == State::Active ==> d.last_cmd + 5000 <= u32::MAX,
    ensures
        deadline(d) is None ==> tick_spec(d, t).1.len() == 0 && tick_spec(d, t).0.state == d.state,
        deadline(d) matches Some(dl) && t < dl ==> tick_spec(d, t).1.len() == 0 && tick_spec(
            d,
            t,
        ).0.state == State::Active,
        deadline(d) matches Some(dl) && t == dl ==> tick_spec(d, t).1.len() >= 1,
{
    if d.state == State::Active {
        let dl = deadline(d)->0;
        if t == dl && d.next_hb <= t && d.next_hb < u32::MAX {
            assert(heartbeats(d.next_hb, d.active_since, t).len() >= 1);
        }
    }
}


/// The heartbeats due by `now`, away from the end of the clock: one per
/// second from `next`, each reporting its time since activation.
proof fn lemma_heartbeats_exact(next: u32, since: u32, now: u32)
    requires
        since <= next,
        next <= now,
        now <= u32::MAX - 1000,
    ensures
        heartbeats(next, since, now).len() == (now - next) / 1000 + 1,
        forall|i: int|
            0 <= i < heartbeats(next, since, now).len() ==> heartbeats(next, since, now)[i]
                == heartbeat_line((next - since + 1000 * i) as u32),
    decreases now - next,
{
    let n2 = next.saturating_add(1000);
    assert(n2 == next + 1000);
    let first = heartbeat_line((next - since) as u32);
    let rest = heartbeats(n2, since, now);
    assert(heartbeats(next, since, now) == seq![first] + rest);
    if n2 <= now {
        lemma_heartbeats_exact(n2, since, now);
        assert((now - n2) / 1000 + 1 == (now - next) / 1000);
        assert forall|i: int| 0 <= i < heartbeats(next, since, now).len() implies heartbeats(next, since, now)[i]
            == heartbeat_line((next - since + 1000 * i) as u32) by {
            if i > 0 {
                assert(heartbeats(next, since, now)[i] == rest[i - 1]);
                assert(n2 - since + 1000 * (i - 1) == next - since + 1000 * i);
            }
        }
    } else {
        assert(rest.len() == 0);
        assert((now - next) / 1000 == 0);
        assert(heartbeats(next, since, now)[0] == first);
    }
}

/// Law (heartbeats before the timeout): a tick of an active device logs one
/// heartbeat per second due by `now`, the first for the scheduled beat, each
/// reporting its time since activation; only after them, when the last
/// command is 5000 ms or more in the past, it logs the inactivity line and
/// goes `Idle`. The timeout drops none of the heartbeats that were due.
pub proof fn tick_logs_due_beats_then_timeout(d: DeviceModel, now: u32)
    requires
        device_wf(d),
        d.state == State::Active,
        d.next_hb <= now,
        now <= u32::MAX - 1000,
    ensures
        ({
            let k = (now - d.next_hb) / 1000 + 1;
            let idle = now.saturating_sub(d.last_cmd) >= 5000;
            let lines = tick_spec(d, now).1;
            &&& lines.len() == (if idle {
                k + 1
            } else {
                k
            })
            &&& forall|i: int|
                0 <= i < k ==> lines[i] == heartbeat_line((d.next_hb - d.active_since + 1000 * i) as u32)
            &&& idle ==> lines[k as int] == "STATE: Active -> Idle (inactivity)"@
                && tick_spec(d, now).0.state == State::Idle
            &&& !idle ==> tick_spec(d, now).0.state == State::Active
        }),
{
    lemma_heartbeats_exact(d.next_hb, d.active_since, now);
}

/// Law (activity): a PING handled while not in `Error` is a command at the
/// current time and leaves the state as it is; an active device then stays
/// active through every tick less than 5000 ms later, and a tick 5000 ms or
/// more later takes it to `Idle`.
pub proof fn ping_refreshes_activity(d: DeviceModel, payload: Seq<u8>, t: u32)
    requires
        device_wf(d),
        d.now <= t,
    ensures
        d.state != State::Error ==> packet_spec(d, CmdType::Ping, payload).0.last_cmd == d.now
            && packet_spec(d, CmdType::Ping, payload).0.state == d.state,
        d.state == State::Active && t < d.now + 5000 ==> tick_spec(
            packet_spec(d, CmdType::Ping, payload).0,
            t,
        ).0.state == State::Active,
        d.state == State::Active && t >= d.now + 5000 ==> tick_spec(
            packet_spec(d, CmdType::Ping, payload).0,
            t,
        ).0.state == State::Idle,
{
}



/// Law (activation schedule): START on an idle device makes it active and
/// logs the activation and a first heartbeat at once; while no timeout is due
/// (less than 5000 ms later), the ticks after it log nothing until 2000 ms
/// after activation, and from then on one heartbeat per second, reporting
/// 2000, 3000, ... ms since activation.
pub proof fn start_then_heartbeats(d: DeviceModel, payload: Seq<u8>, t: u32)
    requires
        device_wf(d),
        d.state == State::Idle,
        d.now <= t < d.now + 5000,
        t <= u32::MAX - 1000,
    ensures
        ({
            let a = packet_spec(d, CmdType::Start, payload);
            let after = tick_spec(a.0, t);
            &&& a.0.state == State::Active
            &&& a.1 == seq!["STATE: Idle -> Active"@, "HEARTBEAT 1000"@]
            &&& after.0.state == State::Active
            &&& t < d.now + 2000 ==> after.1.len() == 0
            &&& t >= d.now + 2000 ==> after.1.len() == (t - d.now - 2000) / 1000 + 1
            &&& forall|i: int|
                0 <= i < after.1.len() ==> after.1[i] == heartbeat_line((2000 + 1000 * i) as u32)
        }),
{
    let a = packet_spec(d, CmdType::Start, payload);
    if t >= d.now + 2000 {
        assert(a.0.next_hb == d.now + 2000);
        tick_logs_due_beats_then_timeout(a.0, t);
    }
}

/// Law (STOP): STOP on an active device takes it to `Idle` and logs, last,
/// `STATE: Active -> Idle (STOP)`, preceded only by the heartbeat that was due
/// within 100 ms, if one was; on a device that is not active STOP changes
/// nothing and logs nothing.
pub proof fn stop_ends_activity(d: DeviceModel, payload: Seq<u8>)
    requires
        device_wf(d),
        packet_in_range(d, CmdType::Stop),
    ensures
        ({
            let a = packet_spec(d, CmdType::Stop, payload);
            &&& d.state == State::Active ==> {
                &&& a.0.state == State::Idle
                &&& a.1.last() == "STATE: Active -> Idle (STOP)"@
                &&& a.1.len() == (if d.now + 100 >= d.next_hb {
                    2int
                } else {
                    1int
                })
                &&& a.1.len() == 2 ==> a.1[0] == heartbeat_line((d.next_hb - d.active_since) as u32)
            }
            &&& d.state != State::Active ==> a.0 == d && a.1.len() == 0
        }),
{
}

} // verus!
