//! Byte-at-a-time frame parser.
//!
//! Phases: `WaitSync -> ReadLen -> ReadType -> ReadPayload` (the payload bytes,
//! then the check field).  A byte other than SYNC while waiting for SYNC, a LEN
//! outside `2..=32`, a payload longer than 24 bytes, or a wrong check field is
//! an invalid event: it increments the consecutive-invalid counter and, inside a
//! frame, sends the parser back to `WaitSync`.  A valid frame resets the counter
//! and is handed out as a `Packet`.

use crate::bounded::{
    frame_as_slice, frame_extend_from_slice, frame_new, frame_push, payload_as_slice,
    payload_clear, payload_clone, payload_new, payload_push, payload_view,
};
use crate::crc::{crc16_ccitt, crc16_spec};
use crate::frame::{byte_sum, check_len, Check, FrameFormat, ESC, SYNC};
use vstd::prelude::*;

verus! {

/// Command types of the protocol.
#[derive(Debug, Clone, Copy, PartialEq, Eq, Structural)]
pub enum CmdType {
    Start,
    Stop,
    Ping,
    Reset,
    Unknown(u8),
}

/// The command that a TYPE byte names.
pub open spec fn cmd_of(v: u8) -> CmdType {
    if v == 0x01 {
        CmdType::Start
    } else if v == 0x02 {
        CmdType::Stop
    } else if v == 0x03 {
        CmdType::Ping
    } else if v == 0xFF {
        CmdType::Reset
    } else {
        CmdType::Unknown(v)
    }
}

impl From<u8> for CmdType {
    fn from(v: u8) -> (r: Self) {
        match v {
            0x01 => CmdType::Start,
            0x02 => CmdType::Stop,
            0x03 => CmdType::Ping,
            0xFF => CmdType::Reset,
            _ => CmdType::Unknown(v),
        }
    }
}

impl vstd::std_specs::convert::FromSpecImpl<u8> for CmdType {
    open spec fn obeys_from_spec() -> bool {
        true
    }

    open spec fn from_spec(v: u8) -> Self {
        cmd_of(v)
    }
}

/// A valid frame as handed to the application.
#[derive(Debug)]
pub struct Packet {
    pub typ: CmdType,
    pub payload: heapless::Vec<u8, 24>,
}

impl Clone for Packet {
    fn clone(&self) -> (r: Self)
        ensures
            r.typ == self.typ,
            payload_view(r.payload) == payload_view(self.payload),
    {
        Packet { typ: self.typ, payload: payload_clone(&self.payload) }
    }
}

/// Where the parser stands within a frame.
#[derive(Debug, Clone, Copy, PartialEq, Eq, Structural)]
pub enum Phase {
    WaitSync,
    ReadLen,
    ReadType { len: u8 },
    /// `remain` payload bytes are still due; `sum` is the running payload sum
    /// (kept in the 8-bit check format only).
    ReadPayload { len: u8, typ: u8, remain: u8, sum: u16 },
}

/// A parser with its payload buffer taken as a byte sequence.
pub struct ParserModel {
    pub phase: Phase,
    pub payload: Seq<u8>,
    pub invalid: u32,
    pub escape_next: bool,
    pub crc_hi: Option<u8>,
    pub format: FrameFormat,
}

/// What one byte does: the next parser, the frame it completes (TYPE byte and
/// payload), and whether it was an invalid event.
pub struct StepOutcome {
    pub next: ParserModel,
    pub frame: Option<(u8, Seq<u8>)>,
    pub invalid: bool,
}

/// The consistency that every reachable parser keeps.
pub open spec fn model_wf(m: ParserModel) -> bool {
    &&& m.payload.len() <= 24
    &&& !m.format.stuffing ==> !m.escape_next
    &&& m.crc_hi is Some ==> m.format.check == Check::Crc16Pair && (m.phase matches Phase::ReadPayload { remain, .. } && remain == 0)
    &&& m.phase matches Phase::ReadPayload { sum, .. } ==> sum == (if m.format.check == Check::Sum8 {
        byte_sum(m.payload)
    } else {
        0
    })
}

/// A parser at rest between frames, with no escape or CRC byte pending.
pub open spec fn at_rest(m: ParserModel) -> bool {
    &&& m.phase == Phase::WaitSync
    &&& m.payload.len() == 0
    &&& !m.escape_next
    &&& m.crc_hi is None
}

/// A parser for `format` that has seen nothing.
pub open spec fn fresh_parser(format: FrameFormat) -> ParserModel {
    ParserModel {
        phase: Phase::WaitSync,
        payload: Seq::empty(),
        invalid: 0,
        escape_next: false,
        crc_hi: None,
        format,
    }
}

/// An invalid event that does not leave `WaitSync`: only the counter moves.
pub open spec fn count_invalid(m: ParserModel) -> ParserModel {
    ParserModel { invalid: m.invalid.saturating_add(1), ..m }
}

/// An invalid event inside a frame: count it, drop the payload, wait for SYNC.
pub open spec fn reject(m: ParserModel) -> ParserModel {
    ParserModel {
        phase: Phase::WaitSync,
        payload: Seq::<u8>::empty(),
        invalid: m.invalid.saturating_add(1),
        ..m
    }
}

/// A completed valid frame: drop the payload, clear the counter, wait for SYNC.
pub open spec fn accept(m: ParserModel) -> ParserModel {
    ParserModel { phase: Phase::WaitSync, payload: Seq::<u8>::empty(), invalid: 0, ..m }
}

/// The 8-bit check byte expected for LEN, TYPE and a payload sum.
pub open spec fn sum8_expected(len: u8, typ: u8, sum: u16) -> u8 {
    (255 - (len + typ + sum) % 256) as u8
}

/// CRC-16-CCITT over `[LEN, TYPE, PAYLOAD...]`.
pub open spec fn body_crc(len: u8, typ: u8, payload: Seq<u8>) -> u16 {
    crc16_spec(seq![len, typ] + payload)
}

/// The outcome of a byte that closes or continues the check field.
pub open spec fn check_outcome(m: ParserModel, len: u8, typ: u8, sum: u16, b: u8) -> StepOutcome {
    let ok = StepOutcome { next: accept(m), frame: Some((typ, m.payload)), invalid: false };
    let bad = StepOutcome { next: reject(m), frame: None, invalid: true };
    match m.format.check {
        Check::Sum8 => if b == sum8_expected(len, typ, sum) {
            ok
        } else {
            bad
        },
        Check::Crc16Low => if b == (body_crc(len, typ, m.payload) % 256) as u8 {
            ok
        } else {
            bad
        },
        Check::Crc16Pair => match m.crc_hi {
            None => StepOutcome {
                next: ParserModel { crc_hi: Some(b), ..m },
                frame: None,
                invalid: false,
            },
            Some(hi) => {
                let m2 = ParserModel { crc_hi: None, ..m };
                let crc = body_crc(len, typ, m.payload);
                if hi == (crc / 256) as u8 && b == (crc % 256) as u8 {
                    StepOutcome { next: accept(m2), frame: Some((typ, m.payload)), invalid: false }
                } else {
                    StepOutcome { next: reject(m2), frame: None, invalid: true }
                }
            },
        },
    }
}

/// The outcome of a byte after unstuffing.
pub open spec fn phase_outcome(m: ParserModel, b: u8) -> StepOutcome {
    let none = |next: ParserModel| StepOutcome { next, frame: None, invalid: false };
    match m.phase {
        Phase::WaitSync => if b == SYNC {
            none(ParserModel { phase: Phase::ReadLen, ..m })
        } else {
            StepOutcome { next: count_invalid(m), frame: None, invalid: true }
        },
        Phase::ReadLen => if 2 <= b <= 32 {
            none(ParserModel { phase: Phase::ReadType { len: b }, ..m })
        } else {
            StepOutcome { next: reject(m), frame: None, invalid: true }
        },
        Phase::ReadType { len } => none(
            ParserModel {
                phase: Phase::ReadPayload {
                    len,
                    typ: b,
                    remain: len.saturating_sub((1 + check_len(m.format.check)) as u8),
                    sum: 0,
                },
                payload: Seq::<u8>::empty(),
                ..m
            },
        ),
        Phase::ReadPayload { len, typ, remain, sum } => if remain > 0 {
            if m.payload.len() >= 24 {
                StepOutcome { next: reject(m), frame: None, invalid: true }
            } else {
                none(
                    ParserModel {
                        phase: Phase::ReadPayload {
                            len,
                            typ,
                            remain: (remain - 1) as u8,
                            sum: if m.format.check == Check::Sum8 {
                                ((sum + b) % 65536) as u16
                            } else {
                                sum
                            },
                        },
                        payload: m.payload.push(b),
                        ..m
                    },
                )
            }
        } else {
            check_outcome(m, len, typ, sum, b)
        },
    }
}

/// What feeding the byte `b` to parser `m` does.
pub open spec fn step_spec(m: ParserModel, b: u8) -> StepOutcome {
    if m.format.stuffing && !m.escape_next && b == ESC {
        StepOutcome { next: ParserModel { escape_next: true, ..m }, frame: None, invalid: false }
    } else if m.format.stuffing && m.escape_next {
        phase_outcome(ParserModel { escape_next: false, ..m }, b ^ 0x20u8)
    } else {
        phase_outcome(m, b)
    }
}

/// Byte-stream parser.
pub struct Parser {
    st: Phase,
    payload: heapless::Vec<u8, 24>,
    invalid_consec: u32,
    escape_next: bool,
    crc_hi: Option<u8>,
    format: FrameFormat,
}

impl View for Parser {
    type V = ParserModel;

    closed spec fn view(&self) -> ParserModel {
        ParserModel {
            phase: self.st,
            payload: payload_view(self.payload),
            invalid: self.invalid_consec,
            escape_next: self.escape_next,
            crc_hi: self.crc_hi,
            format: self.format,
        }
    }
}

/// A byte sum is at most 255 per byte.
pub(crate) proof fn lemma_byte_sum_bound(s: Seq<u8>)
    ensures
        byte_sum(s) <= 255 * s.len(),
    decreases s.len(),
{
    if s.len() > 0 {
        lemma_byte_sum_bound(s.drop_last());
    }
}

impl Parser {
    pub const SYNC: u8 = 0xAA;

    /// A parser for the plain format (8-bit sum, no stuffing), at rest.
    pub fn new() -> (p: Self)
        ensures
            p.wf(),
            p@ == fresh_parser(FrameFormat { check: Check::Sum8, stuffing: false }),
    {
        Self::with_format(FrameFormat::plain())
    }

    /// A parser for `format`, at rest.
    pub fn with_format(format: FrameFormat) -> (p: Self)
        ensures
            p.wf(),
            p@ == fresh_parser(format),
    {
        Parser {
            st: Phase::WaitSync,
            payload: payload_new(),
            invalid_consec: 0,
            escape_next: false,
            crc_hi: None,
            format,
        }
    }

    /// The parser's invariant, over its model.
    pub open spec fn wf(&self) -> bool {
        model_wf(self@)
    }

    /// 8-bit check byte: `~((LEN + TYPE + sum(payload)) & 0xFF)`.
    fn cs(len: u8, typ: u8, pay_sum: u16) -> (r: u8)
        requires
            pay_sum <= 6120,
        ensures
            r == sum8_expected(len, typ, pay_sum),
    {
        let s: u16 = ((len as u16) + (typ as u16) + pay_sum) & 0xFF;
        proof {
            let t: u16 = ((len as u16) + (typ as u16) + pay_sum) as u16;
            assert(t & 0xFF == t % 256) by (bit_vector);
            assert(s < 256u16 ==> !(s as u8) == (255 - s) as u8) by (bit_vector);
            assert(s < 256) by (bit_vector)
                requires
                    s == t & 0xFF,
            ;
        }
        !(s as u8)
    }

    /// CRC-16-CCITT over `[len, typ, payload...]`.
    fn body_crc(&self, len: u8, typ: u8) -> (r: u16)
        requires
            self.wf(),
        ensures
            r == body_crc(len, typ, self@.payload),
    {
        let mut tmp = frame_new();
        let _ = frame_push(&mut tmp, len);
        let _ = frame_push(&mut tmp, typ);
        let _ = frame_extend_from_slice(&mut tmp, payload_as_slice(&self.payload));
        proof {
            assert(seq![len, typ] + self@.payload =~= seq![len].push(typ) + self@.payload);
        }
        crc16_ccitt(frame_as_slice(&tmp))
    }

    /// Number of consecutive invalid bytes/frames seen.
    pub fn invalid_consecutive(&self) -> (r: u32)
        ensures
            r == self@.invalid,
    {
        self.invalid_consec
    }

    /// Invalid event inside a frame: count it, drop the payload, wait for SYNC.
    fn reject<F: FnMut()>(&mut self, on_invalid: F)
        requires
            old(self).wf(),
            old(self)@.crc_hi is None,
            call_requires(on_invalid, ()),
        ensures
            final(self).wf(),
            final(self)@ == reject(old(self)@),
    {
        self.invalid_consec = self.invalid_consec.saturating_add(1);
        let mut on_invalid = on_invalid;
        on_invalid();
        self.st = Phase::WaitSync;
        payload_clear(&mut self.payload);
    }

    /// A completed valid frame: hand out the packet and return to rest.
    fn accept(&mut self, typ: u8) -> (r: Packet)
        requires
            old(self).wf(),
            old(self)@.crc_hi is None,
        ensures
            final(self).wf(),
            final(self)@ == accept(old(self)@),
            r.typ == cmd_of(typ),
            payload_view(r.payload) == old(self)@.payload,
    {
        let pkt = Packet { typ: CmdType::from(typ), payload: payload_clone(&self.payload) };
        payload_clear(&mut self.payload);
        self.invalid_consec = 0;
        self.st = Phase::WaitSync;
        pkt
    }

    /// Feeds one byte. Returns `Some(Packet)` when it completes a valid frame.
    /// `on_invalid` is called when the byte is an invalid event
    /// (`step_spec(..).invalid`).
    pub fn step<F: FnMut()>(&mut self, b: u8, on_invalid: F) -> (r: Option<Packet>)
        requires
            old(self).wf(),
            call_requires(on_invalid, ()),
        ensures
            final(self).wf(),
            final(self)@ == step_spec(old(self)@, b).next,
            match step_spec(old(self)@, b).frame {
                None => r is None,
                Some(f) => r matches Some(p) && p.typ == cmd_of(f.0) && payload_view(p.payload) == f.1,
            },
    {
        let ghost m0 = self@;
        let ghost b0 = b;
        let mut on_invalid = on_invalid;
        let mut b = b;
        if self.format.stuffing {
            if self.escape_next {
                b = b ^ 0x20;
                self.escape_next = false;
            } else if b == ESC {
                self.escape_next = true;
                return None;
            }
        }
        let ghost m1 = self@;
        assert(step_spec(m0, b0) == phase_outcome(m1, b));
        let chk_len = self.format.check_len();
        match self.st {
            Phase::WaitSync => {
                if b == SYNC {
                    self.st = Phase::ReadLen;
                } else {
                    self.invalid_consec = self.invalid_consec.saturating_add(1);
                    on_invalid();
                }
                None
            },
            Phase::ReadLen => {
                if !(2 <= b && b <= 32) {
                    self.reject(on_invalid);
                    return None;
                }
                self.st = Phase::ReadType { len: b };
                None
            },
            Phase::ReadType { len } => {
                let pay_len = len.saturating_sub(1 + chk_len);
                payload_clear(&mut self.payload);
                self.st = Phase::ReadPayload { len, typ: b, remain: pay_len, sum: 0 };
                None
            },
            Phase::ReadPayload { len, typ, remain, sum } => {
                if remain > 0 {
                    let ghost before = self@.payload;
                    proof {
                        lemma_byte_sum_bound(before);
                        assert(before.push(b).drop_last() =~= before);
                    }
                    if payload_push(&mut self.payload, b).is_err() {
                        self.reject(on_invalid);
                        return None;
                    }
                    let sum = match self.format.check {
                        Check::Sum8 => sum.wrapping_add(b as u16),
                        _ => sum,
                    };
                    self.st = Phase::ReadPayload { len, typ, remain: remain - 1, sum };
                    None
                } else {
                    match self.format.check {
                        Check::Crc16Pair => {
                            match self.crc_hi {
                                None => {
                                    self.crc_hi = Some(b);
                                    None
                                },
                                Some(hi) => {
                                    self.crc_hi = None;
                                    let crc = self.body_crc(len, typ);
                                    let exp_hi = ((crc >> 8) & 0xFF) as u8;
                                    let exp_lo = (crc & 0xFF) as u8;
                                    proof {
                                        assert(crc >> 8 & 0xFF == crc / 256) by (bit_vector);
                                        assert(crc & 0xFF == crc % 256) by (bit_vector);
                                    }
                                    if hi != exp_hi || b != exp_lo {
                                        self.reject(on_invalid);
                                        return None;
                                    }
                                    Some(self.accept(typ))
                                },
                            }
                        },
                        Check::Crc16Low => {
                            let crc = self.body_crc(len, typ);
                            let lsb = (crc & 0xFF) as u8;
                            proof {
                                assert(crc & 0xFF == crc % 256) by (bit_vector);
                            }
                            if b != lsb {
                                self.reject(on_invalid);
                                return None;
                            }
                            Some(self.accept(typ))
                        },
                        Check::Sum8 => {
                            proof {
                                lemma_byte_sum_bound(self@.payload);
                            }
                            let expected = Self::cs(len, typ, sum);
                            if b != expected {
                                self.reject(on_invalid);
                                return None;
                            }
                            Some(self.accept(typ))
                        },
                    }
                }
            },
        }
    }
}

} // verus!

verus! {

/// The frames that feeding `bytes` to `m` completes, with the parser after
/// the last byte.
pub open spec fn feed(m: ParserModel, bytes: Seq<u8>) -> (ParserModel, Seq<(u8, Seq<u8>)>)
    decreases bytes.len(),
{
    if bytes.len() == 0 {
        (m, Seq::empty())
    } else {
        let (m1, frames) = feed(m, bytes.drop_last());
        let o = step_spec(m1, bytes.last());
        (
            o.next,
            match o.frame {
                Some(f) => frames.push(f),
                None => frames,
            },
        )
    }
}

} // verus!
