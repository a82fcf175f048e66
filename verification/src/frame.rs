//! The frame layout `[SYNC=0xAA][LEN][TYPE][PAYLOAD...][CHECK...]`, its check
//! fields and its optional byte stuffing, stated as functions on bytes.
//!
//! LEN counts the bytes from TYPE through the check field.  The check field is
//! computed over `[LEN, TYPE, PAYLOAD...]`: an 8-bit inverted sum, the low
//! byte of CRC-16-CCITT, or both CRC bytes (high byte first).  With stuffing,
//! every `0xAA` or `0x7D` after SYNC is sent as `0x7D, byte ^ 0x20`.

use crate::crc::crc16_spec;
use vstd::prelude::*;

verus! {

/// The start-of-frame byte.
pub const SYNC: u8 = 0xAA;

/// The escape byte of byte stuffing.
pub const ESC: u8 = 0x7D;

/// Which check field closes a frame.
#[derive(Debug, Clone, Copy, PartialEq, Eq, Structural)]
pub enum Check {
    /// One byte: `~((LEN + TYPE + sum(PAYLOAD)) & 0xFF)`.
    Sum8,
    /// One byte: the low byte of CRC-16-CCITT.
    Crc16Low,
    /// Two bytes: CRC-16-CCITT, high byte then low byte.
    Crc16Pair,
}

/// The integrity check and the stuffing that sender and receiver agree on.
#[derive(Debug, Clone, Copy, PartialEq, Eq, Structural)]
pub struct FrameFormat {
    pub check: Check,
    pub stuffing: bool,
}

/// Number of check bytes that close a frame.
pub open spec fn check_len(c: Check) -> nat {
    match c {
        Check::Crc16Pair => 2,
        _ => 1,
    }
}

/// Sum of the bytes, as a natural number.
pub open spec fn byte_sum(s: Seq<u8>) -> nat
    decreases s.len(),
{
    if s.len() == 0 {
        0
    } else {
        byte_sum(s.drop_last()) + s.last() as nat
    }
}

/// The 8-bit check byte of a frame body: the bitwise NOT of its byte sum's low byte.
pub open spec fn sum8_check(body: Seq<u8>) -> u8 {
    (255 - byte_sum(body) % 256) as u8
}

/// The check field of a frame whose body (`[LEN, TYPE, PAYLOAD...]`) is `body`.
pub open spec fn check_field(c: Check, body: Seq<u8>) -> Seq<u8> {
    match c {
        Check::Sum8 => seq![sum8_check(body)],
        Check::Crc16Low => seq![(crc16_spec(body) % 256) as u8],
        Check::Crc16Pair => seq![(crc16_spec(body) / 256) as u8, (crc16_spec(body) % 256) as u8],
    }
}

/// One byte as it goes on the wire under byte stuffing.
pub open spec fn stuffed_byte(b: u8) -> Seq<u8> {
    if b == SYNC || b == ESC {
        seq![ESC, b ^ 0x20u8]
    } else {
        seq![b]
    }
}

/// A byte sequence as it goes on the wire under byte stuffing.
pub open spec fn stuff(s: Seq<u8>) -> Seq<u8>
    decreases s.len(),
{
    if s.len() == 0 {
        Seq::<u8>::empty()
    } else {
        stuff(s.drop_last()) + stuffed_byte(s.last())
    }
}

/// The LEN byte of a frame with `n` payload bytes.
pub open spec fn len_byte(c: Check, n: nat) -> u8 {
    (1 + n + check_len(c)) as u8
}

/// `[LEN, TYPE, PAYLOAD...]`: the bytes that the check field covers.
pub open spec fn frame_body(c: Check, typ: u8, payload: Seq<u8>) -> Seq<u8> {
    seq![len_byte(c, payload.len()), typ] + payload
}

/// The complete frame for `typ` and `payload` in format `fmt`.
pub open spec fn encode_frame(fmt: FrameFormat, typ: u8, payload: Seq<u8>) -> Seq<u8> {
    let body = frame_body(fmt.check, typ, payload);
    let tail = body + check_field(fmt.check, body);
    seq![SYNC] + if fmt.stuffing {
        stuff(tail)
    } else {
        tail
    }
}

impl FrameFormat {
    /// The plain format: 8-bit sum check, no byte stuffing.
    pub fn plain() -> (r: FrameFormat)
        ensures
            r == (FrameFormat { check: Check::Sum8, stuffing: false }),
    {
        FrameFormat { check: Check::Sum8, stuffing: false }
    }

    /// Number of check bytes that close a frame in this format.
    pub fn check_len(&self) -> (r: u8)
        ensures
            r == check_len(self.check),
    {
        match self.check {
            Check::Crc16Pair => 2,
            _ => 1,
        }
    }
}

} // verus!
