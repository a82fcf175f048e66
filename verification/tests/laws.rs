//! Concrete instances of the library's laws.

use uart_fsm::frame::{Check, FrameFormat};
use uart_fsm::fsm::{Device, State};
use uart_fsm::harness::{make_frame, make_frame_in, run_capture};
use uart_fsm::log::{CaptureLogger, Logger};
use uart_fsm::parser::{CmdType, Packet, Parser};
use uart_fsm::ringbuf::RingBuf;

fn bare(typ: CmdType) -> Packet {
    let mut p = Parser::new();
    let mut got = None;
    let code = match typ {
        CmdType::Start => 0x01,
        CmdType::Stop => 0x02,
        CmdType::Ping => 0x03,
        CmdType::Reset => 0xFF,
        CmdType::Unknown(x) => x,
    };
    for &b in make_frame(code, &[]).iter() {
        if let Some(pkt) = p.step(b, || {}) {
            got = Some(pkt);
        }
    }
    got.unwrap()
}

fn active_at(t: u32) -> Device<CaptureLogger> {
    let mut d = Device::new(CaptureLogger::new());
    d.tick(t);
    d.handle_packet(bare(CmdType::Start));
    d
}

#[test]
fn law_roundtrip_fresh_parser() {
    let fmt = FrameFormat { check: Check::Crc16Pair, stuffing: true };
    let mut p = Parser::with_format(fmt);
    let mut got = Vec::new();
    for &b in make_frame_in(fmt, 0x03, &[0xAA, 0x7D, 0x00]).iter() {
        if let Some(pkt) = p.step(b, || {}) {
            got.push(pkt);
        }
    }
    assert_eq!(got.len(), 1);
    assert_eq!(&got[0].payload[..], &[0xAA, 0x7D, 0x00]);
}

#[test]
fn law_frame_fits_in_buffer() {
    let fmt = FrameFormat { check: Check::Crc16Pair, stuffing: true };
    let f = make_frame_in(fmt, 0xAA, &[0xAA; 24]);
    // SYNC + stuffed LEN, TYPE, 24 payload bytes and 2 CRC bytes: at most 57.
    assert!(f.len() <= 57);
    assert!(f.len() >= 1 + 1 + 2 + 48 + 2);
}

#[test]
fn law_len_counts_type_to_check() {
    let f = make_frame(0x03, b"abc");
    assert_eq!(f[1] as usize, f.len() - 2);
    let sum: u32 = f[1..].iter().map(|&b| b as u32).sum();
    assert_eq!(sum % 256, 255);
}

#[test]
fn law_error_left_only_by_reset() {
    let mut input: Vec<u8> = vec![0x01, 0x02, 0x03];
    input.extend_from_slice(&make_frame(0x01, &[])); // START is ignored in Error
    input.extend_from_slice(&make_frame(0x03, b"p")); // PING is ignored in Error
    input.extend_from_slice(&make_frame(0xFF, &[])); // RESET recovers
    input.extend_from_slice(&make_frame(0x01, &[])); // START now activates
    let log = run_capture(&input, &[4], 40);
    assert!(log.contains("ERRORS: 3 invalid frames -> STATE: * -> Error"));
    assert!(!log.contains("PONG p"));
    let reset = log.find("STATE: Error -> Idle (RESET)").unwrap();
    let active = log.find("STATE: Idle -> Active").unwrap();
    assert!(reset < active);
}

#[test]
fn law_noise_counts_invalid() {
    let mut p = Parser::new();
    for b in 0..100u8 {
        if b != 0xAA {
            assert!(p.step(b, || {}).is_none());
        }
    }
    assert_eq!(p.invalid_consecutive(), 100);
}

#[test]
fn law_heartbeat_cadence() {
    let log = run_capture(&make_frame(0x01, &[]), &[8], 4500);
    assert!(log.contains("HEARTBEAT 1000\nHEARTBEAT 2000\nHEARTBEAT 3000\nHEARTBEAT 4000\n"));
}

#[test]
fn law_capture_holds_lines() {
    let mut log = CaptureLogger::new();
    log.line("a");
    log.line("bc");
    log.line("");
    log.line("ü");
    assert_eq!(log.take().as_str(), "a\nbc\n\nü\n");
}

#[test]
fn law_reset_outside_error_keeps_state() {
    let mut d = active_at(100);
    d.handle_packet(bare(CmdType::Reset));
    assert_eq!(d.state, State::Active);
    let mut i = Device::new(CaptureLogger::new());
    i.handle_packet(bare(CmdType::Reset));
    assert_eq!(i.state, State::Idle);
    assert_eq!(
        d.log.take().as_str(),
        "STATE: Idle -> Active\nHEARTBEAT 1000\nRESET ignored (not in Error)\n"
    );
    assert_eq!(i.log.take().as_str(), "RESET ignored (not in Error)\n");
}

#[test]
fn law_tick_is_bounded_at_end_of_clock() {
    let mut d = active_at(u32::MAX - 2500);
    d.tick(u32::MAX);
    d.tick(u32::MAX);
    assert_eq!(d.state, State::Active);
    assert_eq!(d.next_hb_ms, u32::MAX);
    assert_eq!(d.log.take().as_str(), "STATE: Idle -> Active\nHEARTBEAT 1000\nHEARTBEAT 2000\n");
}

#[test]
fn law_deadline_is_earliest_action() {
    let mut before = active_at(100);
    let deadline = before.next_deadline_ms().unwrap();
    assert_eq!(deadline, 2100);
    before.tick(deadline - 1);
    assert_eq!(before.log.take().as_str(), "STATE: Idle -> Active\nHEARTBEAT 1000\n");
    let mut at = active_at(100);
    at.tick(deadline);
    assert_eq!(at.log.take().as_str(), "STATE: Idle -> Active\nHEARTBEAT 1000\nHEARTBEAT 2000\n");
    let mut idle = Device::new(CaptureLogger::new());
    assert_eq!(idle.next_deadline_ms(), None);
    idle.tick(10_000);
    assert_eq!(idle.log.take().as_str(), "");
}

#[test]
fn law_ring_count() {
    let mut rb: RingBuf<3> = RingBuf::new();
    let mut pushed: usize = 0;
    let mut popped: usize = 0;
    for b in 0..5u8 {
        if rb.push(b).is_ok() {
            pushed += 1;
        }
        if b % 2 == 1 && rb.pop().is_some() {
            popped += 1;
        }
        assert_eq!(rb.len(), pushed - popped);
        assert!(rb.len() <= 3);
    }
    assert_eq!((pushed, popped), (5, 2));
    assert_eq!(rb.len(), 3);
}

#[test]
fn law_roundtrip_byte_by_byte() {
    for fmt in [
        FrameFormat { check: Check::Sum8, stuffing: false },
        FrameFormat { check: Check::Crc16Low, stuffing: true },
        FrameFormat { check: Check::Crc16Pair, stuffing: true },
    ] {
        let frame = make_frame_in(fmt, 0xAA, &[0x7D, 0xAA, 0x01]);
        let mut p = Parser::with_format(fmt);
        let invalid = std::cell::Cell::new(0u32);
        for (i, &b) in frame.iter().enumerate() {
            let r = p.step(b, || invalid.set(invalid.get() + 1));
            if i + 1 < frame.len() {
                assert!(r.is_none());
            } else {
                let pkt = r.unwrap();
                assert_eq!(pkt.typ, CmdType::Unknown(0xAA));
                assert_eq!(&pkt.payload[..], &[0x7D, 0xAA, 0x01]);
            }
        }
        assert_eq!(invalid.get(), 0);
        assert_eq!(p.invalid_consecutive(), 0);
    }
}
