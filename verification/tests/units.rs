//! Unit tests of the ring buffer, CRC, frame builder, parser, device and
//! loggers.

use uart_fsm::crc::crc16_ccitt;
use uart_fsm::frame::{Check, FrameFormat};
use uart_fsm::fsm::{Device, State};
use uart_fsm::harness::{make_frame, make_frame_in, run_with};
use uart_fsm::log::{CaptureLogger, Logger};
use uart_fsm::parser::{CmdType, Packet, Parser};
use uart_fsm::ringbuf::RingBuf;
use uart_fsm::worker::{process_frame, worker_step, WorkerAction, WorkerEvent};

fn packet(typ: CmdType, payload: &[u8]) -> Packet {
    let mut p: heapless::Vec<u8, 24> = heapless::Vec::new();
    for &b in payload {
        p.push(b).unwrap();
    }
    Packet { typ, payload: p }
}

fn feed_all(p: &mut Parser, bytes: &[u8]) -> Vec<Packet> {
    let mut out = Vec::new();
    for &b in bytes {
        if let Some(pkt) = p.step(b, || {}) {
            out.push(pkt);
        }
    }
    out
}

fn text(d: Device<CaptureLogger>) -> String {
    d.log.take().as_str().to_string()
}

// ------------------------------------------------------------------ ring

#[test]
fn ring_fifo_order() {
    let mut rb: RingBuf<4> = RingBuf::new();
    assert!(rb.is_empty());
    assert_eq!(rb.push(1), Ok(()));
    assert_eq!(rb.push(2), Ok(()));
    assert_eq!(rb.push(3), Ok(()));
    assert_eq!(rb.len(), 3);
    assert_eq!(rb.pop(), Some(1));
    assert_eq!(rb.push(4), Ok(()));
    assert_eq!(rb.push(5), Ok(()));
    assert!(rb.is_full());
    assert_eq!(rb.len(), 4);
    assert_eq!(rb.pop(), Some(2));
    assert_eq!(rb.pop(), Some(3));
    assert_eq!(rb.pop(), Some(4));
    assert_eq!(rb.pop(), Some(5));
    assert_eq!(rb.pop(), None);
    assert!(rb.is_empty());
}

#[test]
fn ring_drops_on_overflow() {
    let mut rb: RingBuf<2> = RingBuf::new();
    assert_eq!(rb.push(7), Ok(()));
    assert_eq!(rb.push(8), Ok(()));
    assert_eq!(rb.push(9), Err(()));
    assert_eq!(rb.len(), 2);
    assert_eq!(rb.pop(), Some(7));
    assert_eq!(rb.pop(), Some(8));
    assert_eq!(rb.pop(), None);
}

#[test]
fn ring_of_one_wraps() {
    let mut rb: RingBuf<1> = RingBuf::new();
    for b in 0..10u8 {
        assert_eq!(rb.push(b), Ok(()));
        assert!(rb.is_full());
        assert_eq!(rb.push(b), Err(()));
        assert_eq!(rb.pop(), Some(b));
        assert!(rb.is_empty());
    }
}

#[test]
fn ring_of_zero_is_empty() {
    let mut rb: RingBuf<0> = RingBuf::new();
    assert!(rb.is_empty());
    assert!(!rb.is_full());
    assert_eq!(rb.len(), 0);
    assert_eq!(rb.pop(), None);
}

// ------------------------------------------------------------------ crc

#[test]
fn crc_check_value() {
    assert_eq!(crc16_ccitt(b"123456789"), 0x29B1);
    assert_eq!(crc16_ccitt(&[]), 0xFFFF);
    assert_eq!(crc16_ccitt(&[0x00]), 0xE1F0);
}

// ------------------------------------------------------------------ frames

#[test]
fn frame_start_bytes() {
    // LEN=2, TYPE=0x01, CHK=~(2+1)=0xFC
    assert_eq!(&make_frame(0x01, &[])[..], &[0xAA, 0x02, 0x01, 0xFC]);
}

#[test]
fn frame_ping_bytes() {
    // LEN=4, TYPE=3, sum=4+3+0x68+0x69=0xD8, CHK=0x27
    assert_eq!(&make_frame(0x03, b"hi")[..], &[0xAA, 0x04, 0x03, 0x68, 0x69, 0x27]);
}

#[test]
fn frame_crc_formats() {
    let low = FrameFormat { check: Check::Crc16Low, stuffing: false };
    let pair = FrameFormat { check: Check::Crc16Pair, stuffing: false };
    let crc = crc16_ccitt(&[0x02, 0x01]);
    assert_eq!(&make_frame_in(low, 0x01, &[])[..], &[0xAA, 0x02, 0x01, (crc & 0xFF) as u8]);
    let crc3 = crc16_ccitt(&[0x03, 0x01]);
    assert_eq!(
        &make_frame_in(pair, 0x01, &[])[..],
        &[0xAA, 0x03, 0x01, (crc3 >> 8) as u8, (crc3 & 0xFF) as u8]
    );
}

#[test]
fn frame_stuffing_escapes() {
    let fmt = FrameFormat { check: Check::Sum8, stuffing: true };
    // TYPE 0xAA and payload 0x7D are escaped; SYNC is not.
    let f = make_frame_in(fmt, 0xAA, &[0x7D]);
    // LEN=3, sum=3+0xAA+0x7D=0x12A -> low byte 0x2A -> CHK=0xD5
    assert_eq!(&f[..], &[0xAA, 0x03, 0x7D, 0x8A, 0x7D, 0x5D, 0xD5]);
}

#[test]
fn frame_truncated_to_64() {
    let payload = [0x11u8; 64];
    let f = make_frame(0x03, &payload);
    assert_eq!(f.len(), 64);
    assert_eq!(f[0], 0xAA);
    assert_eq!(f[1], 66);
}

// ------------------------------------------------------------------ parser

#[test]
fn parser_roundtrip_all_formats() {
    let checks = [Check::Sum8, Check::Crc16Low, Check::Crc16Pair];
    for check in checks {
        for stuffing in [false, true] {
            let fmt = FrameFormat { check, stuffing };
            for typ in [0x01u8, 0x03, 0x7D, 0xAA, 0xFF] {
                let payload: Vec<u8> = (0..24u8).map(|i| i.wrapping_mul(37).wrapping_add(0x7D)).collect();
                let mut p = Parser::with_format(fmt);
                let frame = make_frame_in(fmt, typ, &payload);
                let pkts = feed_all(&mut p, &frame);
                assert_eq!(pkts.len(), 1);
                assert_eq!(pkts[0].typ, CmdType::from(typ));
                assert_eq!(&pkts[0].payload[..], &payload[..]);
                assert_eq!(p.invalid_consecutive(), 0);
            }
        }
    }
}

#[test]
fn parser_noise_counts() {
    let mut p = Parser::new();
    let mut calls = 0;
    for b in [0x13u8, 0x00, 0x42] {
        assert!(p.step(b, || calls += 1).is_none());
    }
    assert_eq!(p.invalid_consecutive(), 3);
    assert_eq!(calls, 3);
}

#[test]
fn parser_bad_len_rejected() {
    let mut p = Parser::new();
    assert!(p.step(0xAA, || {}).is_none());
    assert!(p.step(0x01, || {}).is_none());
    assert_eq!(p.invalid_consecutive(), 1);
    // It waits for SYNC again: a valid frame goes through and clears the count.
    let pkts = feed_all(&mut p, &make_frame(0x02, &[]));
    assert_eq!(pkts.len(), 1);
    assert_eq!(pkts[0].typ, CmdType::Stop);
    assert_eq!(p.invalid_consecutive(), 0);
}

#[test]
fn parser_wrong_checksum_rejected() {
    let mut frame = make_frame(0x03, b"ok").to_vec();
    let last = frame.len() - 1;
    frame[last] ^= 0x01;
    let mut p = Parser::new();
    assert!(feed_all(&mut p, &frame).is_empty());
    assert_eq!(p.invalid_consecutive(), 1);
}

#[test]
fn parser_payload_overflow() {
    // LEN=32 announces 30 payload bytes; the 25th does not fit.
    let mut p = Parser::new();
    let mut bytes = vec![0xAA, 32, 0x03];
    bytes.extend_from_slice(&[0x41; 25]);
    assert!(feed_all(&mut p, &bytes).is_empty());
    assert_eq!(p.invalid_consecutive(), 1);
}

#[test]
fn parser_len_two_has_no_payload() {
    let mut p = Parser::new();
    let pkts = feed_all(&mut p, &[0xAA, 0x02, 0xFF, 0xFE]);
    assert_eq!(pkts.len(), 1);
    assert_eq!(pkts[0].typ, CmdType::Reset);
    assert!(pkts[0].payload.is_empty());
}

#[test]
fn cmd_types_from_bytes() {
    assert_eq!(CmdType::from(0x01), CmdType::Start);
    assert_eq!(CmdType::from(0x02), CmdType::Stop);
    assert_eq!(CmdType::from(0x03), CmdType::Ping);
    assert_eq!(CmdType::from(0xFF), CmdType::Reset);
    assert_eq!(CmdType::from(0x42), CmdType::Unknown(0x42));
}

#[test]
fn packet_clone_keeps_payload() {
    let p = packet(CmdType::Ping, b"abc");
    let q = p.clone();
    assert_eq!(q.typ, CmdType::Ping);
    assert_eq!(&q.payload[..], b"abc");
}

// ------------------------------------------------------------------ device

#[test]
fn device_start_heartbeats_stop() {
    let mut d = Device::new(CaptureLogger::new());
    d.tick(10);
    d.handle_packet(packet(CmdType::Start, &[]));
    assert_eq!(d.state, State::Active);
    d.tick(2009);
    d.tick(2010);
    d.tick(3010);
    d.tick(3500);
    d.handle_packet(packet(CmdType::Stop, &[]));
    assert_eq!(d.state, State::Idle);
    assert_eq!(
        text(d),
        "STATE: Idle -> Active\nHEARTBEAT 1000\nHEARTBEAT 2000\nHEARTBEAT 3000\nSTATE: Active -> Idle (STOP)\n"
    );
}

#[test]
fn device_stop_near_beat_logs_it() {
    let mut d = Device::new(CaptureLogger::new());
    d.handle_packet(packet(CmdType::Start, &[]));
    d.tick(1950);
    d.handle_packet(packet(CmdType::Stop, &[]));
    assert_eq!(
        text(d),
        "STATE: Idle -> Active\nHEARTBEAT 1000\nHEARTBEAT 2000\nSTATE: Active -> Idle (STOP)\n"
    );
}

#[test]
fn device_catches_up_heartbeats() {
    let mut d = Device::new(CaptureLogger::new());
    d.handle_packet(packet(CmdType::Start, &[]));
    d.handle_packet(packet(CmdType::Ping, &[]));
    d.tick(4000);
    assert_eq!(d.state, State::Active);
    assert_eq!(
        text(d),
        "STATE: Idle -> Active\nHEARTBEAT 1000\nPONG\nHEARTBEAT 2000\nHEARTBEAT 3000\nHEARTBEAT 4000\n"
    );
}

#[test]
fn device_inactivity_timeout() {
    let mut d = Device::new(CaptureLogger::new());
    d.tick(100);
    d.handle_packet(packet(CmdType::Start, &[]));
    d.tick(5099);
    assert_eq!(d.state, State::Active);
    d.tick(5100);
    assert_eq!(d.state, State::Idle);
    assert!(text(d).ends_with("STATE: Active -> Idle (inactivity)\n"));
}

#[test]
fn device_ping_lines() {
    let mut d = Device::new(CaptureLogger::new());
    d.handle_packet(packet(CmdType::Ping, b"hi"));
    d.handle_packet(packet(CmdType::Ping, &[0xFF, 0xFE]));
    d.handle_packet(packet(CmdType::Ping, "é".as_bytes()));
    assert_eq!(text(d), "PONG hi\nPONG <bin>\nPONG é\n");
}

#[test]
fn device_error_and_reset() {
    let mut d = Device::new(CaptureLogger::new());
    d.on_invalid_consecutive(2);
    assert_eq!(d.state, State::Idle);
    d.on_invalid_consecutive(3);
    assert_eq!(d.state, State::Error);
    d.on_invalid_consecutive(4);
    d.handle_packet(packet(CmdType::Start, &[]));
    d.handle_packet(packet(CmdType::Ping, b"x"));
    assert_eq!(d.state, State::Error);
    d.handle_packet(packet(CmdType::Reset, &[]));
    assert_eq!(d.state, State::Idle);
    d.handle_packet(packet(CmdType::Reset, &[]));
    assert_eq!(
        text(d),
        "ERRORS: 3 invalid frames -> STATE: * -> Error\nSTATE: Error -> Idle (RESET)\nRESET ignored (not in Error)\n"
    );
}

#[test]
fn device_unknown_type() {
    let mut d = Device::new(CaptureLogger::new());
    d.handle_packet(packet(CmdType::Unknown(0x0B), &[]));
    d.handle_packet(packet(CmdType::Unknown(0xFD), &[]));
    assert_eq!(text(d), "WARN: unknown TYPE=0x0B\nWARN: unknown TYPE=0xFD\n");
}

#[test]
fn device_next_deadline() {
    let mut d = Device::new(CaptureLogger::new());
    assert_eq!(d.next_deadline_ms(), None);
    d.tick(100);
    d.handle_packet(packet(CmdType::Start, &[]));
    assert_eq!(d.next_deadline_ms(), Some(2100));
    d.tick(4200);
    assert_eq!(d.next_deadline_ms(), Some(5100));
}

// ------------------------------------------------------------------ loggers

#[test]
fn capture_keeps_what_fits() {
    let mut log = CaptureLogger::new();
    let line = "x".repeat(100);
    for _ in 0..11 {
        log.line(&line);
    }
    // 10 lines of 101 bytes fit (1010); the 11th (101 more) does not.
    let t = log.take();
    assert_eq!(t.len(), 1010);
    let mut log = CaptureLogger::new();
    log.line(&"y".repeat(1022));
    log.line("z");
    // The line fits without its newline.
    let t = log.take();
    assert_eq!(t.len(), 1024);
    assert!(t.ends_with("z"));
}

#[test]
fn process_frame_reports_packets() {
    let mut bytes = make_frame(0x01, &[]).to_vec();
    bytes.extend_from_slice(&make_frame(0x03, b"yo"));
    bytes.extend_from_slice(&make_frame(0x03, &[]));
    bytes.extend_from_slice(&make_frame(0x7E, &[]));
    let mut log = CaptureLogger::new();
    assert_eq!(process_frame(FrameFormat::plain(), &bytes, &mut log), 0);
    assert_eq!(
        log.take().as_str(),
        "Rust(worker): START\nRust(worker): PONG yo\nRust(worker): PONG \nRust(worker): Unknown TYPE 0x7E\n"
    );
    let mut log = CaptureLogger::new();
    assert_eq!(process_frame(FrameFormat::plain(), &[0x01, 0x02, 0x03], &mut log), -1);
    assert_eq!(log.take().as_str(), "");
}

#[test]
fn run_with_larger_ring() {
    let mut input = make_frame(0x01, &[]).to_vec();
    for _ in 0..10 {
        input.extend_from_slice(&make_frame(0x03, b"x"));
    }
    let log = match run_with::<CaptureLogger, _, 128>(FrameFormat::plain(), &input, &[100], 100, CaptureLogger::new(), |_b: u8| {}) {
        Ok(log) => log,
        Err(_) => panic!("the run stays within the clock"),
    };
    let t = log.take();
    assert_eq!(t.matches("PONG x").count(), 10);
}

#[test]
fn run_with_reports_invalid_bytes() {
    let seen = std::cell::RefCell::new(Vec::new());
    let input = [0x13u8, 0x00, 0xAA, 0x01, 0xFF];
    let r = run_with::<CaptureLogger, _, 32>(FrameFormat::plain(), &input, &[2, 2, 5], 10, CaptureLogger::new(), |b: u8| {
        seen.borrow_mut().push(b)
    });
    assert!(r.is_ok());
    // 0x13 and 0x00 are noise before SYNC, 0x01 is a bad LEN, 0xFF is noise.
    assert_eq!(*seen.borrow(), vec![0x13, 0x00, 0x01, 0xFF]);
}

#[test]
fn process_frame_in_crc_format() {
    let fmt = FrameFormat { check: Check::Crc16Pair, stuffing: true };
    let bytes = make_frame_in(fmt, 0x03, b"ok");
    let mut log = CaptureLogger::new();
    assert_eq!(process_frame(fmt, &bytes, &mut log), 0);
    // The plain-format parser finds nothing in the same bytes.
    assert_eq!(process_frame(FrameFormat::plain(), &bytes, &mut log), -1);
    assert_eq!(log.take().as_str(), "Rust(worker): PONG ok\n");
}

#[test]
fn run_with_stuffed_format() {
    let fmt = FrameFormat { check: Check::Crc16Low, stuffing: true };
    let mut input = make_frame_in(fmt, 0x01, &[]).to_vec();
    input.extend_from_slice(&make_frame_in(fmt, 0x03, &[0xAA, 0x7D]));
    let log = match run_with::<CaptureLogger, _, 64>(fmt, &input, &[5], 20, CaptureLogger::new(), |_b: u8| {}) {
        Ok(log) => log,
        Err(_) => panic!("the run stays within the clock"),
    };
    assert_eq!(log.take().as_str(), "STATE: Idle -> Active\nHEARTBEAT 1000\nPONG <bin>\n");
}

#[test]
fn worker_step_actions() {
    let mut log = CaptureLogger::new();
    let start = make_frame(0x01, &[]).to_vec();
    assert_eq!(worker_step(FrameFormat::plain(), WorkerEvent::Frame(start), 5, &mut log), WorkerAction::Wait);
    assert_eq!(worker_step(FrameFormat::plain(), WorkerEvent::Timeout, 999, &mut log), WorkerAction::Wait);
    assert_eq!(worker_step(FrameFormat::plain(), WorkerEvent::Timeout, 1000, &mut log), WorkerAction::Heartbeat);
    assert_eq!(
        worker_step(FrameFormat::plain(), WorkerEvent::Frame(vec![0x00, 0x01]), 0, &mut log),
        WorkerAction::Wait
    );
    assert_eq!(worker_step(FrameFormat::plain(), WorkerEvent::StopRequested, 5000, &mut log), WorkerAction::Exit);
    assert_eq!(worker_step(FrameFormat::plain(), WorkerEvent::Disconnected, 5000, &mut log), WorkerAction::Exit);
    assert_eq!(log.take().as_str(), "Rust(worker): START\nRust(worker): HEARTBEAT\n");
}
