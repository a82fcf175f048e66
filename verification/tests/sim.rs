//! Simulation tests for the UART FSM + parser pipeline.

use uart_fsm::harness::{make_frame, run_capture};

#[test]
fn valid_start_ping_stop() {
    let mut bytes: Vec<u8> = Vec::new();
    bytes.extend_from_slice(&make_frame(0x01, &[])); // START
    bytes.extend_from_slice(&make_frame(0x03, b"hi")); // PING "hi"
    bytes.extend_from_slice(&make_frame(0x02, &[])); // STOP

    let log = run_capture(&bytes, &[1, 2, 1, 3, 5], 2500);
    assert!(log.contains("STATE: Idle -> Active"));
    assert!(log.contains("PONG hi"));
    assert!(log.contains("HEARTBEAT 1000"));
    assert!(log.contains("STATE: Active -> Idle (STOP)"));
}

#[test]
fn noise_error_reset() {
    // Noise (13 00), then a short/bad frame (AA 01 FF), then a valid RESET frame.
    let mut bytes: Vec<u8> = vec![0x13, 0x00, 0xAA, 0x01, 0xFF];
    bytes.extend_from_slice(&make_frame(0xFF, &[])); // RESET

    let log = run_capture(&bytes, &[2, 2, 5], 150);
    assert!(log.contains("ERRORS: 3 invalid frames"));
    assert!(log.contains("-> Error"));
    assert!(log.contains("STATE: Error -> Idle (RESET)"));
}

#[test]
fn len_boundaries() {
    let mut bytes: Vec<u8> = Vec::new();
    let payload24 = [b'A'; 24]; // Max PING payload
    bytes.extend_from_slice(&make_frame(0x01, &[])); // START
    bytes.extend_from_slice(&make_frame(0x03, &payload24)); // PING (24A)
    bytes.extend_from_slice(&make_frame(0x02, &[])); // STOP
    let log = run_capture(&bytes, &[7], 3000);
    assert!(log.contains("PONG AAAAAAAAAAAAAAAAAAAAAAAA"));
}

#[test]
fn overflow_still_runs() {
    // Many PING frames flood a small ring; START goes first so the device goes Active.
    let mut bytes: Vec<u8> = Vec::new();
    for _ in 0..10 {
        bytes.extend_from_slice(&make_frame(0x03, b"x"));
    }
    let mut input: Vec<u8> = make_frame(0x01, &[]).to_vec(); // START
    input.extend_from_slice(&bytes);
    let log = run_capture(&input, &[100], 1200);
    assert!(log.contains("STATE: Idle -> Active"));
}

#[test]
fn inactivity_timeout() {
    // START and then wait; back to Idle after 5 s of inactivity.
    let bytes = make_frame(0x01, &[]); // START
    let log = run_capture(&bytes, &[8], 5200);
    assert!(log.contains("STATE: Active -> Idle (inactivity)"));
}
