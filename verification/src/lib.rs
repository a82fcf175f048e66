//! UART framing library.
//!
//! Frames `[SYNC=0xAA][LEN][TYPE][PAYLOAD...][CHECK...]` arrive as a byte
//! stream, pass through a fixed ring buffer, are reassembled by a byte-at-a-time
//! parser and drive a device state machine (`Idle`, `Active`, `Error`) that
//! logs its transitions and heartbeats.
//!
//! - `ringbuf`: fixed-capacity byte ring with drop-on-overflow.
//! - `frame`, `crc`: the frame layout, its check fields and byte stuffing.
//! - `parser`: the stream parser and its step function.
//! - `fsm`: the device state machine.
//! - `log`: the `Logger` trait and its stdout and capture loggers.
//! - `harness`: frame building and the ring -> parser -> device pipeline.
//! - `worker`: frame processing for the C-driven worker.
//! - `laws`: properties that span several operations.
//! - `bounded`, `text`: the `heapless` collections and the text helpers used above.

pub mod bounded;
pub mod crc;
pub mod frame;
pub mod fsm;
pub mod harness;
pub mod laws;
pub mod log;
pub mod parser;
pub mod ringbuf;
pub mod text;
pub mod worker;
