# uart_fsm

A verified UART framing stack. Frames

    [SYNC=0xAA][LEN][TYPE][PAYLOAD 0..24][CHECK]

arrive as a byte stream. They pass through a fixed ring buffer, are put back together by a
byte-at-a-time parser, and drive a device state machine (`Idle`, `Active`, `Error`). The device
logs its transitions, heartbeats and PING answers.

The library in `src/` is written in Verus. Every executable function carries a contract that is
stated over mathematical models (sequences of bytes and lines, a parser model, a device model),
and Verus proves each contract.

- `ringbuf`: a FIFO ring of `N` bytes that drops bytes when it is full.
- `frame`, `crc`: the frame layout, its check field (8-bit inverted sum, CRC-16-CCITT low byte,
  or both CRC bytes), and optional byte stuffing (`0xAA`/`0x7D` sent as `0x7D, b ^ 0x20`).
- `parser`: the stream parser, specified by a step function on its model.
- `fsm`: the device, specified by transition functions that give the new state and the lines
  logged.
- `log`: the `Logger` trait, a stdout logger and a 1024-byte capture logger.
- `harness`: the frame builder, and the millisecond-by-millisecond run of ring, parser and
  device, in any wire format.
- `worker`: frame processing for C-driven firmware, and the decisions of the worker loop
  (report a frame, log a heartbeat after a quiet second, stop).
- `laws`: proved properties that span operations. For example, a frame built in any format is
  parsed back to exactly its TYPE and payload.
- `bounded`: the `heapless` collections that the code holds, with the contracts of the methods
  it calls.

`app/` is the demo program (simulation, file, or TTY input; a frame maker) and the C-callable
entry points, including the worker thread. `tests/` runs the library on concrete inputs.
