//! Device state machine: `Idle`, `Active`, `Error`, with heartbeats while
//! active, an inactivity timeout, and recovery from `Error` by RESET.
//!
//! ```text
//! Idle   -> Active : on START
//! Active -> Idle   : on STOP or inactivity (>= 5000 ms)
//! Any    -> Error  : on 3 consecutive invalid frames
//! Error  -> Idle   : on RESET
//! ```

use crate::bounded::{payload_as_slice, payload_view};
use crate::log::Logger;
use crate::parser::{CmdType, Packet};
use crate::text::{dec_text, hex2_text, push_dec, push_hex2, utf8_text};
use vstd::prelude::*;

verus! {

/// The device's operational states.
#[derive(Debug, Clone, Copy, PartialEq, Eq, Structural)]
pub enum State {
    Idle,
    Active,
    Error,
}

/// The device's state and timers.
pub struct DeviceModel {
    pub state: State,
    pub now: u32,
    pub active_since: u32,
    pub last_cmd: u32,
    pub next_hb: u32,
    pub threshold: u32,
}

/// Inactivity after which an active device falls back to `Idle`, in ms.
pub const INACTIVITY_MS: u32 = 5000;

/// Heartbeat period while active, in ms.
pub const HEARTBEAT_MS: u32 = 1000;

/// `HEARTBEAT <ms>`.
pub open spec fn heartbeat_line(ms: u32) -> Seq<char> {
    "HEARTBEAT "@ + dec_text(ms as nat)
}

/// `ERRORS: <n> invalid frames -> STATE: * -> Error`.
pub open spec fn errors_line(n: u32) -> Seq<char> {
    "ERRORS: "@ + dec_text(n as nat) + " invalid frames -> STATE: * -> Error"@
}

/// The answer to a PING: `PONG`, `PONG <text>`, or `PONG <bin>` for a payload
/// that is not UTF-8.
pub open spec fn pong_line(payload: Seq<u8>) -> Seq<char> {
    if payload.len() == 0 {
        "PONG"@
    } else if vstd::utf8::valid_utf8(payload) {
        "PONG "@ + vstd::utf8::decode_utf8(payload)
    } else {
        "PONG <bin>"@
    }
}

/// `WARN: unknown TYPE=0x<XX>`.
pub open spec fn unknown_line(x: u8) -> Seq<char> {
    "WARN: unknown TYPE=0x"@ + hex2_text(x)
}

/// The consistency that every operation keeps: heartbeats are due no earlier
/// than activation, on a 1000 ms cadence from it (until the schedule reaches
/// the end of the clock); while active, the next one is still ahead of the
/// clock (or the schedule has reached the end of the clock); and the error
/// threshold is 3.
pub open spec fn device_wf(d: DeviceModel) -> bool {
    &&& d.active_since <= d.next_hb
    &&& d.next_hb == u32::MAX || (d.next_hb - d.active_since) % 1000 == 0
    &&& d.state == State::Active ==> d.next_hb > d.now || d.next_hb == u32::MAX
    &&& d.threshold == 3
}

/// The heartbeat lines due by `now`, starting with the one scheduled at `next`.
pub open spec fn heartbeats(next: u32, since: u32, now: u32) -> Seq<Seq<char>>
    decreases u32::MAX - next,
{
    if next <= now && next < u32::MAX {
        seq![heartbeat_line((next - since) as u32)] + heartbeats(
            next.saturating_add(1000),
            since,
            now,
        )
    } else {
        Seq::empty()
    }
}

/// The heartbeat schedule after the heartbeats due by `now`.
pub open spec fn next_after(next: u32, now: u32) -> u32
    decreases u32::MAX - next,
{
    if next <= now && next < u32::MAX {
        next_after(next.saturating_add(1000), now)
    } else {
        next
    }
}

/// What a tick at `now` does: the new state and the lines logged.
pub open spec fn tick_spec(d: DeviceModel, now: u32) -> (DeviceModel, Seq<Seq<char>>) {
    let active = d.state == State::Active;
    let beats = if active {
        heartbeats(d.next_hb, d.active_since, now)
    } else {
        Seq::empty()
    };
    let idle = active && now.saturating_sub(d.last_cmd) >= INACTIVITY_MS;
    (
        DeviceModel {
            now,
            next_hb: if active {
                next_after(d.next_hb, now)
            } else {
                d.next_hb
            },
            state: if idle {
                State::Idle
            } else {
                d.state
            },
            ..d
        },
        beats + if idle {
            seq!["STATE: Active -> Idle (inactivity)"@]
        } else {
            Seq::empty()
        },
    )
}

/// What a report of `n` consecutive invalid frames does.
pub open spec fn invalid_spec(d: DeviceModel, n: u32) -> (DeviceModel, Seq<Seq<char>>) {
    if d.state != State::Error && n >= d.threshold {
        (DeviceModel { state: State::Error, ..d }, seq![errors_line(n)])
    } else {
        (d, Seq::empty())
    }
}

/// What a valid packet does.
pub open spec fn packet_spec(d: DeviceModel, typ: CmdType, payload: Seq<u8>) -> (
    DeviceModel,
    Seq<Seq<char>>,
) {
    match typ {
        CmdType::Start => match d.state {
            State::Idle => (
                DeviceModel {
                    state: State::Active,
                    active_since: d.now,
                    last_cmd: d.now,
                    next_hb: d.now.saturating_add(2000),
                    ..d
                },
                seq!["STATE: Idle -> Active"@, "HEARTBEAT 1000"@],
            ),
            State::Active => (DeviceModel { last_cmd: d.now, ..d }, Seq::empty()),
            State::Error => (d, Seq::empty()),
        },
        CmdType::Stop => if d.state == State::Active {
            let beat = d.now + 100 >= d.next_hb;
            (
                DeviceModel {
                    state: State::Idle,
                    next_hb: if beat {
                        (d.next_hb + 1000) as u32
                    } else {
                        d.next_hb
                    },
                    ..d
                },
                if beat {
                    seq![heartbeat_line((d.next_hb - d.active_since) as u32)]
                } else {
                    Seq::<Seq<char>>::empty()
                } + seq!["STATE: Active -> Idle (STOP)"@],
            )
        } else {
            (d, Seq::empty())
        },
        CmdType::Ping => if d.state != State::Error {
            (DeviceModel { last_cmd: d.now, ..d }, seq![pong_line(payload)])
        } else {
            (d, Seq::empty())
        },
        CmdType::Reset => if d.state == State::Error {
            (
                DeviceModel { state: State::Idle, threshold: 3, ..d },
                seq!["STATE: Error -> Idle (RESET)"@],
            )
        } else {
            (DeviceModel { threshold: 3, ..d }, seq!["RESET ignored (not in Error)"@])
        },
        CmdType::Unknown(x) => (d, seq![unknown_line(x)]),
    }
}

/// While active, the earlier of the next heartbeat and the inactivity
/// timeout; otherwise `None`.
pub open spec fn deadline(d: DeviceModel) -> Option<u32> {
    if d.state == State::Active {
        Some(
            if d.next_hb <= d.last_cmd + INACTIVITY_MS {
                d.next_hb
            } else {
                (d.last_cmd + INACTIVITY_MS) as u32
            },
        )
    } else {
        None
    }
}

/// Whether the clock arithmetic of a packet stays within `u32`: a STOP while
/// active compares `now + 100` with the heartbeat schedule and may move it on
/// by 1000 ms.
pub open spec fn packet_in_range(d: DeviceModel, typ: CmdType) -> bool {
    (typ == CmdType::Stop && d.state == State::Active) ==> {
        &&& d.now + 100 <= u32::MAX
        &&& d.now + 100 >= d.next_hb ==> d.next_hb + 1000 <= u32::MAX
    }
}

/// The UART device, logging through `L`.
pub struct Device<L: Logger> {
    pub state: State,
    pub now_ms: u32,
    pub active_since_ms: u32,
    pub last_cmd_ms: u32,
    pub next_hb_ms: u32,
    pub invalid_threshold: u32,
    pub log: L,
}

impl<L: Logger> Device<L> {
    /// The device's state and timers as one value.
    pub open spec fn model(&self) -> DeviceModel {
        DeviceModel {
            state: self.state,
            now: self.now_ms,
            active_since: self.active_since_ms,
            last_cmd: self.last_cmd_ms,
            next_hb: self.next_hb_ms,
            threshold: self.invalid_threshold,
        }
    }

    pub open spec fn wf(&self) -> bool {
        device_wf(self.model())
    }

    /// Creates a new device, `Idle` at time 0.
    pub fn new(logger: L) -> (d: Self)
        ensures
            d.wf(),
            d.model() == (DeviceModel {
                state: State::Idle,
                now: 0,
                active_since: 0,
                last_cmd: 0,
                next_hb: 0,
                threshold: 3,
            }),
            d.log == logger,
    {
        Self {
            state: State::Idle,
            now_ms: 0,
            active_since_ms: 0,
            last_cmd_ms: 0,
            next_hb_ms: 0,
            invalid_threshold: 3,
            log: logger,
        }
    }

    fn log_heartbeat(&mut self)
        requires
            old(self).active_since_ms <= old(self).next_hb_ms,
        ensures
            final(self).model() == old(self).model(),
            final(self).log.lines() == old(self).log.lines().push(
                heartbeat_line((old(self).next_hb_ms - old(self).active_since_ms) as u32),
            ),
    {
        let mut s = String::from_str("HEARTBEAT ");
        push_dec(&mut s, self.next_hb_ms - self.active_since_ms);
        self.log.line(s.as_str());
    }

    /// Advances the clock to `now_ms`: while active, logs every heartbeat due
    /// by then (a schedule that has reached the end of the clock logs no more),
    /// and falls back to `Idle` after 5000 ms without a command.
    pub fn tick(&mut self, now_ms: u32)
        requires
            old(self).wf(),
        ensures
            final(self).wf(),
            final(self).model() == tick_spec(old(self).model(), now_ms).0,
            final(self).log.lines() == old(self).log.lines() + tick_spec(old(self).model(), now_ms).1,
    {
        let ghost d0 = self.model();
        let ghost lines0 = self.log.lines();
        self.now_ms = now_ms;

        // Heartbeats.
        if self.state == State::Active && now_ms >= self.next_hb_ms && self.next_hb_ms < u32::MAX {
            while now_ms >= self.next_hb_ms && self.next_hb_ms < u32::MAX
                invariant
                    self.state == State::Active,
                    self.now_ms == now_ms,
                    self.active_since_ms <= self.next_hb_ms,
                    self.next_hb_ms == u32::MAX || (self.next_hb_ms - self.active_since_ms) % 1000
                        == 0,
                    self.invalid_threshold == 3,
                    self.model() == (DeviceModel { now: now_ms, next_hb: self.next_hb_ms, ..d0 }),
                    next_after(self.next_hb_ms, now_ms) == next_after(d0.next_hb, now_ms),
                    lines0 + heartbeats(d0.next_hb, d0.active_since, now_ms) == self.log.lines()
                        + heartbeats(self.next_hb_ms, d0.active_since, now_ms),
                decreases u32::MAX - self.next_hb_ms,
            {
                let ghost before = self.log.lines();
                let ghost next = self.next_hb_ms;
                self.log_heartbeat();
                self.next_hb_ms = self.next_hb_ms.saturating_add(1000);
                proof {
                    assert(before + heartbeats(next, d0.active_since, now_ms) =~= self.log.lines()
                        + heartbeats(self.next_hb_ms, d0.active_since, now_ms));
                }
            }
        }
        proof {
            if d0.state == State::Active {
                assert(self.log.lines() + heartbeats(self.next_hb_ms, d0.active_since, now_ms)
                    =~= self.log.lines());
            } else {
                assert(lines0 + Seq::<Seq<char>>::empty() =~= lines0);
            }
        }

        // Inactivity timeout.
        if self.state == State::Active && now_ms.saturating_sub(self.last_cmd_ms) >= INACTIVITY_MS {
            self.log.line("STATE: Active -> Idle (inactivity)");
            self.state = State::Idle;
        }
        proof {
            let t = tick_spec(d0, now_ms);
            assert(self.log.lines() =~= lines0 + t.1);
        }
    }

    /// Takes the parser's count of consecutive invalid frames; at the
    /// threshold (3) the device enters `Error`.
    pub fn on_invalid_consecutive(&mut self, n: u32)
        requires
            old(self).wf(),
        ensures
            final(self).wf(),
            final(self).model() == invalid_spec(old(self).model(), n).0,
            final(self).log.lines() == old(self).log.lines() + invalid_spec(old(self).model(), n).1,
    {
        if self.state != State::Error && n >= self.invalid_threshold {
            let mut s = String::from_str("ERRORS: ");
            push_dec(&mut s, n);
            s.append(" invalid frames -> STATE: * -> Error");
            self.log.line(s.as_str());
            self.state = State::Error;
        }
        proof {
            assert(self.log.lines() =~= old(self).log.lines() + invalid_spec(old(self).model(), n).1);
        }
    }

    /// Whether acting on a packet of type `typ` now keeps every timer within
    /// the `u32` clock.
    pub fn packet_fits(&self, typ: CmdType) -> (r: bool)
        ensures
            r == packet_in_range(self.model(), typ),
    {
        match typ {
            CmdType::Stop => match self.state {
                State::Active => {
                    self.now_ms <= u32::MAX - 100 && (self.now_ms + 100 < self.next_hb_ms
                        || self.next_hb_ms <= u32::MAX - 1000)
                },
                _ => true,
            },
            _ => true,
        }
    }

    /// Acts on a valid packet.
    pub fn handle_packet(&mut self, pkt: Packet)
        requires
            old(self).wf(),
            packet_in_range(old(self).model(), pkt.typ),
        ensures
            final(self).wf(),
            final(self).model() == packet_spec(old(self).model(), pkt.typ, payload_view(pkt.payload)).0,
            final(self).log.lines() == old(self).log.lines() + packet_spec(
                old(self).model(),
                pkt.typ,
                payload_view(pkt.payload),
            ).1,
    {
        let ghost lines0 = self.log.lines();
        match pkt.typ {
            CmdType::Start => match self.state {
                State::Idle => {
                    self.log.line("STATE: Idle -> Active");
                    self.state = State::Active;
                    self.active_since_ms = self.now_ms;
                    self.last_cmd_ms = self.now_ms;
                    // The first beat is logged at once, for visibility.
                    self.log.line("HEARTBEAT 1000");
                    // The next timed beat comes 2000 ms after activation.
                    self.next_hb_ms = self.active_since_ms.saturating_add(2000);
                },
                State::Active => {
                    self.last_cmd_ms = self.now_ms;
                },
                State::Error => {},
            },
            CmdType::Stop => {
                if self.state == State::Active {
                    if self.now_ms + 100 >= self.next_hb_ms {
                        self.log_heartbeat();
                        self.next_hb_ms = self.next_hb_ms + 1000;
                    }
                    self.log.line("STATE: Active -> Idle (STOP)");
                    self.state = State::Idle;
                }
            },
            CmdType::Ping => {
                if self.state != State::Error {
                    let payload = payload_as_slice(&pkt.payload);
                    if payload.len() == 0 {
                        self.log.line("PONG");
                    } else {
                        match utf8_text(payload) {
                            Some(t) => {
                                let mut s = String::from_str("PONG ");
                                s.append(t);
                                self.log.line(s.as_str());
                            },
                            None => {
                                self.log.line("PONG <bin>");
                            },
                        }
                    }
                    self.last_cmd_ms = self.now_ms;
                }
            },
            CmdType::Reset => {
                if self.state == State::Error {
                    self.log.line("STATE: Error -> Idle (RESET)");
                    self.state = State::Idle;
                } else {
                    // Outside Error, RESET is only noted.
                    self.log.line("RESET ignored (not in Error)");
                }
                self.invalid_threshold = 3;
            },
            CmdType::Unknown(x) => {
                let mut s = String::from_str("WARN: unknown TYPE=0x");
                push_hex2(&mut s, x);
                self.log.line(s.as_str());
            },
        }
        proof {
            let p = packet_spec(old(self).model(), pkt.typ, payload_view(pkt.payload));
            assert(self.log.lines() =~= lines0 + p.1);
        }
    }

    /// For tickless scheduling: while active, the next time at which a tick
    /// has work (a heartbeat or the inactivity timeout); otherwise `None`.
    pub fn next_deadline_ms(&self) -> (r: Option<u32>)
        requires
            self.state == State::Active ==> self.last_cmd_ms + INACTIVITY_MS <= u32::MAX,
        ensures
            r == deadline(self.model()),
    {
        match self.state {
            State::Active => {
                let hb = self.next_hb_ms;
                let idle = self.last_cmd_ms + INACTIVITY_MS;
                Some(if hb <= idle { hb } else { idle })
            },
            _ => None,
        }
    }
}

} // verus!
