//! Frame processing for the worker that C firmware drives: parse a byte
//! buffer and report each valid packet as a line.

use crate::bounded::{payload_as_slice, payload_view};
use crate::frame::FrameFormat;
use crate::log::Logger;
use crate::parser::{cmd_of, feed, fresh_parser, CmdType, Packet, Parser};
use crate::frame::encode_frame;
use crate::laws::frame_roundtrip;
use crate::text::{hex2_text, lemma_hex2_differ, push_hex2, utf8_text};
use vstd::prelude::*;

verus! {

/// The line reported for a packet.
pub open spec fn worker_line(typ: CmdType, payload: Seq<u8>) -> Seq<char> {
    match typ {
        CmdType::Start => "Rust(worker): START"@,
        CmdType::Stop => "Rust(worker): STOP"@,
        CmdType::Ping => if vstd::utf8::valid_utf8(payload) {
            "Rust(worker): PONG "@ + vstd::utf8::decode_utf8(payload)
        } else {
            "Rust(worker): PONG <bin>"@
        },
        CmdType::Reset => "Rust(worker): RESET"@,
        CmdType::Unknown(x) => "Rust(worker): Unknown TYPE 0x"@ + hex2_text(x),
    }
}

/// The lines reported for the frames (TYPE byte and payload), in order.
pub open spec fn worker_lines(frames: Seq<(u8, Seq<u8>)>) -> Seq<Seq<char>> {
    frames.map_values(|f: (u8, Seq<u8>)| worker_line(cmd_of(f.0), f.1))
}

/// The frames that a fresh parser for `fmt` finds in `bytes`.
pub open spec fn frames_in(fmt: FrameFormat, bytes: Seq<u8>) -> Seq<(u8, Seq<u8>)> {
    feed(fresh_parser(fmt), bytes).1
}

/// Reports one packet.
fn report<L: Logger>(pkt: &Packet, log: &mut L)
    ensures
        final(log).lines() == old(log).lines().push(worker_line(pkt.typ, payload_view(pkt.payload))),
{
    match pkt.typ {
        CmdType::Start => log.line("Rust(worker): START"),
        CmdType::Stop => log.line("Rust(worker): STOP"),
        CmdType::Ping => {
            match utf8_text(payload_as_slice(&pkt.payload)) {
                Some(t) => {
                    let mut s = String::from_str("Rust(worker): PONG ");
                    s.append(t);
                    log.line(s.as_str());
                },
                None => log.line("Rust(worker): PONG <bin>"),
            }
        },
        CmdType::Reset => log.line("Rust(worker): RESET"),
        CmdType::Unknown(x) => {
            let mut s = String::from_str("Rust(worker): Unknown TYPE 0x");
            push_hex2(&mut s, x);
            log.line(s.as_str());
        },
    }
}

/// Runs a fresh parser for `format` over `bytes` and reports every valid
/// packet; returns 0 when at least one was found, -1 otherwise.
pub fn process_frame<L: Logger>(format: FrameFormat, bytes: &[u8], log: &mut L) -> (r: i32)
    ensures
        r == (if frames_in(format, bytes@).len() > 0 {
            0i32
        } else {
            -1i32
        }),
        final(log).lines() == old(log).lines() + worker_lines(frames_in(format, bytes@)),
{
    let ghost fresh = fresh_parser(format);
    let mut p = Parser::with_format(format);
    let mut ok = false;
    let mut i: usize = 0;
    assert(bytes@.take(0) =~= Seq::<u8>::empty());
    assert(old(log).lines() + worker_lines(Seq::empty()) =~= old(log).lines());
    while i < bytes.len()
        invariant
            i <= bytes.len(),
            p.wf(),
            p@ == feed(fresh, bytes@.take(i as int)).0,
            ok == (feed(fresh, bytes@.take(i as int)).1.len() > 0),
            log.lines() == old(log).lines() + worker_lines(feed(fresh, bytes@.take(i as int)).1),
        decreases bytes.len() - i,
    {
        let ghost before = feed(fresh, bytes@.take(i as int));
        proof {
            assert(bytes@.take(i + 1).drop_last() =~= bytes@.take(i as int));
        }
        match p.step(bytes[i], || {}) {
            Some(pkt) => {
                report(&pkt, log);
                ok = true;
            },
            None => {},
        }
        proof {
            let after = feed(fresh, bytes@.take(i + 1));
            match crate::parser::step_spec(before.0, bytes@[i as int]).frame {
                Some(f) => {
                    assert(after.1 == before.1.push(f));
                    assert(worker_lines(after.1) =~= worker_lines(before.1).push(
                        worker_line(cmd_of(f.0), f.1),
                    ));
                },
                None => {},
            }
        }
        i += 1;
    }
    proof {
        assert(bytes@.take(i as int) =~= bytes@);
    }
    if ok {
        0
    } else {
        -1
    }
}

/// What the worker's wait gave: a stop request, a frame, no frame within the
/// wait, or the end of the channel.
pub enum WorkerEvent {
    StopRequested,
    Frame(Vec<u8>),
    Timeout,
    Disconnected,
}

/// What the worker loop does next.
#[derive(Debug, Clone, Copy, PartialEq, Eq, Structural)]
pub enum WorkerAction {
    /// Leave the loop.
    Exit,
    /// Wait for the next event.
    Wait,
    /// A heartbeat was logged: restart the heartbeat clock, then wait.
    Heartbeat,
}

/// Quiet time, in milliseconds, after which the worker logs a heartbeat.
pub const WORKER_HEARTBEAT_MS: u64 = 1000;

/// What the worker does on `ev`, `since_hb_ms` after its last heartbeat.
pub open spec fn worker_action(ev: WorkerEvent, since_hb_ms: u64) -> WorkerAction {
    match ev {
        WorkerEvent::StopRequested => WorkerAction::Exit,
        WorkerEvent::Disconnected => WorkerAction::Exit,
        WorkerEvent::Frame(_) => WorkerAction::Wait,
        WorkerEvent::Timeout => if since_hb_ms >= WORKER_HEARTBEAT_MS {
            WorkerAction::Heartbeat
        } else {
            WorkerAction::Wait
        },
    }
}

/// The lines the worker logs on `ev`: a frame's packets are reported, a
/// timeout after the heartbeat interval logs a heartbeat.
pub open spec fn worker_event_lines(fmt: FrameFormat, ev: WorkerEvent, since_hb_ms: u64) -> Seq<Seq<char>> {
    match ev {
        WorkerEvent::Frame(bytes) => worker_lines(frames_in(fmt, bytes@)),
        WorkerEvent::Timeout => if since_hb_ms >= WORKER_HEARTBEAT_MS {
            seq!["Rust(worker): HEARTBEAT"@]
        } else {
            Seq::empty()
        },
        _ => Seq::empty(),
    }
}

/// One turn of the worker loop: acts on `ev`, given the time since the last
/// heartbeat, and says what the loop does next.
pub fn worker_step<L: Logger>(format: FrameFormat, ev: WorkerEvent, since_hb_ms: u64, log: &mut L) -> (a: WorkerAction)
    ensures
        a == worker_action(ev, since_hb_ms),
        final(log).lines() == old(log).lines() + worker_event_lines(format, ev, since_hb_ms),
{
    match ev {
        WorkerEvent::StopRequested => {
            assert(old(log).lines() + Seq::<Seq<char>>::empty() =~= old(log).lines());
            WorkerAction::Exit
        },
        WorkerEvent::Disconnected => {
            assert(old(log).lines() + Seq::<Seq<char>>::empty() =~= old(log).lines());
            WorkerAction::Exit
        },
        WorkerEvent::Frame(bytes) => {
            let _ = process_frame(format, bytes.as_slice(), log);
            WorkerAction::Wait
        },
        WorkerEvent::Timeout => {
            if since_hb_ms >= WORKER_HEARTBEAT_MS {
                log.line("Rust(worker): HEARTBEAT");
                assert(old(log).lines().push("Rust(worker): HEARTBEAT"@) =~= old(log).lines() + seq![
                    "Rust(worker): HEARTBEAT"@,
                ]);
                WorkerAction::Heartbeat
            } else {
                assert(old(log).lines() + Seq::<Seq<char>>::empty() =~= old(log).lines());
                WorkerAction::Wait
            }
        },
    }
}

/// The characters of a report line that tell the commands apart.
proof fn lemma_worker_line_shape(a: CmdType, p: Seq<u8>)
    ensures
        worker_line(a, p).len() >= 18,
        worker_line(a, p).take(14) == "Rust(worker): "@,
        worker_line(a, p)[14] == match a {
            CmdType::Start => 'S',
            CmdType::Stop => 'S',
            CmdType::Ping => 'P',
            CmdType::Reset => 'R',
            CmdType::Unknown(_) => 'U',
        },
        a == CmdType::Start ==> worker_line(a, p)[16] == 'A',
        a == CmdType::Stop ==> worker_line(a, p)[16] == 'O',
        a matches CmdType::Unknown(x) ==> worker_line(a, p).len() == 31 && worker_line(a, p).subrange(29, 31)
            == hex2_text(x),
{
    reveal_strlit("Rust(worker): ");
    reveal_strlit("Rust(worker): START");
    reveal_strlit("Rust(worker): STOP");
    reveal_strlit("Rust(worker): PONG ");
    reveal_strlit("Rust(worker): PONG <bin>");
    reveal_strlit("Rust(worker): RESET");
    reveal_strlit("Rust(worker): Unknown TYPE 0x");
    let l = worker_line(a, p);
    match a {
        CmdType::Ping => {
            if vstd::utf8::valid_utf8(p) {
                let pre = "Rust(worker): PONG "@;
                assert(l == pre + vstd::utf8::decode_utf8(p));
                assert(l.take(14) =~= pre.take(14));
                assert(l[14] == pre[14]);
            } else {
                assert(l.take(14) =~= "Rust(worker): PONG <bin>"@.take(14));
            }
        },
        CmdType::Unknown(x) => {
            let pre = "Rust(worker): Unknown TYPE 0x"@;
            lemma_hex2_differ(x, if x == 0 { 1 } else { 0 });
            assert(l == pre + hex2_text(x));
            assert(l.take(14) =~= pre.take(14));
            assert(l[14] == pre[14]);
            assert(l.subrange(29, 31) =~= hex2_text(x));
        },
        CmdType::Start => {
            assert(l.take(14) =~= "Rust(worker): START"@.take(14));
        },
        CmdType::Stop => {
            assert(l.take(14) =~= "Rust(worker): STOP"@.take(14));
        },
        CmdType::Reset => {
            assert(l.take(14) =~= "Rust(worker): RESET"@.take(14));
        },
    }
}

/// Law (worker report): every line the worker reports starts with
/// `Rust(worker): ` and goes on with the command it reports (START, STOP and
/// RESET by name, whatever the payload; a PING by its PONG); packets of
/// different commands (an unknown TYPE byte counting as its own command) are
/// reported by different lines, whatever their payloads.
pub proof fn worker_lines_tell_commands(a: CmdType, p: Seq<u8>, b: CmdType, q: Seq<u8>)
    ensures
        worker_line(a, p).take(14) == "Rust(worker): "@,
        a == CmdType::Start ==> worker_line(a, p).skip(14) == "START"@,
        a == CmdType::Stop ==> worker_line(a, p).skip(14) == "STOP"@,
        a == CmdType::Reset ==> worker_line(a, p).skip(14) == "RESET"@,
        a == CmdType::Ping ==> worker_line(a, p).subrange(14, 18) == "PONG"@,
        a != b ==> worker_line(a, p) != worker_line(b, q),
{
    reveal_strlit("START");
    reveal_strlit("STOP");
    reveal_strlit("RESET");
    reveal_strlit("PONG");
    reveal_strlit("Rust(worker): START");
    reveal_strlit("Rust(worker): STOP");
    reveal_strlit("Rust(worker): RESET");
    reveal_strlit("Rust(worker): PONG ");
    reveal_strlit("Rust(worker): PONG <bin>");
    match a {
        CmdType::Start => assert(worker_line(a, p).skip(14) =~= "START"@),
        CmdType::Stop => assert(worker_line(a, p).skip(14) =~= "STOP"@),
        CmdType::Reset => assert(worker_line(a, p).skip(14) =~= "RESET"@),
        CmdType::Ping => {
            if vstd::utf8::valid_utf8(p) {
                let pre = "Rust(worker): PONG "@;
                assert(worker_line(a, p) == pre + vstd::utf8::decode_utf8(p));
                assert(worker_line(a, p).subrange(14, 18) =~= pre.subrange(14, 18));
            }
            assert(worker_line(a, p).subrange(14, 18) =~= "PONG"@);
        },
        _ => {},
    }
    lemma_worker_line_shape(a, p);
    lemma_worker_line_shape(b, q);
    if a != b {
        let la = worker_line(a, p);
        let lb = worker_line(b, q);
        if la[14] == lb[14] {
            match a {
                CmdType::Unknown(x) => {
                    let y = match b {
                        CmdType::Unknown(y) => y,
                        _ => 0,
                    };
                    lemma_hex2_differ(x, y);
                    assert(la.subrange(29, 31) != lb.subrange(29, 31));
                },
                _ => {
                    assert(la[16] != lb[16]);
                },
            }
        }
    }
}

/// Law (worker and builder agree): a buffer that holds one frame built in the
/// worker's format is reported by exactly one line, that of the frame's
/// command and payload.
pub proof fn worker_reports_built_frame(fmt: FrameFormat, typ: u8, payload: Seq<u8>)
    requires
        payload.len() <= 24,
    ensures
        frames_in(fmt, encode_frame(fmt, typ, payload)) == seq![(typ, payload)],
        worker_lines(frames_in(fmt, encode_frame(fmt, typ, payload))) == seq![worker_line(cmd_of(typ), payload)],
{
    let m = fresh_parser(fmt);
    frame_roundtrip(m, typ, payload);
    assert(worker_lines(seq![(typ, payload)]) =~= seq![worker_line(cmd_of(typ), payload)]);
}


} // verus!
