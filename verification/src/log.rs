//! Line loggers: the `Logger` trait and the capture logger used by headless
//! runs.

use crate::bounded::{text_clone, text_new, text_push, text_push_str, text_view};
use std::io::Write;
use vstd::prelude::*;
use vstd::string::StringSliceAdditionalSpecFns;

verus! {

/// A sink for log lines.
pub trait Logger {
    /// The lines emitted so far, oldest first.
    spec fn lines(&self) -> Seq<Seq<char>>;

    /// Emit one log line (the line carries no newline of its own).
    fn line(&mut self, s: &str)
        ensures
            final(self).lines() == old(self).lines().push(s@),
    ;
}

/// Writes `s` and a newline to standard output (`writeln!` on
/// `std::io::stdout()`); a failed write is ignored.  Nothing is stated of it.
#[verifier::external_body]
fn print_line(s: &str) {
    let _ = writeln!(std::io::stdout(), "{}", s);
}

/// Logger that prints each line to standard output.
pub struct StdoutLogger {
    printed: Ghost<Seq<Seq<char>>>,
}

impl StdoutLogger {
    /// A logger that has printed nothing yet.
    pub fn new() -> (r: Self)
        ensures
            r.lines() == Seq::<Seq<char>>::empty(),
    {
        StdoutLogger { printed: Ghost(Seq::empty()) }
    }
}

impl Logger for StdoutLogger {
    closed spec fn lines(&self) -> Seq<Seq<char>> {
        self.printed@
    }

    fn line(&mut self, s: &str) {
        print_line(s);
        self.printed = Ghost(self.printed@.push(s@));
    }
}

/// Capacity in bytes of the capture buffer.
pub const CAPTURE_CAP: usize = 1024;

/// The capture text after one more line: the line's UTF-8 bytes and a newline
/// are appended when they fit; when only the line fits it goes in without the
/// newline; when the line does not fit nothing changes.
pub open spec fn capture_line(text: Seq<u8>, line: Seq<char>) -> Seq<u8> {
    let bytes = vstd::utf8::encode_utf8(line);
    if text.len() + bytes.len() <= CAPTURE_CAP {
        let t = text + bytes;
        if t.len() < CAPTURE_CAP {
            t.push(10u8)
        } else {
            t
        }
    } else {
        text
    }
}

/// The capture text after `lines`, starting from an empty buffer.
pub open spec fn capture_text(lines: Seq<Seq<char>>) -> Seq<u8>
    decreases lines.len(),
{
    if lines.len() == 0 {
        Seq::empty()
    } else {
        capture_line(capture_text(lines.drop_last()), lines.last())
    }
}

/// Logger that keeps what it is given in a fixed 1024-byte text buffer.
pub struct CaptureLogger {
    buf: heapless::String<1024>,
    emitted: Ghost<Seq<Seq<char>>>,
}

impl CaptureLogger {
    #[verifier::type_invariant]
    spec fn inv(&self) -> bool {
        text_view(self.buf) == capture_text(self.emitted@)
    }

    /// A capture logger that holds nothing.
    pub fn new() -> (r: Self)
        ensures
            r.lines() == Seq::<Seq<char>>::empty(),
    {
        CaptureLogger { buf: text_new(), emitted: Ghost(Seq::empty()) }
    }

    /// Consumes the logger and returns the captured text.
    pub fn take(self) -> (r: heapless::String<1024>)
        ensures
            text_view(r) == capture_text(self.lines()),
    {
        proof {
            use_type_invariant(&self);
        }
        self.buf
    }
}

impl Logger for CaptureLogger {
    closed spec fn lines(&self) -> Seq<Seq<char>> {
        self.emitted@
    }

    fn line(&mut self, s: &str) {
        proof {
            use_type_invariant(&*self);
        }
        let ghost emitted = self.emitted@.push(s@);
        let mut buf = text_clone(&self.buf);
        if text_push_str(&mut buf, s).is_ok() {
            let _ = text_push(&mut buf, '\n');
        }
        proof {
            assert(emitted.drop_last() =~= self.emitted@);
            assert(s.spec_bytes() == vstd::utf8::encode_utf8(s@));
        }
        *self = CaptureLogger { buf, emitted: Ghost(emitted) };
    }
}

} // verus!
