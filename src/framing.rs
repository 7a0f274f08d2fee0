use vstd::prelude::*;

use crate::status::{parse_status_bytes, status_of, CaptureStatus};

verus! {

/// Longest status line kept before the stream is declared broken.
pub const MAX_LINE_LEN: usize = 4096;

/// Carriage return: ends a status line.
pub const CR: u8 = 13;

/// Line feed: ends a diagnostic line, which is dropped.
pub const LF: u8 = 10;

/// What one byte of the progress stream brings about.
#[derive(Clone, Copy, Debug, PartialEq, Eq, Structural)]
pub enum FrameEvent {
    /// Nothing to deliver: the byte was buffered, or a line was dropped.
    Pending,
    /// A status line was completed and decoded.
    Record(CaptureStatus),
    /// The pending line reached its bound without a terminator.
    Overflow,
}

/// A progress stream that misbehaved.
#[derive(Clone, Copy, Debug, PartialEq, Eq, Structural)]
pub enum StreamError {
    /// A line grew past `MAX_LINE_LEN` bytes without a terminator.
    LineTooLong,
}

/// The framing rule for one byte, given the pending line `buf`.
pub open spec fn frame_step(buf: Seq<u8>, b: u8) -> (Seq<u8>, FrameEvent) {
    if b == CR {
        if buf.len() > 0 {
            match status_of(buf) {
                Some(st) => (seq![], FrameEvent::Record(st)),
                None => (seq![], FrameEvent::Pending),
            }
        } else {
            (seq![], FrameEvent::Pending)
        }
    } else if b == LF {
        (seq![], FrameEvent::Pending)
    } else if buf.len() >= MAX_LINE_LEN {
        (buf, FrameEvent::Overflow)
    } else {
        (buf.push(b), FrameEvent::Pending)
    }
}

/// Pending line, records delivered so far, and whether the stream broke,
/// after `bytes`. Nothing is read past a break.
pub open spec fn frame_stream(bytes: Seq<u8>) -> (Seq<u8>, Seq<CaptureStatus>, bool)
    decreases bytes.len(),
{
    if bytes.len() == 0 {
        (seq![], seq![], false)
    } else {
        let prev = frame_stream(bytes.drop_last());
        if prev.2 {
            prev
        } else {
            let (buf, ev) = frame_step(prev.0, bytes.last());
            match ev {
                FrameEvent::Record(st) => (buf, prev.1.push(st), false),
                FrameEvent::Overflow => (buf, prev.1, true),
                FrameEvent::Pending => (buf, prev.1, false),
            }
        }
    }
}

/// Splits a capture's progress stream into status lines.
pub struct StatusFramer {
    buf: Vec<u8>,
}

impl View for StatusFramer {
    type V = Seq<u8>;

    closed spec fn view(&self) -> Seq<u8> {
        self.buf@
    }
}

impl StatusFramer {
    pub closed spec fn wf(&self) -> bool {
        self.buf@.len() <= MAX_LINE_LEN
    }

    pub fn new() -> (r: StatusFramer)
        ensures
            r.wf(),
            r@ == Seq::<u8>::empty(),
    {
        StatusFramer { buf: Vec::new() }
    }

    /// Takes one byte of the stream.
    pub fn push_byte(&mut self, b: u8) -> (ev: FrameEvent)
        requires
            old(self).wf(),
        ensures
            final(self).wf(),
            (final(self)@, ev) == frame_step(old(self)@, b),
    {
        if b == CR {
            if self.buf.len() > 0 {
                let r = parse_status_bytes(self.buf.as_slice());
                self.buf.clear();
                match r {
                    Some(st) => FrameEvent::Record(st),
                    None => FrameEvent::Pending,
                }
            } else {
                FrameEvent::Pending
            }
        } else if b == LF {
            self.buf.clear();
            FrameEvent::Pending
        } else if self.buf.len() >= MAX_LINE_LEN {
            FrameEvent::Overflow
        } else {
            self.buf.push(b);
            FrameEvent::Pending
        }
    }
}

/// Decodes a whole progress stream: the records of its status lines in
/// order, and the error that ended it early, if any.
pub fn parse_stream(bytes: &[u8]) -> (r: (Vec<CaptureStatus>, Option<StreamError>))
    ensures
        r.0@ == frame_stream(bytes@).1,
        r.1 == (if frame_stream(bytes@).2 {
            Some(StreamError::LineTooLong)
        } else {
            None
        }),
{
    let mut framer = StatusFramer::new();
    let mut records: Vec<CaptureStatus> = Vec::new();
    let mut i: usize = 0;
    proof {
        assert(bytes@.take(0) =~= Seq::<u8>::empty());
    }
    while i < bytes.len()
        invariant
            i <= bytes@.len(),
            framer.wf(),
            frame_stream(bytes@.take(i as int)) == (framer@, records@, false),
        decreases bytes@.len() - i,
    {
        proof {
            assert(bytes@.take(i + 1).drop_last() =~= bytes@.take(i as int));
        }
        let ev = framer.push_byte(bytes[i]);
        match ev {
            FrameEvent::Record(st) => {
                records.push(st);
            },
            FrameEvent::Overflow => {
                proof {
                    lemma_stream_stays_broken(bytes@, i as int + 1);
                }
                return (records, Some(StreamError::LineTooLong));
            },
            FrameEvent::Pending => {},
        }
        i = i + 1;
    }
    proof {
        assert(bytes@.take(bytes@.len() as int) =~= bytes@);
    }
    (records, None)
}

/// Once the stream has broken, later bytes change nothing.
proof fn lemma_stream_stays_broken(bytes: Seq<u8>, i: int)
    requires
        0 <= i <= bytes.len(),
        frame_stream(bytes.take(i)).2,
    ensures
        frame_stream(bytes) == frame_stream(bytes.take(i)),
    decreases bytes.len() - i,
{
    if i < bytes.len() {
        assert(bytes.take(i + 1).drop_last() =~= bytes.take(i));
        lemma_stream_stays_broken(bytes, i + 1);
    } else {
        assert(bytes.take(i) =~= bytes);
    }
}

} // verus!
