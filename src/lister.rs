//! The listing of the root directory as a state machine.
//!
//! The machine never touches the kernel itself. Each call of `step` hands it
//! the outcome of the previous action and returns the next action: open the
//! root directory, fill the entry buffer, write bytes to standard output,
//! close the directory, or exit with a code.
use crate::output::{listing_text, print, render_entries};
use crate::record::{decode_records, decode_spec, encode_spec, lemma_round_trip, valid_name};
use vstd::prelude::*;
use vstd::slice::slice_subrange;
use vstd::string::StringSliceAdditionalSpecFns;

verus! {

/// Capacity of the entry buffer that each fill uses.
pub const CAPACITY: usize = 1024;

/// Where the listing stands.
#[derive(Clone, Copy, Debug, PartialEq, Eq, Structural)]
pub enum Phase {
    /// Nothing has been done yet.
    Start,
    /// The root directory is being opened.
    Opening,
    /// Opening failed; the diagnostic is being written.
    Reporting,
    /// The directory is open and the buffer is being filled.
    Reading { handle: i32 },
    /// The names of one fill are being written; `last` when the fill was short.
    Emitting { handle: i32, last: bool },
    /// A fill could not be decoded; the diagnostic is being written.
    Faulting { handle: i32 },
    /// The directory is being closed; `code` is the exit code that follows.
    Closing { handle: i32, code: i32 },
    /// The listing is over.
    Done { code: i32 },
}

/// The outcome of the previous action, as the caller observed it.
pub enum Event {
    /// The listing is to begin.
    Begin,
    /// The open call returned `result`: a handle, or a negative error.
    Opened { result: i32 },
    /// The fill call returned `result` (bytes written, or a negative error)
    /// and left `buf`, the whole entry buffer.
    Filled { result: i32, buf: Vec<u8> },
    /// The bytes of the last write action were written.
    Written,
    /// The close call returned.
    Closed,
}

/// What the caller is to do next.
pub enum Action {
    /// Open the root directory.
    Open,
    /// Fill the entry buffer from the directory `handle`.
    Fill { handle: i32 },
    /// Write `bytes` to standard output.
    Write { bytes: Vec<u8> },
    /// Close the directory `handle`.
    Close { handle: i32 },
    /// End the process with `code`.
    Exit { code: i32 },
}

/// The mathematical view of an `Event`.
pub enum EventView {
    Begin,
    Opened { result: i32 },
    Filled { result: i32, buf: Seq<u8> },
    Written,
    Closed,
}

/// The mathematical view of an `Action`.
pub enum ActionView {
    Open,
    Fill { handle: i32 },
    Write { bytes: Seq<u8> },
    Close { handle: i32 },
    Exit { code: i32 },
}

impl View for Event {
    type V = EventView;

    open spec fn view(&self) -> EventView {
        match self {
            Event::Begin => EventView::Begin,
            Event::Opened { result } => EventView::Opened { result: *result },
            Event::Filled { result, buf } => EventView::Filled { result: *result, buf: buf@ },
            Event::Written => EventView::Written,
            Event::Closed => EventView::Closed,
        }
    }
}

impl View for Action {
    type V = ActionView;

    open spec fn view(&self) -> ActionView {
        match self {
            Action::Open => ActionView::Open,
            Action::Fill { handle } => ActionView::Fill { handle: *handle },
            Action::Write { bytes } => ActionView::Write { bytes: bytes@ },
            Action::Close { handle } => ActionView::Close { handle: *handle },
            Action::Exit { code } => ActionView::Exit { code: *code },
        }
    }
}

/// The diagnostic written when the root directory cannot be opened.
pub open spec fn open_failure_text() -> Seq<u8> {
    "ls: cannot open directory /\n".spec_bytes()
}

/// The diagnostic written when a fill cannot be decoded.
pub open spec fn fault_text() -> Seq<u8> {
    "ls: panic!\n".spec_bytes()
}

/// Whether a lister in phase `p` awaits the event `e`.
pub open spec fn awaits(p: Phase, e: EventView) -> bool {
    match p {
        Phase::Start => e is Begin,
        Phase::Opening => e is Opened,
        Phase::Reporting => e is Written,
        Phase::Reading { .. } => e is Filled,
        Phase::Emitting { .. } => e is Written,
        Phase::Faulting { .. } => e is Written,
        Phase::Closing { .. } => e is Closed,
        Phase::Done { .. } => false,
    }
}

/// What follows a fill of the directory `handle` that returned `result`
/// and left `buf`.
pub open spec fn after_fill(handle: i32, result: i32, buf: Seq<u8>) -> (Phase, ActionView) {
    if result <= 0 {
        (Phase::Closing { handle, code: 0 }, ActionView::Close { handle })
    } else if result > buf.len() {
        (Phase::Faulting { handle }, ActionView::Write { bytes: fault_text() })
    } else {
        match decode_spec(buf.subrange(0, result as int)) {
            Ok(es) => (
                Phase::Emitting { handle, last: result < buf.len() },
                ActionView::Write { bytes: listing_text(es) },
            ),
            Err(_) => (Phase::Faulting { handle }, ActionView::Write { bytes: fault_text() }),
        }
    }
}

/// The phase and action that follow the event `e` in phase `p`.
pub open spec fn next(p: Phase, e: EventView) -> (Phase, ActionView) {
    match p {
        Phase::Start => (Phase::Opening, ActionView::Open),
        Phase::Opening => {
            let r = e->Opened_result;
            if r < 0 {
                (Phase::Reporting, ActionView::Write { bytes: open_failure_text() })
            } else {
                (Phase::Reading { handle: r }, ActionView::Fill { handle: r })
            }
        },
        Phase::Reporting => (Phase::Done { code: 1 }, ActionView::Exit { code: 1 }),
        Phase::Reading { handle } => after_fill(handle, e->Filled_result, e->Filled_buf),
        Phase::Emitting { handle, last } => if last {
            (Phase::Closing { handle, code: 0 }, ActionView::Close { handle })
        } else {
            (Phase::Reading { handle }, ActionView::Fill { handle })
        },
        Phase::Faulting { handle } => (
            Phase::Closing { handle, code: 1 },
            ActionView::Close { handle },
        ),
        Phase::Closing { handle, code } => (Phase::Done { code }, ActionView::Exit { code }),
        Phase::Done { code } => (Phase::Done { code }, ActionView::Exit { code }),
    }
}

/// The listing in progress.
pub struct Lister {
    /// Where the listing stands.
    pub phase: Phase,
    /// The result of the most recent fill, 0 before the first one. A listing
    /// that stopped on a negative fill result keeps it here.
    pub last_fill: i32,
}

impl Lister {
    /// A listing that has not begun.
    pub fn new() -> (r: Lister)
        ensures
            r.phase == Phase::Start,
            r.last_fill == 0,
    {
        Lister { phase: Phase::Start, last_fill: 0 }
    }

    /// Whether the lister awaits `ev` now.
    pub fn accepts(&self, ev: &Event) -> (r: bool)
        ensures
            r == awaits(self.phase, ev@),
    {
        match self.phase {
            Phase::Start => matches!(ev, Event::Begin),
            Phase::Opening => matches!(ev, Event::Opened { .. }),
            Phase::Reporting => matches!(ev, Event::Written),
            Phase::Reading { .. } => matches!(ev, Event::Filled { .. }),
            Phase::Emitting { .. } => matches!(ev, Event::Written),
            Phase::Faulting { .. } => matches!(ev, Event::Written),
            Phase::Closing { .. } => matches!(ev, Event::Closed),
            Phase::Done { .. } => false,
        }
    }

    /// Takes the outcome of the previous action and returns the next action.
    pub fn step(&mut self, ev: Event) -> (a: Action)
        requires
            awaits(old(self).phase, ev@),
        ensures
            (final(self).phase, a@) == next(old(self).phase, ev@),
            final(self).last_fill == match ev {
                Event::Filled { result, .. } => result,
                _ => old(self).last_fill,
            },
    {
        match ev {
            Event::Begin => {
                self.phase = Phase::Opening;
                Action::Open
            },
            Event::Opened { result } => {
                if result < 0 {
                    let mut bytes: Vec<u8> = Vec::new();
                    print(&mut bytes, "ls: cannot open directory /\n");
                    self.phase = Phase::Reporting;
                    Action::Write { bytes }
                } else {
                    self.phase = Phase::Reading { handle: result };
                    Action::Fill { handle: result }
                }
            },
            Event::Filled { result, buf } => {
                let handle = match self.phase {
                    Phase::Reading { handle } => handle,
                    // not reached: `awaits` admits a fill only while reading
                    _ => 0,
                };
                self.last_fill = result;
                self.on_fill(handle, result, &buf)
            },
            Event::Written => match self.phase {
                Phase::Reporting => {
                    self.phase = Phase::Done { code: 1 };
                    Action::Exit { code: 1 }
                },
                Phase::Emitting { handle, last } => {
                    if last {
                        self.phase = Phase::Closing { handle, code: 0 };
                        Action::Close { handle }
                    } else {
                        self.phase = Phase::Reading { handle };
                        Action::Fill { handle }
                    }
                },
                Phase::Faulting { handle } => {
                    self.phase = Phase::Closing { handle, code: 1 };
                    Action::Close { handle }
                },
                // not reached: no other phase awaits a write
                _ => Action::Exit { code: 1 },
            },
            Event::Closed => {
                let code = match self.phase {
                    Phase::Closing { code, .. } => code,
                    // not reached: `awaits` admits a close only while closing
                    _ => 1,
                };
                self.phase = Phase::Done { code };
                Action::Exit { code }
            },
        }
    }

    fn on_fill(&mut self, handle: i32, result: i32, buf: &Vec<u8>) -> (a: Action)
        ensures
            (final(self).phase, a@) == after_fill(handle, result, buf@),
            final(self).last_fill == old(self).last_fill,
    {
        if result <= 0 {
            self.phase = Phase::Closing { handle, code: 0 };
            return Action::Close { handle };
        }
        if result as usize > buf.len() {
            return self.fault(handle);
        }
        let n = result as usize;
        match decode_records(slice_subrange(buf.as_slice(), 0, n)) {
            Ok(entries) => {
                let bytes = render_entries(&entries);
                self.phase = Phase::Emitting { handle, last: n < buf.len() };
                Action::Write { bytes }
            },
            Err(_) => self.fault(handle),
        }
    }

    fn fault(&mut self, handle: i32) -> (a: Action)
        ensures
            final(self).phase == (Phase::Faulting { handle }),
            a@ == (ActionView::Write { bytes: fault_text() }),
            final(self).last_fill == old(self).last_fill,
    {
        let mut bytes: Vec<u8> = Vec::new();
        print(&mut bytes, "ls: panic!\n");
        self.phase = Phase::Faulting { handle };
        Action::Write { bytes }
    }
}

/// A directory with no entries, or one whose first fill fails: once the
/// directory is open, the fill is followed by the close and then by exit
/// code 0, and nothing is written.
pub proof fn lemma_no_entries(handle: i32, result: i32, buf: Seq<u8>)
    requires
        handle >= 0,
        result <= 0,
    ensures
        next(Phase::Start, EventView::Begin) == (Phase::Opening, ActionView::Open),
        next(Phase::Opening, EventView::Opened { result: handle }) == (
            Phase::Reading { handle },
            ActionView::Fill { handle },
        ),
        next(Phase::Reading { handle }, EventView::Filled { result, buf }) == (
            Phase::Closing { handle, code: 0 },
            ActionView::Close { handle },
        ),
        next(Phase::Closing { handle, code: 0 }, EventView::Closed) == (
            Phase::Done { code: 0 },
            ActionView::Exit { code: 0 },
        ),
{
}

/// A directory whose entries all fit in one short fill: the fill is
/// followed by one write holding one line per entry in the order of the
/// records, then by the close and exit code 0.
pub proof fn lemma_one_short_fill(handle: i32, es: Seq<(i32, Seq<u8>)>, buf: Seq<u8>)
    requires
        forall|i: int| 0 <= i < es.len() ==> valid_name(#[trigger] es[i].1),
        0 < encode_spec(es).len() < buf.len(),
        encode_spec(es).len() <= i32::MAX,
        buf.subrange(0, encode_spec(es).len() as int) == encode_spec(es),
    ensures
        ({
            let result = encode_spec(es).len() as i32;
            &&& next(Phase::Reading { handle }, EventView::Filled { result, buf }) == (
                Phase::Emitting { handle, last: true },
                ActionView::Write { bytes: listing_text(es) },
            )
            &&& next(Phase::Emitting { handle, last: true }, EventView::Written) == (
                Phase::Closing { handle, code: 0 },
                ActionView::Close { handle },
            )
            &&& next(Phase::Closing { handle, code: 0 }, EventView::Closed) == (
                Phase::Done { code: 0 },
                ActionView::Exit { code: 0 },
            )
        }),
{
    lemma_round_trip(es);
}

/// A fill whose records exactly fill the buffer is never the last one:
/// after its names are written, the buffer is filled again.
pub proof fn lemma_full_fill_reads_again(handle: i32, es: Seq<(i32, Seq<u8>)>, buf: Seq<u8>)
    requires
        forall|i: int| 0 <= i < es.len() ==> valid_name(#[trigger] es[i].1),
        0 < buf.len() <= i32::MAX,
        buf == encode_spec(es),
    ensures
        ({
            let result = buf.len() as i32;
            &&& next(Phase::Reading { handle }, EventView::Filled { result, buf }) == (
                Phase::Emitting { handle, last: false },
                ActionView::Write { bytes: listing_text(es) },
            )
            &&& next(Phase::Emitting { handle, last: false }, EventView::Written) == (
                Phase::Reading { handle },
                ActionView::Fill { handle },
            )
        }),
{
    lemma_round_trip(es);
    assert(buf.subrange(0, buf.len() as int) =~= buf);
}

} // verus!
