//! The record of what happened during a run.

use crate::kernel::event::Event;
use crate::kernel::time::SimTime;
use crate::lua::process::{CommandView, LuaCommand, MessageView, ProcessMessage};
use vstd::prelude::*;

verus! {

/// Something that happened.
#[derive(Debug, Clone, PartialEq, Eq)]
pub enum TraceEvent {
    /// The process sent this message and the kernel dispatched it.
    Message(ProcessMessage),
    /// The kernel told the process this: that it is woken, that a
    /// resource is its own, or that it has failed.
    Command(LuaCommand),
    /// The kernel did not act on a call of the process, for this reason.
    /// The process goes on.
    Rejected(String),
    /// This event came off the event queue. The process name is empty.
    Fired(Event),
}

/// Something that happened, as contracts see it.
pub enum TraceEventView {
    Message(MessageView),
    Command(CommandView),
    Rejected(Seq<char>),
    Fired(Event),
}

impl View for TraceEvent {
    type V = TraceEventView;

    open spec fn view(&self) -> TraceEventView {
        match self {
            TraceEvent::Message(m) => TraceEventView::Message(m@),
            TraceEvent::Command(c) => TraceEventView::Command(c@),
            TraceEvent::Rejected(reason) => TraceEventView::Rejected(reason@),
            TraceEvent::Fired(e) => TraceEventView::Fired(*e),
        }
    }
}

/// One line of the record: when, to whom, what.
#[derive(Debug, Clone, PartialEq, Eq)]
pub struct TraceEntry {
    pub time: SimTime,
    pub process: String,
    pub event: TraceEvent,
}

/// One line of the record, as contracts see it.
pub struct TraceEntryView {
    pub time: nat,
    pub process: Seq<char>,
    pub event: TraceEventView,
}

impl View for TraceEntry {
    type V = TraceEntryView;

    open spec fn view(&self) -> TraceEntryView {
        TraceEntryView { time: self.time@, process: self.process@, event: self.event@ }
    }
}

/// The record `s` as contracts see it.
pub open spec fn lines(s: Seq<TraceEntry>) -> Seq<TraceEntryView> {
    Seq::new(s.len(), |i: int| s[i]@)
}

/// The line that records `message` from `process` at `time`.
pub open spec fn sent(time: nat, process: Seq<char>, message: MessageView) -> TraceEntryView {
    TraceEntryView { time, process, event: TraceEventView::Message(message) }
}

/// The line that records `command` to `process` at `time`.
pub open spec fn told(time: nat, process: Seq<char>, command: CommandView) -> TraceEntryView {
    TraceEntryView { time, process, event: TraceEventView::Command(command) }
}

/// The line that records that a call of `process` was not acted on.
pub open spec fn rejected(time: nat, process: Seq<char>, reason: Seq<char>) -> TraceEntryView {
    TraceEntryView { time, process, event: TraceEventView::Rejected(reason) }
}

/// The line that records that `event` fired.
pub open spec fn fired(event: Event) -> TraceEntryView {
    TraceEntryView {
        time: event.time@,
        process: Seq::empty(),
        event: TraceEventView::Fired(event),
    }
}

} // verus!
