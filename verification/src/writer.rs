//! The outbound writer: the one task that owns the output. It takes
//! encoded records from a queue and writes them one at a time, each
//! followed by a line feed, so that records never interleave. When shutdown
//! is signalled it closes the queue, writes what is still queued, and
//! finishes.

use vstd::prelude::*;
use vstd::string::StringExecFns;

verus! {

/// The character that ends a record.
pub open spec fn separator() -> char {
    '\n'
}

/// A record as it is written: the record, then the separator.
pub open spec fn framed(record: Seq<char>) -> Seq<char> {
    record.push(separator())
}

/// The line to write for `record`.
pub fn frame(record: String) -> (line: String)
    ensures
        line@ == framed(record@),
{
    proof {
        reveal_strlit("\n");
        assert("\n"@ =~= seq![separator()]);
    }
    let line = record.concat("\n");
    assert(line@ =~= framed(record@));
    line
}

/// Where the writer stands.
#[derive(Clone, Copy, Debug, PartialEq, Eq, Structural)]
pub enum WriterState {
    /// The queue takes records.
    Open,
    /// Shutdown was signalled: the queue takes no more, what it holds is
    /// still written.
    Closing,
    /// The queue is closed and empty: the writer has finished.
    Done,
}

/// What the writer's wait came back with.
#[derive(Debug)]
pub enum Input {
    /// The next record of the queue.
    Record(String),
    /// The queue is closed and holds nothing.
    Closed,
    /// Shutdown was signalled.
    Shutdown,
}

/// What the writer does next.
#[derive(Debug, PartialEq, Eq)]
pub enum Output {
    /// Write this line in one piece and flush.
    Write(String),
    /// Close the queue, so that it takes no more records, and go on.
    CloseQueue,
    /// Go on waiting.
    Wait,
    /// Signal shutdown and return.
    Finish,
}

/// The writer.
#[derive(Debug)]
pub struct Writer {
    state: WriterState,
}

impl Writer {
    /// Where the writer stands.
    pub closed spec fn state(&self) -> WriterState {
        self.state
    }

    /// Where a writer in `state` stands after `input`.
    pub open spec fn next_state(state: WriterState, input: Input) -> WriterState {
        match (state, input) {
            (WriterState::Done, _) => WriterState::Done,
            (_, Input::Record(_)) => state,
            (_, Input::Closed) => WriterState::Done,
            (_, Input::Shutdown) => WriterState::Closing,
        }
    }

    /// Whether a writer in `state` answers `input` with `output`.
    pub open spec fn answers(state: WriterState, input: Input, output: Output) -> bool {
        match (state, input) {
            (WriterState::Done, _) => output is Finish,
            (_, Input::Record(record)) => output matches Output::Write(line) && line@ == framed(record@),
            (_, Input::Closed) => output is Finish,
            (WriterState::Open, Input::Shutdown) => output is CloseQueue,
            (_, Input::Shutdown) => output is Wait,
        }
    }

    /// A writer whose queue is open.
    pub fn new() -> (w: Self)
        ensures
            w.state() == WriterState::Open,
    {
        Writer { state: WriterState::Open }
    }

    /// Where the writer stands.
    pub fn phase(&self) -> (state: WriterState)
        ensures
            state == self.state(),
    {
        self.state
    }

    /// Takes what the wait came back with and says what to do.
    pub fn step(&mut self, input: Input) -> (output: Output)
        ensures
            final(self).state() == Self::next_state(old(self).state(), input),
            Self::answers(old(self).state(), input, output),
    {
        if let WriterState::Done = self.state {
            return Output::Finish;
        }
        match input {
            Input::Record(record) => Output::Write(frame(record)),
            Input::Closed => {
                self.state = WriterState::Done;
                Output::Finish
            },
            Input::Shutdown => {
                if let WriterState::Open = self.state {
                    self.state = WriterState::Closing;
                    Output::CloseQueue
                } else {
                    Output::Wait
                }
            },
        }
    }
}

/// No line holds a separator but at its end, as long as no record holds
/// one: a reader that splits at separators gets the records back.
pub proof fn lemma_framed_splits(record: Seq<char>)
    requires
        !record.contains(separator()),
    ensures
        framed(record).last() == separator(),
        framed(record).drop_last() == record,
        forall|i: int| 0 <= i < framed(record).len() - 1 ==> framed(record)[i] != separator(),
{
    assert(framed(record).drop_last() =~= record);
    assert forall|i: int| 0 <= i < framed(record).len() - 1 implies framed(record)[i] != separator() by {
        assert(record.contains(record[i]));
    }
}

} // verus!
