//! The decisions of a dump, from the opening of the input to the last printed
//! line, as a machine that is told what happened and answers what to do next.

use crate::chunk::{lemma_piece_len, offsets_fit, rows_fit, DumpConfig};
use crate::dump::{
    block_bytes, block_start, blocks_end, dump_fits, lemma_block_bounds, spec_block_count,
};
use vstd::prelude::*;

verus! {

/// How far a dump has come.
#[derive(Clone, Copy, Debug, PartialEq, Eq, Structural)]
pub enum Phase {
    /// Nothing has been asked for yet.
    Idle,
    /// The input is being opened.
    Opening,
    /// Blocks are being read and handed out.
    Reading,
    /// No more blocks will come; the work handed out is being waited for.
    AwaitingCompletion,
    /// All work is done; the table is being printed.
    Printing,
    /// The dump ended as it should.
    Done,
    /// The dump ended on a failure.
    Error,
}

/// What the outside world reports to the machine.
#[derive(Clone, Copy, Debug, PartialEq, Eq, Structural)]
pub enum Event {
    /// A dump is asked for.
    Start,
    /// The input was opened.
    Opened,
    /// The input could not be opened.
    OpenFailed,
    /// A read returned this many bytes; zero bytes mean the end of the input.
    BlockRead(usize),
    /// A read failed.
    ReadFailed,
    /// All the work that was handed out has completed.
    AllCompleted,
    /// Some of the work that was handed out failed and left the table unusable.
    WorkerFailed,
    /// The table was printed.
    Printed,
}

/// What the machine asks the outside world to do.
#[derive(Clone, Copy, Debug, PartialEq, Eq, Structural)]
pub enum Action {
    /// Open the input.
    Open,
    /// Read the first block.
    Read,
    /// Hand the block just read to a worker, as starting at `start_offset`
    /// and holding `len` bytes, then read the next block.
    Dispatch { start_offset: usize, len: usize },
    /// Stop reading and wait until all the work that was handed out has completed.
    Join,
    /// Print the table in ascending order of offset.
    Print,
    /// Report that the input could not be opened, and stop.
    ReportOpenError,
    /// Report that a read failed after what was read before it has been printed, and stop.
    ReportReadError,
    /// Give up without printing.
    Abort,
    /// Stop: the dump is complete.
    Finish,
    /// The event has no place in the current phase; nothing changes.
    Rejected,
}

/// The state of one dump.
#[derive(Clone, Copy, Debug, PartialEq, Eq, Structural)]
pub struct Orchestrator {
    /// The sizes that shape the dump.
    pub config: DumpConfig,
    /// How far the dump has come.
    pub phase: Phase,
    /// The number of bytes read so far: the offset at which the next block starts.
    pub offset: usize,
    /// The number of blocks handed out so far.
    pub dispatched: usize,
    /// Whether a read has failed.
    pub read_failed: bool,
}

impl Orchestrator {
    /// The sizes are usable, and no more blocks were handed out than bytes were read.
    pub open spec fn wf(self) -> bool {
        self.config.wf() && self.dispatched <= self.offset
    }

    /// The state before anything has happened.
    pub open spec fn initial(config: DumpConfig) -> Orchestrator {
        Orchestrator { config, phase: Phase::Idle, offset: 0, dispatched: 0, read_failed: false }
    }

    /// Whether the dump has ended.
    pub open spec fn is_terminal(self) -> bool {
        self.phase == Phase::Done || self.phase == Phase::Error
    }

    /// Whether a read of `n` bytes can be taken as the next block: it holds
    /// at least one byte and no more than was asked for, and the offsets of
    /// its rows and of the block after it are machine integers.
    pub open spec fn accepts_block(self, n: usize) -> bool {
        &&& 0 < n <= self.config.file_chunk_size
        &&& self.offset + n <= usize::MAX
        &&& offsets_fit(
            self.offset,
            n as nat,
            self.config.split_chunk_size as nat,
            self.config.offset_stride as nat,
        )
    }

    /// The state with another phase.
    pub open spec fn at(self, phase: Phase) -> Orchestrator {
        Orchestrator { phase, ..self }
    }

    /// The state that follows on an event, and what is to be done.
    pub open spec fn spec_step(self, event: Event) -> (Orchestrator, Action) {
        match (self.phase, event) {
            (Phase::Idle, Event::Start) => (self.at(Phase::Opening), Action::Open),
            (Phase::Opening, Event::Opened) => (self.at(Phase::Reading), Action::Read),
            (Phase::Opening, Event::OpenFailed) => (
                self.at(Phase::Error),
                Action::ReportOpenError,
            ),
            (Phase::Reading, Event::BlockRead(n)) => if n == 0 {
                (self.at(Phase::AwaitingCompletion), Action::Join)
            } else if self.accepts_block(n) {
                (
                    Orchestrator {
                        offset: (self.offset + n) as usize,
                        dispatched: (self.dispatched + 1) as usize,
                        ..self
                    },
                    Action::Dispatch { start_offset: self.offset, len: n },
                )
            } else {
                (self, Action::Rejected)
            },
            (Phase::Reading, Event::ReadFailed) => (
                Orchestrator { phase: Phase::AwaitingCompletion, read_failed: true, ..self },
                Action::Join,
            ),
            (Phase::AwaitingCompletion, Event::AllCompleted) => (
                self.at(Phase::Printing),
                Action::Print,
            ),
            (Phase::AwaitingCompletion, Event::WorkerFailed) => (
                self.at(Phase::Error),
                Action::Abort,
            ),
            (Phase::Printing, Event::Printed) => if self.read_failed {
                (self.at(Phase::Error), Action::ReportReadError)
            } else {
                (self.at(Phase::Done), Action::Finish)
            },
            _ => (self, Action::Rejected),
        }
    }

    /// A machine for one dump, before anything has happened.
    pub fn new(config: DumpConfig) -> (machine: Orchestrator)
        requires
            config.wf(),
        ensures
            machine == Orchestrator::initial(config),
            machine.wf(),
    {
        Orchestrator { config, phase: Phase::Idle, offset: 0, dispatched: 0, read_failed: false }
    }

    /// Takes note of an event and answers what is to be done.
    pub fn step(&mut self, event: Event) -> (action: Action)
        requires
            old(self).wf(),
        ensures
            (*final(self), action) == old(self).spec_step(event),
            final(self).wf(),
    {
        match (self.phase, event) {
            (Phase::Idle, Event::Start) => {
                self.phase = Phase::Opening;
                Action::Open
            },
            (Phase::Opening, Event::Opened) => {
                self.phase = Phase::Reading;
                Action::Read
            },
            (Phase::Opening, Event::OpenFailed) => {
                self.phase = Phase::Error;
                Action::ReportOpenError
            },
            (Phase::Reading, Event::BlockRead(n)) => {
                if n == 0 {
                    self.phase = Phase::AwaitingCompletion;
                    Action::Join
                } else if n <= self.config.file_chunk_size && n <= usize::MAX - self.offset
                    && rows_fit(self.offset, n, &self.config) {
                    let start_offset = self.offset;
                    self.offset = self.offset + n;
                    self.dispatched = self.dispatched + 1;
                    Action::Dispatch { start_offset, len: n }
                } else {
                    Action::Rejected
                }
            },
            (Phase::Reading, Event::ReadFailed) => {
                self.phase = Phase::AwaitingCompletion;
                self.read_failed = true;
                Action::Join
            },
            (Phase::AwaitingCompletion, Event::AllCompleted) => {
                self.phase = Phase::Printing;
                Action::Print
            },
            (Phase::AwaitingCompletion, Event::WorkerFailed) => {
                self.phase = Phase::Error;
                Action::Abort
            },
            (Phase::Printing, Event::Printed) => {
                if self.read_failed {
                    self.phase = Phase::Error;
                    Action::ReportReadError
                } else {
                    self.phase = Phase::Done;
                    Action::Finish
                }
            },
            _ => Action::Rejected,
        }
    }
}

/// The place of a phase in the course of a dump.
pub open spec fn rank(phase: Phase) -> nat {
    match phase {
        Phase::Idle => 0,
        Phase::Opening => 1,
        Phase::Reading => 2,
        Phase::AwaitingCompletion => 3,
        Phase::Printing => 4,
        Phase::Done => 5,
        Phase::Error => 5,
    }
}

/// The state after a run of events.
pub open spec fn run(start: Orchestrator, events: Seq<Event>) -> Orchestrator
    decreases events.len(),
{
    if events.len() == 0 {
        start
    } else {
        run(start, events.drop_last()).spec_step(events.last()).0
    }
}

/// What the machine asked for on each event of a run.
pub open spec fn actions(start: Orchestrator, events: Seq<Event>) -> Seq<Action>
    decreases events.len(),
{
    if events.len() == 0 {
        Seq::empty()
    } else {
        actions(start, events.drop_last()).push(
            run(start, events.drop_last()).spec_step(events.last()).1,
        )
    }
}

/// A step never goes back in the course of a dump, keeps the sizes, never
/// lowers the offset or the number of blocks handed out, and leaves a usable
/// state usable.
pub proof fn lemma_step_advances(state: Orchestrator, event: Event)
    ensures
        rank(state.spec_step(event).0.phase) >= rank(state.phase),
        state.spec_step(event).0.config == state.config,
        state.spec_step(event).0.offset >= state.offset,
        state.wf() ==> state.spec_step(event).0.dispatched >= state.dispatched,
        state.wf() ==> state.spec_step(event).0.wf(),
{
}

/// Once a dump has ended, no event changes anything.
pub proof fn lemma_terminal_absorbs(state: Orchestrator, event: Event)
    requires
        state.is_terminal(),
    ensures
        state.spec_step(event) == (state, Action::Rejected),
{
}

/// In which phase each action is asked for, and to which phase it leads.
pub proof fn lemma_action_phase(state: Orchestrator, event: Event)
    ensures
        state.spec_step(event).1 is Dispatch ==> state.phase == Phase::Reading
            && state.spec_step(event).0.phase == Phase::Reading,
        state.spec_step(event).1 == Action::Join ==> state.phase == Phase::Reading
            && state.spec_step(event).0.phase == Phase::AwaitingCompletion,
        state.spec_step(event).1 == Action::Print ==> state.phase == Phase::AwaitingCompletion
            && event == Event::AllCompleted && state.spec_step(event).0.phase == Phase::Printing,
        state.spec_step(event).1 == Action::Finish ==> state.phase == Phase::Printing
            && !state.read_failed && state.spec_step(event).0.phase == Phase::Done,
        state.spec_step(event).1 == Action::Rejected ==> state.spec_step(event).0 == state,
        state.phase != Phase::AwaitingCompletion && state.spec_step(event).0.phase
            == Phase::AwaitingCompletion ==> state.spec_step(event).1 == Action::Join,
{
}

/// A block is handed out only where the worker can file all its rows, and as
/// starting where the blocks before it end.
pub proof fn lemma_dispatch_is_workable(state: Orchestrator, event: Event)
    requires
        state.wf(),
    ensures
        state.spec_step(event).1 matches Action::Dispatch { start_offset, len } ==> {
            &&& event == Event::BlockRead(len)
            &&& start_offset == state.offset
            &&& 0 < len <= state.config.file_chunk_size
            &&& state.spec_step(event).0.offset == start_offset + len
            &&& state.spec_step(event).0.dispatched == state.dispatched + 1
            &&& offsets_fit(
                start_offset,
                len as nat,
                state.config.split_chunk_size as nat,
                state.config.offset_stride as nat,
            )
        },
{
}

/// The state before the `k`-th event of a run, and what is asked for on it.
pub proof fn lemma_run_prefix(start: Orchestrator, events: Seq<Event>, k: int)
    requires
        0 <= k < events.len(),
    ensures
        actions(start, events).len() == events.len(),
        actions(start, events)[k] == run(start, events.take(k)).spec_step(events[k]).1,
        run(start, events.take(k + 1)) == run(start, events.take(k)).spec_step(events[k]).0,
    decreases events.len(),
{
    let front = events.drop_last();
    lemma_actions_len(start, events);
    lemma_actions_len(start, front);
    assert(events.take(k + 1).drop_last() =~= events.take(k));
    if k == events.len() - 1 {
        assert(events.take(k) =~= front);
    } else {
        lemma_run_prefix(start, front, k);
        assert(front.take(k) =~= events.take(k));
    }
}

/// One action is asked for on each event.
pub proof fn lemma_actions_len(start: Orchestrator, events: Seq<Event>)
    ensures
        actions(start, events).len() == events.len(),
    decreases events.len(),
{
    if events.len() > 0 {
        lemma_actions_len(start, events.drop_last());
    }
}

/// Along a run the phase never goes back.
pub proof fn lemma_run_advances(start: Orchestrator, events: Seq<Event>, i: int, j: int)
    requires
        0 <= i <= j <= events.len(),
    ensures
        rank(run(start, events.take(i)).phase) <= rank(run(start, events.take(j)).phase),
        run(start, events.take(i)).offset <= run(start, events.take(j)).offset,
        run(start, events.take(j)).config == start.config,
        start.wf() ==> run(start, events.take(j)).wf(),
    decreases j,
{
    if j == 0 {
        assert(events.take(0) =~= Seq::<Event>::empty());
    } else {
        lemma_run_prefix(start, events, j - 1);
        lemma_step_advances(run(start, events.take(j - 1)), events[j - 1]);
        if i < j {
            lemma_run_advances(start, events, i, j - 1);
        } else {
            lemma_run_advances(start, events, j - 1, j - 1);
        }
    }
}

/// Once the machine has asked to wait for the work handed out, it hands out
/// no further block, asks for no further wait, and reads no more; and the
/// table is printed at most once.
pub proof fn lemma_nothing_dispatched_after_join(
    start: Orchestrator,
    events: Seq<Event>,
    i: int,
    j: int,
)
    requires
        0 <= i < j < events.len(),
        actions(start, events)[i] == Action::Join || actions(start, events)[i] == Action::Print,
    ensures
        !(actions(start, events)[j] is Dispatch),
        actions(start, events)[j] != Action::Join,
        actions(start, events)[j] != Action::Read,
        actions(start, events)[i] == Action::Print ==> actions(start, events)[j] != Action::Print,
{
    lemma_run_prefix(start, events, i);
    lemma_run_prefix(start, events, j);
    lemma_action_phase(run(start, events.take(i)), events[i]);
    lemma_action_phase(run(start, events.take(j)), events[j]);
    lemma_run_advances(start, events, i + 1, j);
}

/// In a run from the beginning, the table is printed only after the machine
/// has asked to wait for the work handed out and has been told that all of it
/// has completed.
pub proof fn lemma_print_follows_join(start: Orchestrator, events: Seq<Event>, j: int)
    requires
        rank(start.phase) <= rank(Phase::Reading),
        0 <= j < events.len(),
        actions(start, events)[j] == Action::Print,
    ensures
        events[j] == Event::AllCompleted,
        exists|i: int| 0 <= i < j && actions(start, events)[i] == Action::Join,
    decreases j,
{
    lemma_run_prefix(start, events, j);
    lemma_action_phase(run(start, events.take(j)), events[j]);
    let i = step_into_waiting(start, events, j);
    lemma_step_into_waiting(start, events, j);
    lemma_run_prefix(start, events, i);
}

/// The event of a run, before the `j`-th, since which the machine has been
/// waiting for the work handed out.
pub open spec fn step_into_waiting(start: Orchestrator, events: Seq<Event>, j: int) -> int
    decreases j,
{
    if j <= 0 {
        0
    } else if run(start, events.take(j - 1)).phase == Phase::AwaitingCompletion {
        step_into_waiting(start, events, j - 1)
    } else {
        j - 1
    }
}

/// Where a run that did not begin in waiting has come to wait, one of its
/// events is the step into waiting, on which the machine asks to wait.
proof fn lemma_step_into_waiting(start: Orchestrator, events: Seq<Event>, j: int)
    requires
        0 <= j <= events.len(),
        start.phase != Phase::AwaitingCompletion,
        run(start, events.take(j)).phase == Phase::AwaitingCompletion,
    ensures
        0 <= step_into_waiting(start, events, j) < j,
        run(start, events.take(step_into_waiting(start, events, j))).spec_step(
            events[step_into_waiting(start, events, j)],
        ).1 == Action::Join,
    decreases j,
{
    if j == 0 {
        assert(events.take(0) =~= Seq::<Event>::empty());
    } else {
        lemma_run_prefix(start, events, j - 1);
        lemma_action_phase(run(start, events.take(j - 1)), events[j - 1]);
        if run(start, events.take(j - 1)).phase == Phase::AwaitingCompletion {
            lemma_step_into_waiting(start, events, j - 1);
        }
    }
}

/// The reports of the reads that bring in the first `n` blocks of an input.
pub open spec fn block_reads(data: Seq<u8>, config: DumpConfig, n: nat) -> Seq<Event> {
    Seq::new(n, |b: int| Event::BlockRead(block_bytes(data, config, b).len() as usize))
}

/// Reading an input block by block hands out one piece of work for each
/// block, each as starting where the block starts in the input.
pub proof fn lemma_reading_blocks(data: Seq<u8>, config: DumpConfig, n: nat)
    requires
        config.wf(),
        dump_fits(data, config),
        data.len() <= usize::MAX,
        n <= spec_block_count(data.len(), config),
    ensures
        run(Orchestrator::initial(config).at(Phase::Reading), block_reads(data, config, n))
            == (Orchestrator {
            config,
            phase: Phase::Reading,
            offset: blocks_end(data, config, n) as usize,
            dispatched: n as usize,
            read_failed: false,
        }),
        n <= blocks_end(data, config, n) <= data.len(),
        actions(Orchestrator::initial(config).at(Phase::Reading), block_reads(data, config, n))
            =~= Seq::new(
            n,
            |b: int|
                Action::Dispatch {
                    start_offset: block_start(config, b) as usize,
                    len: block_bytes(data, config, b).len() as usize,
                },
        ),
    decreases n,
{
    let start = Orchestrator::initial(config).at(Phase::Reading);
    let events = block_reads(data, config, n);
    if n == 0 {
        assert(0 * config.file_chunk_size == 0) by (nonlinear_arith);
    } else {
        let b = (n - 1) as nat;
        lemma_reading_blocks(data, config, b);
        lemma_block_bounds(data, config, b as int);
        lemma_piece_len(data, config.file_chunk_size as nat, b as int);
        assert(events.drop_last() =~= block_reads(data, config, b));
        let before = run(start, block_reads(data, config, b));
        let len = block_bytes(data, config, b as int).len() as usize;
        assert(events.last() == Event::BlockRead(len));
        assert(before.accepts_block(len));
    }
}

} // verus!
