//! What a worker task does, and in which order.
//!
//! The worker waits for signals and runs the operations of the list; both are up to the
//! caller. [`Worker::step`] is told what has happened and says what to do next.
use crate::debounce::{law_a_quiet_period_comes_first, Debounce};
use crate::empty::AlwaysEmptyFlash;
use crate::error::{Error, LoadStoreError};
use crate::model::ListView;
use crate::storage::ItemView;
use crate::storage_list::{ProcessWriteCounters, StorageList};
use crate::storage_node::VTable;
use vstd::prelude::*;

verus! {

/// A read is processed after no new read signal has come for this long.
pub const READ_DEBOUNCE_MS: u64 = 100;

/// A write is processed after no new write signal has come for this long.
pub const WRITE_DEBOUNCE_MS: u64 = 10_000;

/// The first garbage collection is due this long after a read.
pub const FIRST_GC_DELAY_MS: u64 = 120_000;

/// How an attempt to write the list has ended
#[derive(Clone, Copy, Debug, PartialEq, Eq, Structural)]
pub enum WriteOutcome {
    /// The list is in the storage
    Written,
    /// Garbage has to be collected first
    NeedsGarbageCollect,
    /// The storage has to be read first
    NeedsFirstRead,
    /// The write has failed otherwise
    Failed,
}

impl WriteOutcome {
    /// What the result of a write means to the worker.
    pub fn of<E>(r: &Result<ProcessWriteCounters, LoadStoreError<E>>) -> (outcome: Self)
        ensures
            outcome == (match r {
                Ok(_) => WriteOutcome::Written,
                Err(LoadStoreError::AppError(Error::NeedsGarbageCollect)) => {
                    WriteOutcome::NeedsGarbageCollect
                },
                Err(LoadStoreError::AppError(Error::NeedsFirstRead)) => {
                    WriteOutcome::NeedsFirstRead
                },
                Err(_) => WriteOutcome::Failed,
            }),
    {
        match r {
            Ok(_) => WriteOutcome::Written,
            Err(LoadStoreError::AppError(Error::NeedsGarbageCollect)) => {
                WriteOutcome::NeedsGarbageCollect
            },
            Err(LoadStoreError::AppError(Error::NeedsFirstRead)) => WriteOutcome::NeedsFirstRead,
            Err(_) => WriteOutcome::Failed,
        }
    }
}

/// What has happened
#[derive(Clone, Copy, Debug, PartialEq, Eq, Structural)]
pub enum WorkerEvent {
    /// Reads have been signalled, and the signal has been debounced
    NeedsRead,
    /// Writes have been signalled, and the signal has been debounced
    NeedsWrite,
    /// The delay for the first collection is over
    NeedsGc,
    /// The worker has been told to stop
    Stop,
    /// A read has ended, successfully or not
    ReadDone(bool),
    /// A write has ended
    WriteDone(WriteOutcome),
    /// A collection has ended, successfully or not
    GarbageDone(bool),
}

/// What to do next
#[derive(Clone, Copy, Debug, PartialEq, Eq, Structural)]
pub enum WorkerAction {
    /// Wait for the next signal
    Wait,
    /// Have a collection signalled after so many milliseconds, and wait for the next signal
    WaitAndScheduleGc(u64),
    /// Process reads
    ProcessReads,
    /// Process writes
    ProcessWrites,
    /// Process garbage
    ProcessGarbage,
    /// Return
    Stopped,
}

/// What the worker is doing
#[derive(Clone, Copy, Debug, PartialEq, Eq, Structural)]
pub enum WorkerPhase {
    /// Waiting for a signal
    Waiting,
    /// Reading
    Reading,
    /// Collecting garbage before a write
    ClearingForWrite,
    /// Writing
    Writing,
    /// Collecting garbage after a write
    ClearingAfterWrite,
    /// Collecting garbage for the first time
    FirstGc,
    /// Writing before it stops
    LastWrite,
    /// Collecting garbage so that the list can be written before it stops
    LastGc,
    /// Writing again before it stops
    LastRetry,
    /// Stopped
    Stopped,
}

/// What a worker is doing, and whether the first collection has been done.
pub struct WorkerView {
    pub phase: WorkerPhase,
    pub first_gc_done: bool,
}

impl WorkerView {
    /// Whether the event can happen: the worker can be told to stop at any time, a signal can
    /// come while it waits, and an operation can end while it runs.
    pub open spec fn accepts(self, event: WorkerEvent) -> bool {
        match event {
            WorkerEvent::NeedsRead | WorkerEvent::NeedsWrite | WorkerEvent::NeedsGc => self.phase
                is Waiting,
            WorkerEvent::Stop => self.phase is Waiting || self.phase is Reading || self.phase
                is ClearingForWrite || self.phase is Writing || self.phase is ClearingAfterWrite
                || self.phase is FirstGc,
            WorkerEvent::ReadDone(_) => self.phase is Reading,
            WorkerEvent::WriteDone(_) => self.phase is Writing || self.phase is LastWrite
                || self.phase is LastRetry,
            WorkerEvent::GarbageDone(_) => self.phase is ClearingForWrite || self.phase
                is ClearingAfterWrite || self.phase is FirstGc || self.phase is LastGc,
        }
    }

    /// What the worker does after the event.
    ///
    /// - Reads are processed when they are signalled. Until the first collection is done, each
    ///   read has one scheduled.
    /// - Writes are processed when they are signalled, with a collection before and after.
    /// - When the worker is told to stop, it processes writes, and once more after a
    ///   collection, if one was needed.
    /// - A failed operation does not stop the worker.
    pub open spec fn after(self, event: WorkerEvent) -> (WorkerView, WorkerAction) {
        let to = |phase: WorkerPhase| WorkerView { phase, ..self };
        match event {
            WorkerEvent::NeedsRead => (to(WorkerPhase::Reading), WorkerAction::ProcessReads),
            WorkerEvent::NeedsWrite => (
                to(WorkerPhase::ClearingForWrite),
                WorkerAction::ProcessGarbage,
            ),
            WorkerEvent::NeedsGc => (to(WorkerPhase::FirstGc), WorkerAction::ProcessGarbage),
            WorkerEvent::Stop => (to(WorkerPhase::LastWrite), WorkerAction::ProcessWrites),
            WorkerEvent::ReadDone(_) => if self.first_gc_done {
                (to(WorkerPhase::Waiting), WorkerAction::Wait)
            } else {
                (
                    to(WorkerPhase::Waiting),
                    WorkerAction::WaitAndScheduleGc(FIRST_GC_DELAY_MS),
                )
            },
            WorkerEvent::WriteDone(outcome) => if self.phase is Writing {
                (to(WorkerPhase::ClearingAfterWrite), WorkerAction::ProcessGarbage)
            } else if self.phase is LastWrite && outcome is NeedsGarbageCollect {
                (to(WorkerPhase::LastGc), WorkerAction::ProcessGarbage)
            } else {
                (to(WorkerPhase::Stopped), WorkerAction::Stopped)
            },
            WorkerEvent::GarbageDone(ok) => if self.phase is ClearingForWrite {
                (to(WorkerPhase::Writing), WorkerAction::ProcessWrites)
            } else if self.phase is ClearingAfterWrite {
                (to(WorkerPhase::Waiting), WorkerAction::Wait)
            } else if self.phase is FirstGc {
                (
                    WorkerView {
                        phase: WorkerPhase::Waiting,
                        first_gc_done: self.first_gc_done || ok,
                    },
                    WorkerAction::Wait,
                )
            } else {
                (to(WorkerPhase::LastRetry), WorkerAction::ProcessWrites)
            },
        }
    }
}

/// A write signal is answered with a collection, a write and a collection, however they end,
/// and then the worker waits again.
pub proof fn law_writes_stand_between_collections(
    worker: WorkerView,
    first: bool,
    outcome: WriteOutcome,
    second: bool,
)
    requires
        worker.phase is Waiting,
    ensures
        ({
            let (a, action1) = worker.after(WorkerEvent::NeedsWrite);
            let (b, action2) = a.after(WorkerEvent::GarbageDone(first));
            let (c, action3) = b.after(WorkerEvent::WriteDone(outcome));
            let (d, action4) = c.after(WorkerEvent::GarbageDone(second));
            &&& a.accepts(WorkerEvent::GarbageDone(first))
            &&& b.accepts(WorkerEvent::WriteDone(outcome))
            &&& c.accepts(WorkerEvent::GarbageDone(second))
            &&& action1 is ProcessGarbage
            &&& action2 is ProcessWrites
            &&& action3 is ProcessGarbage
            &&& action4 is Wait
            &&& d == worker
        }),
{
}

/// A worker that is told to stop flushes the list and returns: it writes, and where garbage
/// has to be collected first, it does so and writes again.
pub proof fn law_stopping_worker_flushes(
    worker: WorkerView,
    outcome: WriteOutcome,
    collected: bool,
    again: WriteOutcome,
)
    requires
        worker.accepts(WorkerEvent::Stop),
    ensures
        ({
            let (a, action1) = worker.after(WorkerEvent::Stop);
            let (b, action2) = a.after(WorkerEvent::WriteDone(outcome));
            let (c, action3) = b.after(WorkerEvent::GarbageDone(collected));
            let (d, action4) = c.after(WorkerEvent::WriteDone(again));
            &&& action1 is ProcessWrites
            &&& a.accepts(WorkerEvent::WriteDone(outcome))
            &&& outcome is NeedsGarbageCollect ==> {
                &&& action2 is ProcessGarbage
                &&& action3 is ProcessWrites
                &&& action4 is Stopped
                &&& b.accepts(WorkerEvent::GarbageDone(collected))
                &&& c.accepts(WorkerEvent::WriteDone(again))
                &&& d.phase is Stopped
            }
            &&& !(outcome is NeedsGarbageCollect) ==> action2 is Stopped && b.phase is Stopped
        }),
{
}

/// Only a first collection that succeeds ends the scheduling of collections after reads.
pub proof fn law_collections_are_scheduled_until_one_succeeds(
    worker: WorkerView,
    event: WorkerEvent,
)
    requires
        worker.accepts(event),
    ensures
        worker.first_gc_done ==> worker.after(event).0.first_gc_done,
        !worker.first_gc_done && worker.after(event).0.first_gc_done ==> worker.phase is FirstGc
            && event == WorkerEvent::GarbageDone(true),
        event is ReadDone ==> (worker.after(event).1 == WorkerAction::WaitAndScheduleGc(
            FIRST_GC_DELAY_MS,
        ) <==> !worker.first_gc_done),
{
}

/// The signal that reads are needed, as the worker waits for it.
pub fn read_signal() -> (r: Debounce<WorkerEvent>)
    ensures
        r == (Debounce { event: WorkerEvent::NeedsRead, quiet_ms: READ_DEBOUNCE_MS }),
{
    Debounce { event: WorkerEvent::NeedsRead, quiet_ms: READ_DEBOUNCE_MS }
}

/// The signal that writes are needed, as the worker waits for it.
pub fn write_signal() -> (r: Debounce<WorkerEvent>)
    ensures
        r == (Debounce { event: WorkerEvent::NeedsWrite, quiet_ms: WRITE_DEBOUNCE_MS }),
{
    Debounce { event: WorkerEvent::NeedsWrite, quiet_ms: WRITE_DEBOUNCE_MS }
}

/// A worker that waits begins to read or to write, in answer to a signal, only once a period
/// has gone by in which no further signal came: until then there is no event that it would
/// accept.
pub proof fn law_operations_follow_a_quiet_period(
    worker: WorkerView,
    signal: Debounce<WorkerEvent>,
    again: Seq<bool>,
)
    requires
        worker.phase is Waiting,
        signal == (Debounce { event: WorkerEvent::NeedsRead, quiet_ms: READ_DEBOUNCE_MS })
            || signal == (Debounce {
            event: WorkerEvent::NeedsWrite,
            quiet_ms: WRITE_DEBOUNCE_MS,
        }),
    ensures
        match signal.after_periods(again) {
            Some(event) => {
                &&& exists|i: int| 0 <= i < again.len() && !#[trigger] again[i]
                &&& worker.accepts(event)
                &&& event is NeedsRead ==> worker.after(event).1 is ProcessReads
                &&& event is NeedsWrite ==> worker.after(event).1 is ProcessGarbage
                &&& event == signal.event
            },
            None => forall|i: int| 0 <= i < again.len() ==> #[trigger] again[i],
        },
{
    law_a_quiet_period_comes_first(signal, again);
}

/// A default worker that manages storage operations based on read/write signals.
pub struct Worker {
    phase: WorkerPhase,
    first_gc_done: bool,
}

impl Worker {
    /// What the worker is doing.
    pub closed spec fn view(&self) -> WorkerView {
        WorkerView { phase: self.phase, first_gc_done: self.first_gc_done }
    }

    /// A worker that waits for its first signal.
    pub fn new() -> (r: Self)
        ensures
            r@ == (WorkerView { phase: WorkerPhase::Waiting, first_gc_done: false }),
    {
        Worker { phase: WorkerPhase::Waiting, first_gc_done: false }
    }

    /// What the worker is doing.
    pub fn phase(&self) -> (phase: WorkerPhase)
        ensures
            phase == self@.phase,
    {
        self.phase
    }

    /// Take what has happened, and say what to do next.
    pub fn step(&mut self, event: WorkerEvent) -> (action: WorkerAction)
        requires
            old(self)@.accepts(event),
        ensures
            (final(self)@, action) == old(self)@.after(event),
    {
        let (phase, action) = match event {
            WorkerEvent::NeedsRead => (WorkerPhase::Reading, WorkerAction::ProcessReads),
            WorkerEvent::NeedsWrite => (
                WorkerPhase::ClearingForWrite,
                WorkerAction::ProcessGarbage,
            ),
            WorkerEvent::NeedsGc => (WorkerPhase::FirstGc, WorkerAction::ProcessGarbage),
            WorkerEvent::Stop => (WorkerPhase::LastWrite, WorkerAction::ProcessWrites),
            WorkerEvent::ReadDone(_) => {
                // On the first run (i.e., after startup) we want to run garbage collection
                // once to have everything in a clean state. Delay this to give other tasks
                // time to do work before we potentially block for a longer time.
                if self.first_gc_done {
                    (WorkerPhase::Waiting, WorkerAction::Wait)
                } else {
                    (WorkerPhase::Waiting, WorkerAction::WaitAndScheduleGc(FIRST_GC_DELAY_MS))
                }
            },
            WorkerEvent::WriteDone(outcome) => match (self.phase, outcome) {
                (WorkerPhase::Writing, _) => (
                    WorkerPhase::ClearingAfterWrite,
                    WorkerAction::ProcessGarbage,
                ),
                (WorkerPhase::LastWrite, WriteOutcome::NeedsGarbageCollect) => (
                    WorkerPhase::LastGc,
                    WorkerAction::ProcessGarbage,
                ),
                _ => (WorkerPhase::Stopped, WorkerAction::Stopped),
            },
            WorkerEvent::GarbageDone(ok) => match self.phase {
                WorkerPhase::ClearingForWrite => (
                    WorkerPhase::Writing,
                    WorkerAction::ProcessWrites,
                ),
                WorkerPhase::ClearingAfterWrite => (WorkerPhase::Waiting, WorkerAction::Wait),
                WorkerPhase::FirstGc => {
                    self.first_gc_done = self.first_gc_done || ok;
                    (WorkerPhase::Waiting, WorkerAction::Wait)
                },
                _ => (WorkerPhase::LastRetry, WorkerAction::ProcessWrites),
            },
        };
        self.phase = phase;
        action
    }
}

impl Default for Worker {
    fn default() -> (r: Self)
        ensures
            r@ == (WorkerView { phase: WorkerPhase::Waiting, first_gc_done: false }),
    {
        Worker::new()
    }
}

/// One round of a worker that always reads no entries and ignores all writes
///
/// This is useful in testing to always start out with an empty flash. It ONLY serves reads,
/// not writes or garbage collection: these would fail when attempting to verify with
/// read-back.
///
/// The list must not know of records in another storage. Returns whether a read was asked
/// for.
pub fn no_op_worker_task<T, V: VTable<T>, const KEPT_RECORDS: usize>(
    list: &mut StorageList<T, V, KEPT_RECORDS>,
) -> (served: bool)
    requires
        old(list).wf(),
        old(list)@.seq.highest() is None,
    ensures
        final(list).wf(),
        final(list)@.seq.highest() is None,
        served == old(list)@.needs_read,
        final(list)@ == (if old(list)@.needs_read {
            (ListView { needs_read: false, ..old(list)@ }).after_read(Seq::<ItemView>::empty())
        } else {
            old(list)@
        }),
{
    if list.needs_read() {
        let ghost asked = list@;
        let mut flash = AlwaysEmptyFlash;
        let r = list.process_reads(&mut flash);
        assert(crate::record::good_records(Seq::<ItemView>::empty()) =~= Seq::empty());
        assert(asked.after_scan(Seq::<ItemView>::empty()).seq.highest() is None);
        assert(r is Ok);
        true
    } else {
        false
    }
}

/// A signal for reads is answered with one read, however it ends, and then the worker waits
/// again. A collection is scheduled with it until one that was scheduled has succeeded.
pub proof fn law_a_signal_for_reads_is_answered(worker: WorkerView, ok: bool)
    requires
        worker.phase == WorkerPhase::Waiting,
    ensures
        ({
            let (a, action1) = worker.after(WorkerEvent::NeedsRead);
            let (b, action2) = a.after(WorkerEvent::ReadDone(ok));
            &&& action1 == WorkerAction::ProcessReads
            &&& a.accepts(WorkerEvent::ReadDone(ok))
            &&& a.phase == WorkerPhase::Reading
            &&& b == worker
            &&& worker.first_gc_done ==> action2 == WorkerAction::Wait
            &&& !worker.first_gc_done ==> action2 == WorkerAction::WaitAndScheduleGc(
                FIRST_GC_DELAY_MS,
            )
        }),
{
}

/// A scheduled collection is done, and then the worker waits again. It counts as the first one
/// exactly if it has succeeded, or one has before.
pub proof fn law_a_scheduled_collection_is_done(worker: WorkerView, ok: bool)
    requires
        worker.phase == WorkerPhase::Waiting,
    ensures
        ({
            let (a, action1) = worker.after(WorkerEvent::NeedsGc);
            let (b, action2) = a.after(WorkerEvent::GarbageDone(ok));
            &&& action1 == WorkerAction::ProcessGarbage
            &&& a.accepts(WorkerEvent::GarbageDone(ok))
            &&& action2 == WorkerAction::Wait
            &&& b.phase == WorkerPhase::Waiting
            &&& b.first_gc_done == (worker.first_gc_done || ok)
        }),
{
}

/// A worker that waits takes every signal. A worker that has begun an operation takes its end,
/// however the operation has ended. Both can be told to stop, until that has been done. A worker
/// that has stopped takes nothing more.
pub proof fn law_what_a_worker_takes(worker: WorkerView, ok: bool, outcome: WriteOutcome)
    ensures
        worker.phase == WorkerPhase::Waiting ==> worker.accepts(WorkerEvent::NeedsRead)
            && worker.accepts(WorkerEvent::NeedsWrite) && worker.accepts(WorkerEvent::NeedsGc)
            && worker.accepts(WorkerEvent::Stop),
        worker.phase == WorkerPhase::Reading ==> worker.accepts(WorkerEvent::ReadDone(ok))
            && worker.accepts(WorkerEvent::Stop),
        worker.phase == WorkerPhase::Writing ==> worker.accepts(WorkerEvent::WriteDone(outcome))
            && worker.accepts(WorkerEvent::Stop),
        worker.phase == WorkerPhase::ClearingForWrite || worker.phase
            == WorkerPhase::ClearingAfterWrite || worker.phase == WorkerPhase::FirstGc
            ==> worker.accepts(WorkerEvent::GarbageDone(ok)) && worker.accepts(WorkerEvent::Stop),
        worker.phase == WorkerPhase::LastWrite || worker.phase == WorkerPhase::LastRetry
            ==> worker.accepts(WorkerEvent::WriteDone(outcome)) && !worker.accepts(
            WorkerEvent::Stop,
        ),
        worker.phase == WorkerPhase::LastGc ==> worker.accepts(WorkerEvent::GarbageDone(ok))
            && !worker.accepts(WorkerEvent::Stop),
        worker.phase == WorkerPhase::Stopped ==> !worker.accepts(WorkerEvent::NeedsRead)
            && !worker.accepts(WorkerEvent::NeedsWrite) && !worker.accepts(WorkerEvent::NeedsGc)
            && !worker.accepts(WorkerEvent::Stop) && !worker.accepts(WorkerEvent::ReadDone(ok))
            && !worker.accepts(WorkerEvent::WriteDone(outcome)) && !worker.accepts(
            WorkerEvent::GarbageDone(ok),
        ),
{
}

/// As long as it has not been told to stop, a worker never stops, whatever happens to it.
pub proof fn law_only_a_stop_ends_a_worker(worker: WorkerView, event: WorkerEvent)
    requires
        worker.accepts(event),
        worker.phase != WorkerPhase::LastWrite,
        worker.phase != WorkerPhase::LastGc,
        worker.phase != WorkerPhase::LastRetry,
        event != WorkerEvent::Stop,
    ensures
        ({
            let (after, action) = worker.after(event);
            &&& action != WorkerAction::Stopped
            &&& after.phase != WorkerPhase::Stopped
            &&& after.phase != WorkerPhase::LastWrite
            &&& after.phase != WorkerPhase::LastGc
            &&& after.phase != WorkerPhase::LastRetry
            &&& after.accepts(WorkerEvent::Stop)
        }),
{
}

} // verus!
