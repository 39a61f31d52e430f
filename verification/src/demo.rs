//! The configurations of the demo firmwares, and what becomes of them.
//!
//! One firmware blinks LEDs at a speed that a button changes. The other puts a load on the
//! storage: each of its configurations changes a little on every tick.
use crate::debounce::Debounce;
use vstd::prelude::*;

verus! {

/// The shortest time for which a LED is on or off.
pub const MIN_TIME_MS: u64 = 25;

/// The longest time for which a LED is on or off.
pub const MAX_TIME_MS: u64 = 1500;

/// A button counts as pressed once it has been held for this long.
pub const HOLD_MS: u64 = 2;

/// The worker of the demo firmwares processes a read after no new read signal has come for
/// this long.
pub const READ_DEBOUNCE_MS: u64 = 100;

/// The worker of the demo firmwares processes a write after no new write signal has come for
/// this long.
pub const WRITE_DEBOUNCE_MS: u64 = 1_000;

/// How long a LED is on and off
#[derive(Clone, Copy, Debug, PartialEq, Eq, Structural)]
pub struct BlinkConfig {
    /// How long it is on
    pub on_time_ms: u64,
    /// How long it is off
    pub off_time_ms: u64,
}

// If our configuration is not resident in flash, this value will be used instead,
// and then written back to flash on first boot.
impl Default for BlinkConfig {
    fn default() -> (r: Self)
        ensures
            r == (BlinkConfig { on_time_ms: 25, off_time_ms: 25 }),
    {
        BlinkConfig { on_time_ms: 25, off_time_ms: 25 }
    }
}

/// Whether a time is one that a LED can be on or off.
pub open spec fn good_time(ms: u64) -> bool {
    MIN_TIME_MS <= ms <= MAX_TIME_MS
}

/// The time that is used in place of a loaded one.
pub open spec fn validated_time(ms: u64) -> u64 {
    if good_time(ms) {
        ms
    } else {
        MIN_TIME_MS
    }
}

/// The time after a press of the button.
pub open spec fn next_time(ms: u64) -> u64 {
    if ms * 2 > MAX_TIME_MS {
        MIN_TIME_MS
    } else {
        (ms * 2) as u64
    }
}

impl BlinkConfig {
    /// Validates a loaded value, and says whether it had to be changed.
    ///
    /// Data loaded from flash is still "untrusted" data: what a "correct" value means may
    /// change across different firmware versions.
    pub fn validated(self) -> (r: (Self, bool))
        ensures
            r.0 == (BlinkConfig {
                on_time_ms: validated_time(self.on_time_ms),
                off_time_ms: validated_time(self.off_time_ms),
            }),
            r.1 == !(good_time(self.on_time_ms) && good_time(self.off_time_ms)),
    {
        let mut val = self;
        let mut written = false;
        if val.on_time_ms < MIN_TIME_MS || val.on_time_ms > MAX_TIME_MS {
            val.on_time_ms = MIN_TIME_MS;
            written = true;
        }
        if val.off_time_ms < MIN_TIME_MS || val.off_time_ms > MAX_TIME_MS {
            val.off_time_ms = MIN_TIME_MS;
            written = true;
        }
        (val, written)
    }

    /// Update the times, by doubling until we reach a too-high value.
    pub fn pressed(self) -> (r: Self)
        requires
            self.on_time_ms <= u64::MAX / 2,
            self.off_time_ms <= u64::MAX / 2,
        ensures
            r == (BlinkConfig {
                on_time_ms: next_time(self.on_time_ms),
                off_time_ms: next_time(self.off_time_ms),
            }),
    {
        BlinkConfig {
            on_time_ms: if self.on_time_ms * 2 > MAX_TIME_MS {
                MIN_TIME_MS
            } else {
                self.on_time_ms * 2
            },
            off_time_ms: if self.off_time_ms * 2 > MAX_TIME_MS {
                MIN_TIME_MS
            } else {
                self.off_time_ms * 2
            },
        }
    }
}

/// Presses of the button lead from good times to good times.
pub proof fn law_presses_keep_times_good(ms: u64)
    ensures
        good_time(validated_time(ms)),
        good_time(ms) ==> good_time(next_time(ms)),
{
}

/// What has happened to the worker of the demo firmwares
#[derive(Clone, Copy, Debug, PartialEq, Eq, Structural)]
pub enum DemoEvent {
    /// Reads have been signalled, and the signal has been debounced
    NeedsRead,
    /// Writes have been signalled, and the signal has been debounced
    NeedsWrite,
    /// A read has ended, successfully or not
    ReadDone(bool),
    /// A write has ended, successfully or not
    WriteDone(bool),
    /// A collection has ended, successfully or not
    GarbageDone(bool),
}

/// What the worker of the demo firmwares does next
#[derive(Clone, Copy, Debug, PartialEq, Eq, Structural)]
pub enum DemoAction {
    /// Wait for the next signal
    Wait,
    /// Process reads
    ProcessReads,
    /// Process writes
    ProcessWrites,
    /// Process garbage
    ProcessGarbage,
}

/// What the worker of the demo firmwares is doing
#[derive(Clone, Copy, Debug, PartialEq, Eq, Structural)]
pub enum DemoPhase {
    /// Waiting for a signal
    Waiting,
    /// Reading
    Reading,
    /// Collecting garbage after a read
    ClearingAfterRead,
    /// Writing
    Writing,
    /// Collecting garbage after a write
    ClearingAfterWrite,
}

/// The worker of the demo firmwares: reads are followed by a collection until one has
/// succeeded, and writes are always followed by one. It never stops.
#[derive(Clone, Copy, Debug, PartialEq, Eq, Structural)]
pub struct DemoWorker {
    /// What it is doing
    pub phase: DemoPhase,
    /// Whether a collection after a read has succeeded
    pub first_gc_done: bool,
}

/// A signal to the worker of the demo firmwares, and how the operations end with which it is
/// answered
pub struct DemoRound {
    /// Whether the signal is one for reads, not for writes
    pub reads: bool,
    /// Whether the read or the write succeeds
    pub done: bool,
    /// Whether the collection succeeds, where there is one
    pub collected: bool,
}

impl DemoWorker {
    /// Whether the event can happen: a signal comes while the worker waits, and an operation
    /// ends while it runs.
    pub open spec fn accepts(self, event: DemoEvent) -> bool {
        match event {
            DemoEvent::NeedsRead | DemoEvent::NeedsWrite => self.phase is Waiting,
            DemoEvent::ReadDone(_) => self.phase is Reading,
            DemoEvent::WriteDone(_) => self.phase is Writing,
            DemoEvent::GarbageDone(_) => self.phase is ClearingAfterRead || self.phase
                is ClearingAfterWrite,
        }
    }

    /// What the worker does after the event.
    pub open spec fn after(self, event: DemoEvent) -> (DemoWorker, DemoAction) {
        let to = |phase: DemoPhase| DemoWorker { phase, ..self };
        match event {
            DemoEvent::NeedsRead => (to(DemoPhase::Reading), DemoAction::ProcessReads),
            DemoEvent::NeedsWrite => (to(DemoPhase::Writing), DemoAction::ProcessWrites),
            DemoEvent::ReadDone(_) => if self.first_gc_done {
                (to(DemoPhase::Waiting), DemoAction::Wait)
            } else {
                (to(DemoPhase::ClearingAfterRead), DemoAction::ProcessGarbage)
            },
            DemoEvent::WriteDone(_) => (
                to(DemoPhase::ClearingAfterWrite),
                DemoAction::ProcessGarbage,
            ),
            DemoEvent::GarbageDone(ok) => (
                DemoWorker {
                    phase: DemoPhase::Waiting,
                    first_gc_done: self.first_gc_done || (self.phase is ClearingAfterRead && ok),
                },
                DemoAction::Wait,
            ),
        }
    }

    /// The signal with which a round begins.
    pub open spec fn signal(round: DemoRound) -> DemoEvent {
        if round.reads {
            DemoEvent::NeedsRead
        } else {
            DemoEvent::NeedsWrite
        }
    }

    /// The end of the operation that the signal asks for.
    pub open spec fn answer(round: DemoRound) -> DemoEvent {
        if round.reads {
            DemoEvent::ReadDone(round.done)
        } else {
            DemoEvent::WriteDone(round.done)
        }
    }

    /// The worker when it waits again, and what it has done until then.
    pub open spec fn after_round(self, round: DemoRound) -> (DemoWorker, Seq<DemoAction>) {
        let (begun, first) = self.after(Self::signal(round));
        let (done, second) = begun.after(Self::answer(round));
        if second is Wait {
            (done, seq![first])
        } else {
            (done.after(DemoEvent::GarbageDone(round.collected)).0, seq![first, second])
        }
    }

    /// The worker after some rounds.
    pub open spec fn after_rounds(self, rounds: Seq<DemoRound>) -> DemoWorker
        decreases rounds.len(),
    {
        if rounds.len() == 0 {
            self
        } else {
            self.after_rounds(rounds.drop_last()).after_round(rounds.last()).0
        }
    }

    /// A worker that waits for its first signal.
    pub fn new() -> (r: Self)
        ensures
            r == (DemoWorker { phase: DemoPhase::Waiting, first_gc_done: false }),
    {
        DemoWorker { phase: DemoPhase::Waiting, first_gc_done: false }
    }

    /// Take what has happened, and say what to do next.
    pub fn step(&mut self, event: DemoEvent) -> (action: DemoAction)
        requires
            old(self).accepts(event),
        ensures
            (*final(self), action) == old(self).after(event),
    {
        let (phase, action) = match event {
            DemoEvent::NeedsRead => (DemoPhase::Reading, DemoAction::ProcessReads),
            DemoEvent::NeedsWrite => (DemoPhase::Writing, DemoAction::ProcessWrites),
            DemoEvent::ReadDone(_) => {
                // If this was the FIRST read, we need to perform garbage collection before
                // handling our first write.
                if self.first_gc_done {
                    (DemoPhase::Waiting, DemoAction::Wait)
                } else {
                    (DemoPhase::ClearingAfterRead, DemoAction::ProcessGarbage)
                }
            },
            // Whenever we write, we may need to perform garbage collection before the next
            // write will succeed.
            DemoEvent::WriteDone(_) => (DemoPhase::ClearingAfterWrite, DemoAction::ProcessGarbage),
            DemoEvent::GarbageDone(ok) => {
                if let DemoPhase::ClearingAfterRead = self.phase {
                    self.first_gc_done = self.first_gc_done || ok;
                }
                (DemoPhase::Waiting, DemoAction::Wait)
            },
        };
        self.phase = phase;
        action
    }
}

/// The signal that reads are needed, as the worker of the demo firmwares waits for it.
pub fn read_signal() -> (r: Debounce<DemoEvent>)
    ensures
        r == (Debounce { event: DemoEvent::NeedsRead, quiet_ms: READ_DEBOUNCE_MS }),
{
    Debounce { event: DemoEvent::NeedsRead, quiet_ms: READ_DEBOUNCE_MS }
}

/// The signal that writes are needed, as the worker of the demo firmwares waits for it.
pub fn write_signal() -> (r: Debounce<DemoEvent>)
    ensures
        r == (Debounce { event: DemoEvent::NeedsWrite, quiet_ms: WRITE_DEBOUNCE_MS }),
{
    Debounce { event: DemoEvent::NeedsWrite, quiet_ms: WRITE_DEBOUNCE_MS }
}

impl Default for DemoWorker {
    fn default() -> (r: Self)
        ensures
            r == (DemoWorker { phase: DemoPhase::Waiting, first_gc_done: false }),
    {
        DemoWorker::new()
    }
}

/// A signal for reads is answered by a read and, unless a collection after a read has
/// succeeded before, by a collection. A signal for writes is answered by a write and a
/// collection. However they end, the worker then waits for the next signal.
pub proof fn law_demo_worker_answers_signals(worker: DemoWorker, round: DemoRound)
    requires
        worker.phase is Waiting,
    ensures
        ({
            let begun = worker.after(DemoWorker::signal(round)).0;
            let (done, second) = begun.after(DemoWorker::answer(round));
            &&& worker.accepts(DemoWorker::signal(round))
            &&& begun.accepts(DemoWorker::answer(round))
            &&& second is ProcessGarbage ==> done.accepts(DemoEvent::GarbageDone(round.collected))
                && done.after(DemoEvent::GarbageDone(round.collected)).1 is Wait
            &&& worker.after_round(round).0.phase is Waiting
            &&& worker.after_round(round).1 == (if !round.reads {
                seq![DemoAction::ProcessWrites, DemoAction::ProcessGarbage]
            } else if worker.first_gc_done {
                seq![DemoAction::ProcessReads]
            } else {
                seq![DemoAction::ProcessReads, DemoAction::ProcessGarbage]
            })
        }),
{
}

/// After any signals, however they have been answered, the worker waits for the next one, and
/// it still collects after reads exactly if no collection after a read has succeeded.
pub proof fn law_demo_worker_collects_until_it_succeeds(rounds: Seq<DemoRound>)
    ensures
        ({
            let worker = (DemoWorker {
                phase: DemoPhase::Waiting,
                first_gc_done: false,
            }).after_rounds(rounds);
            &&& worker.phase is Waiting
            &&& worker.first_gc_done <==> exists|i: int|
                0 <= i < rounds.len() && (#[trigger] rounds[i]).reads && rounds[i].collected
        }),
    decreases rounds.len(),
{
    if rounds.len() > 0 {
        let front = rounds.drop_last();
        law_demo_worker_collects_until_it_succeeds(front);
        let n = rounds.len() - 1;
        assert(rounds.last() == rounds[n]);
        if exists|i: int| 0 <= i < rounds.len() && (#[trigger] rounds[i]).reads
            && rounds[i].collected {
            let i = choose|i: int|
                0 <= i < rounds.len() && (#[trigger] rounds[i]).reads && rounds[i].collected;
            if i < n {
                assert(front[i].reads && front[i].collected);
            }
        }
        if exists|i: int| 0 <= i < front.len() && (#[trigger] front[i]).reads
            && front[i].collected {
            let i = choose|i: int|
                0 <= i < front.len() && (#[trigger] front[i]).reads && front[i].collected;
            assert(rounds[i].reads && rounds[i].collected);
        }
    }
}

/// Data of bytes
#[derive(Clone, Debug)]
pub struct AlphaConfig {
    pub data_a: [u8; 32],
    pub data_b: [u8; 16],
    pub data_c: [u8; 8],
    pub data_d: [u8; 8],
}

/// Data of words
#[derive(Clone, Debug)]
pub struct BetaConfig {
    pub data_a: [u32; 8],
    pub data_b: [u32; 4],
    pub data_c: [u32; 2],
    pub data_d: [u32; 2],
}

/// Data of words
#[derive(Clone, Debug)]
pub struct DeltaConfig {
    pub data_a: [u32; 8],
    pub data_b: [u32; 4],
    pub data_c: [u32; 2],
    pub data_d: [u32; 2],
}

/// Data of half words
#[derive(Clone, Debug)]
pub struct EpsilonConfig {
    pub data_a: [u16; 16],
    pub data_b: [u16; 8],
    pub data_c: [u16; 4],
    pub data_d: [u16; 4],
}

/// A byte that has been incremented.
pub open spec fn inc_byte(x: u8) -> u8 {
    ((x + 1) % 256) as u8
}

/// A word that has been incremented.
pub open spec fn inc_word(x: u32) -> u32 {
    ((x + 1) % 0x1_0000_0000) as u32
}

/// A word that has been squared.
pub open spec fn square_word(x: u32) -> u32 {
    ((x * x) % 0x1_0000_0000) as u32
}

/// A half word that has been rotated left by one bit.
pub open spec fn rotate_half(x: u16) -> u16 {
    ((x * 2) % 0x1_0000 + x / 0x8000) as u16
}

/// Increment every byte.
fn inc_bytes<const N: usize>(data: &mut [u8; N])
    ensures
        final(data)@ == old(data)@.map_values(|x: u8| inc_byte(x)),
{
    let ghost before = data@;
    let mut i: usize = 0;
    while i < N
        invariant
            i <= N,
            before.len() == N,
            data@.len() == N,
            forall|k: int| 0 <= k < i ==> #[trigger] data@[k] == inc_byte(before[k]),
            forall|k: int| i <= k < N ==> #[trigger] data@[k] == before[k],
        decreases N - i,
    {
        data[i] = data[i].wrapping_add(1);
        i += 1;
    }
    assert(data@ =~= before.map_values(|x: u8| inc_byte(x)));
}

/// Increment every word.
fn inc_words<const N: usize>(data: &mut [u32; N])
    ensures
        final(data)@ == old(data)@.map_values(|x: u32| inc_word(x)),
{
    let ghost before = data@;
    let mut i: usize = 0;
    while i < N
        invariant
            i <= N,
            before.len() == N,
            data@.len() == N,
            forall|k: int| 0 <= k < i ==> #[trigger] data@[k] == inc_word(before[k]),
            forall|k: int| i <= k < N ==> #[trigger] data@[k] == before[k],
        decreases N - i,
    {
        data[i] = data[i].wrapping_add(1);
        i += 1;
    }
    assert(data@ =~= before.map_values(|x: u32| inc_word(x)));
}

/// Square every word.
fn square_words<const N: usize>(data: &mut [u32; N])
    ensures
        final(data)@ == old(data)@.map_values(|x: u32| square_word(x)),
{
    let ghost before = data@;
    let mut i: usize = 0;
    while i < N
        invariant
            i <= N,
            before.len() == N,
            data@.len() == N,
            forall|k: int| 0 <= k < i ==> #[trigger] data@[k] == square_word(before[k]),
            forall|k: int| i <= k < N ==> #[trigger] data@[k] == before[k],
        decreases N - i,
    {
        data[i] = data[i].wrapping_mul(data[i]);
        i += 1;
    }
    assert(data@ =~= before.map_values(|x: u32| square_word(x)));
}

/// Rotate every half word.
fn rotate_halves<const N: usize>(data: &mut [u16; N])
    ensures
        final(data)@ == old(data)@.map_values(|x: u16| rotate_half(x)),
{
    let ghost before = data@;
    let mut i: usize = 0;
    while i < N
        invariant
            i <= N,
            before.len() == N,
            data@.len() == N,
            forall|k: int| 0 <= k < i ==> #[trigger] data@[k] == rotate_half(before[k]),
            forall|k: int| i <= k < N ==> #[trigger] data@[k] == before[k],
        decreases N - i,
    {
        let x: u32 = data[i] as u32;
        data[i] = (x * 2 % 0x1_0000 + x / 0x8000) as u16;
        i += 1;
    }
    assert(data@ =~= before.map_values(|x: u16| rotate_half(x)));
}

impl AlphaConfig {
    /// Just increment every byte on every tick
    pub fn tick(&mut self)
        ensures
            final(self).data_a@ == old(self).data_a@.map_values(|x: u8| inc_byte(x)),
            final(self).data_b@ == old(self).data_b@.map_values(|x: u8| inc_byte(x)),
            final(self).data_c@ == old(self).data_c@.map_values(|x: u8| inc_byte(x)),
            final(self).data_d@ == old(self).data_d@.map_values(|x: u8| inc_byte(x)),
    {
        inc_bytes(&mut self.data_a);
        inc_bytes(&mut self.data_b);
        inc_bytes(&mut self.data_c);
        inc_bytes(&mut self.data_d);
    }
}

impl BetaConfig {
    /// Just increment every word on every tick
    pub fn tick(&mut self)
        ensures
            final(self).data_a@ == old(self).data_a@.map_values(|x: u32| inc_word(x)),
            final(self).data_b@ == old(self).data_b@.map_values(|x: u32| inc_word(x)),
            final(self).data_c@ == old(self).data_c@.map_values(|x: u32| inc_word(x)),
            final(self).data_d@ == old(self).data_d@.map_values(|x: u32| inc_word(x)),
    {
        inc_words(&mut self.data_a);
        inc_words(&mut self.data_b);
        inc_words(&mut self.data_c);
        inc_words(&mut self.data_d);
    }
}

impl DeltaConfig {
    /// Square every word on every tick
    pub fn tick(&mut self)
        ensures
            final(self).data_a@ == old(self).data_a@.map_values(|x: u32| square_word(x)),
            final(self).data_b@ == old(self).data_b@.map_values(|x: u32| square_word(x)),
            final(self).data_c@ == old(self).data_c@.map_values(|x: u32| square_word(x)),
            final(self).data_d@ == old(self).data_d@.map_values(|x: u32| square_word(x)),
    {
        square_words(&mut self.data_a);
        square_words(&mut self.data_b);
        square_words(&mut self.data_c);
        square_words(&mut self.data_d);
    }
}

impl EpsilonConfig {
    /// Rotate every half word on every tick
    pub fn tick(&mut self)
        ensures
            final(self).data_a@ == old(self).data_a@.map_values(|x: u16| rotate_half(x)),
            final(self).data_b@ == old(self).data_b@.map_values(|x: u16| rotate_half(x)),
            final(self).data_c@ == old(self).data_c@.map_values(|x: u16| rotate_half(x)),
            final(self).data_d@ == old(self).data_d@.map_values(|x: u16| rotate_half(x)),
    {
        rotate_halves(&mut self.data_a);
        rotate_halves(&mut self.data_b);
        rotate_halves(&mut self.data_c);
        rotate_halves(&mut self.data_d);
    }
}

/// On each tick a number goes up by one, and begins at 0 again after the largest.
pub proof fn law_numbers_go_round(byte: u8, word: u32)
    ensures
        byte < u8::MAX ==> inc_byte(byte) == byte + 1,
        byte == u8::MAX ==> inc_byte(byte) == 0,
        word < u32::MAX ==> inc_word(word) == word + 1,
        word == u32::MAX ==> inc_word(word) == 0,
{
}

/// The square of a word is what is left of it when multiples of the word size are taken away.
pub proof fn law_squares_of_words(word: u32)
    ensures
        0 <= square_word(word) as int <= word * word,
        (word * word - square_word(word)) % 0x1_0000_0000 == 0,
        word * word < 0x1_0000_0000 ==> square_word(word) == word * word,
{
    let n = word * word;
    assert(0 <= n) by (nonlinear_arith)
        requires
            n == word * word,
            word >= 0,
    ;
}

/// Rotated by one bit, a half word is doubled, and the bit that falls out at the top comes in at
/// the bottom.
pub proof fn law_rotated_half_words(half: u16)
    ensures
        half < 0x8000 ==> rotate_half(half) == 2 * half,
        half >= 0x8000 ==> rotate_half(half) == 2 * half - 0xFFFF,
{
}

/// A time between the shortest and the longest is taken as it is, and any other is replaced by
/// the shortest. A press doubles a time, or begins with the shortest again where that is more
/// than the longest.
pub proof fn law_times_of_a_led(ms: u64)
    ensures
        MIN_TIME_MS <= ms && ms <= MAX_TIME_MS ==> validated_time(ms) == ms && good_time(ms),
        ms < MIN_TIME_MS || ms > MAX_TIME_MS ==> validated_time(ms) == MIN_TIME_MS && !good_time(ms),
        2 * ms <= MAX_TIME_MS ==> next_time(ms) == 2 * ms,
        2 * ms > MAX_TIME_MS ==> next_time(ms) == MIN_TIME_MS,
{
}

/// A worker that waits takes both signals, and one that has begun an operation takes its end.
pub proof fn law_what_a_demo_worker_takes(worker: DemoWorker, ok: bool)
    ensures
        worker.phase == DemoPhase::Waiting ==> worker.accepts(DemoEvent::NeedsRead)
            && worker.accepts(DemoEvent::NeedsWrite),
        worker.phase == DemoPhase::Reading ==> worker.accepts(DemoEvent::ReadDone(ok)),
        worker.phase == DemoPhase::Writing ==> worker.accepts(DemoEvent::WriteDone(ok)),
        worker.phase == DemoPhase::ClearingAfterRead || worker.phase
            == DemoPhase::ClearingAfterWrite ==> worker.accepts(DemoEvent::GarbageDone(ok)),
{
}

} // verus!
