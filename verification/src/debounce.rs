//! Signals that are acted on only after a quiet period.
use vstd::prelude::*;

verus! {

/// A signal that is acted on once no further one has come for some time
///
/// Each further signal within the period starts the period anew.
#[derive(Debug)]
pub struct Debounce<E> {
    /// What the signal comes to
    pub event: E,
    /// How long no further signal must come, in milliseconds
    pub quiet_ms: u64,
}

impl<E> Debounce<E> {
    /// What the signal has come to after some periods, of each of which it is known whether a
    /// further signal has come in it.
    pub open spec fn after_periods(self, again: Seq<bool>) -> Option<E>
        decreases again.len(),
    {
        if again.len() == 0 {
            None
        } else if self.after_periods(again.drop_last()) is Some || !again.last() {
            Some(self.event)
        } else {
            None
        }
    }
}

impl<E: Copy> Debounce<E> {
    /// What the signal comes to after one more period, in which a further signal has come or
    /// not. Where it comes to nothing yet, another period is due.
    pub fn after_period(&self, again: bool) -> (r: Option<E>)
        ensures
            r == (if again {
                None
            } else {
                Some(self.event)
            }),
            r == self.after_periods(seq![again]),
    {
        assert(self.after_periods(seq![again].drop_last()) is None);
        if again {
            None
        } else {
            Some(self.event)
        }
    }
}

/// A signal is acted on exactly if it has been followed by a quiet period, and then as what it
/// is: as long as a further signal comes in each period, nothing is done.
pub proof fn law_a_quiet_period_comes_first<E>(signal: Debounce<E>, again: Seq<bool>)
    ensures
        signal.after_periods(again) is Some <==> exists|i: int|
            0 <= i < again.len() && !#[trigger] again[i],
        signal.after_periods(again) matches Some(event) ==> event == signal.event,
    decreases again.len(),
{
    if again.len() > 0 {
        let front = again.drop_last();
        let n = again.len() - 1;
        law_a_quiet_period_comes_first(signal, front);
        assert(again.last() == again[n]);
        if signal.after_periods(front) is Some {
            let i = choose|i: int| 0 <= i < front.len() && !#[trigger] front[i];
            assert(!again[i]);
        }
        if exists|i: int| 0 <= i < again.len() && !#[trigger] again[i] {
            let i = choose|i: int| 0 <= i < again.len() && !#[trigger] again[i];
            if i < n {
                assert(!front[i]);
            }
        }
    }
}

} // verus!
