//! What the splitter did to the timer, recorded rather than acted on.
use vstd::prelude::*;

verus! {

/// The timer's state, as a host reports it.
#[derive(Clone, Copy, Debug, PartialEq, Eq, Structural)]
pub enum TimerState {
    NotRunning,
    Running,
    Paused,
    Ended,
}

impl Default for TimerState {
    fn default() -> (state: Self)
        ensures
            state is NotRunning,
    {
        TimerState::NotRunning
    }
}

impl TimerState {
    /// The number the state goes by at the host's boundary.
    pub open spec fn number(self) -> u32 {
        match self {
            TimerState::NotRunning => 0,
            TimerState::Running => 1,
            TimerState::Paused => 2,
            TimerState::Ended => 3,
        }
    }

    pub fn as_u32(self) -> (number: u32)
        ensures
            number == self.number(),
    {
        match self {
            TimerState::NotRunning => 0,
            TimerState::Running => 1,
            TimerState::Paused => 2,
            TimerState::Ended => 3,
        }
    }
}

/// A call the splitter made, in the order it made it.
#[derive(Clone, Debug, PartialEq)]
pub enum TimerEvent {
    Start,
    Split,
    SkipSplit,
    UndoSplit,
    Reset,
    PauseGameTime,
    ResumeGameTime,
    SetGameTime { secs: i64, nanos: i32 },
    SetVariable { key: String, value: String },
}

impl TimerEvent {
    /// Whether the event moves the run on: a start, split, skip, undo or reset.
    ///
    /// Writes to the status variable are the splitter talking to the runner,
    /// and the game-time calls are a second clock running alongside the run.
    pub open spec fn controls(self) -> bool {
        match self {
            TimerEvent::SetVariable { .. } => false,
            TimerEvent::SetGameTime { .. } => false,
            TimerEvent::PauseGameTime => false,
            TimerEvent::ResumeGameTime => false,
            _ => true,
        }
    }
}

/// The timer the splitter sees, and the record of what it asked for.
///
/// Deliberately not a real timer. It models only the transitions the splitter
/// reads back: start makes it running, reset stops it. It does **not** end the
/// run after the last split, because it has no notion of a split count.
pub struct Timer {
    pub state: TimerState,
    pub events: Vec<TimerEvent>,
}

impl Default for Timer {
    fn default() -> (timer: Self)
        ensures
            timer.state is NotRunning,
            timer.events@.len() == 0,
    {
        Timer { state: TimerState::NotRunning, events: Vec::new() }
    }
}

/// The state that `event` leaves the timer in.
pub open spec fn after(state: TimerState, event: TimerEvent) -> TimerState {
    match event {
        TimerEvent::Start => TimerState::Running,
        TimerEvent::Reset => TimerState::NotRunning,
        _ => state,
    }
}

/// The state a whole record of events leaves the timer in.
pub open spec fn after_all(state: TimerState, events: Seq<TimerEvent>) -> TimerState
    decreases events.len(),
{
    if events.len() == 0 {
        state
    } else {
        after(after_all(state, events.drop_last()), events.last())
    }
}

/// How many of `events` are of the kind `kind` tells.
pub open spec fn tally(events: Seq<TimerEvent>, kind: spec_fn(TimerEvent) -> bool) -> nat {
    events.filter(kind).len()
}

impl Timer {
    /// Adds an event to the record.
    pub fn record(&mut self, event: TimerEvent)
        ensures
            final(self).state == after(old(self).state, event),
            final(self).events@ == old(self).events@.push(event),
    {
        match event {
            TimerEvent::Start => {
                self.state = TimerState::Running;
            },
            TimerEvent::Reset => {
                self.state = TimerState::NotRunning;
            },
            _ => {},
        }
        self.events.push(event);
    }

    /// Events that control the run: starts, splits, skips, undos and resets.
    ///
    /// Everything else is excluded because it happens constantly and would
    /// drown any assertion about what the splitter *did*.
    pub fn run_control(&self) -> (events: Vec<&TimerEvent>)
        ensures
            events@.len() == self.events@.filter(|e: TimerEvent| e.controls()).len(),
            forall|i: int|
                0 <= i < events@.len() ==> *#[trigger] events@[i] == self.events@.filter(
                    |e: TimerEvent| e.controls(),
                )[i],
    {
        let mut events: Vec<&TimerEvent> = Vec::new();
        let ghost kind = |e: TimerEvent| e.controls();
        let mut i: usize = 0;
        proof {
            reveal(Seq::filter);
            assert(self.events@.take(0) =~= Seq::<TimerEvent>::empty());
        }
        while i < self.events.len()
            invariant
                i <= self.events@.len(),
                kind == (|e: TimerEvent| e.controls()),
                events@.len() == self.events@.take(i as int).filter(kind).len(),
                forall|k: int|
                    0 <= k < events@.len() ==> *#[trigger] events@[k] == self.events@.take(
                        i as int,
                    ).filter(kind)[k],
            decreases self.events@.len() - i,
        {
            proof {
                reveal(Seq::filter);
                assert(self.events@.take(i + 1).drop_last() =~= self.events@.take(i as int));
                assert(self.events@.take(i + 1).last() == self.events@[i as int]);
            }
            let excluded = matches!(
                &self.events[i],
                TimerEvent::SetVariable { .. } | TimerEvent::SetGameTime { .. }
                    | TimerEvent::PauseGameTime | TimerEvent::ResumeGameTime
            );
            if !excluded {
                events.push(&self.events[i]);
            }
            i = i + 1;
        }
        assert(self.events@.take(i as int) =~= self.events@);
        events
    }

    /// How many times the splitter asked the host to stop its own flow of game
    /// time. Sticky host state, so more than one is a bug.
    pub fn game_time_pauses(&self) -> (pauses: usize)
        ensures
            pauses == tally(self.events@, |e: TimerEvent| e is PauseGameTime),
    {
        let mut pauses: usize = 0;
        let ghost kind = |e: TimerEvent| e is PauseGameTime;
        let mut i: usize = 0;
        proof {
            reveal(Seq::filter);
            assert(self.events@.take(0) =~= Seq::<TimerEvent>::empty());
        }
        while i < self.events.len()
            invariant
                i <= self.events@.len(),
                kind == (|e: TimerEvent| e is PauseGameTime),
                pauses == self.events@.take(i as int).filter(kind).len(),
                pauses <= i,
            decreases self.events@.len() - i,
        {
            proof {
                reveal(Seq::filter);
                assert(self.events@.take(i + 1).drop_last() =~= self.events@.take(i as int));
            }
            if matches!(&self.events[i], TimerEvent::PauseGameTime) {
                pauses = pauses + 1;
            }
            i = i + 1;
        }
        assert(self.events@.take(i as int) =~= self.events@);
        pauses
    }

    /// How many splits were taken, ignoring skips and undos.
    pub fn splits(&self) -> (splits: usize)
        ensures
            splits == tally(self.events@, |e: TimerEvent| e is Split),
    {
        let mut splits: usize = 0;
        let ghost kind = |e: TimerEvent| e is Split;
        let mut i: usize = 0;
        proof {
            reveal(Seq::filter);
            assert(self.events@.take(0) =~= Seq::<TimerEvent>::empty());
        }
        while i < self.events.len()
            invariant
                i <= self.events@.len(),
                kind == (|e: TimerEvent| e is Split),
                splits == self.events@.take(i as int).filter(kind).len(),
                splits <= i,
            decreases self.events@.len() - i,
        {
            proof {
                reveal(Seq::filter);
                assert(self.events@.take(i + 1).drop_last() =~= self.events@.take(i as int));
            }
            if matches!(&self.events[i], TimerEvent::Split) {
                splits = splits + 1;
            }
            i = i + 1;
        }
        assert(self.events@.take(i as int) =~= self.events@);
        splits
    }
}

/// A timer is running only because the last start was not followed by a reset:
/// nothing but those two moves it.
pub proof fn only_starts_and_resets_move_the_timer(state: TimerState, events: Seq<TimerEvent>)
    requires
        forall|i: int|
            0 <= i < events.len() ==> !(#[trigger] events[i] is Start) && !(events[i] is Reset),
    ensures
        after_all(state, events) == state,
    decreases events.len(),
{
    if events.len() > 0 {
        only_starts_and_resets_move_the_timer(state, events.drop_last());
        assert(!(events[events.len() - 1] is Start));
    }
}

} // verus!
