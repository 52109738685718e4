//! Running a one-shot system after a delay.
//!
//! The wait is `bevy_time`'s one-shot timer (`Timer` in `TimerMode::Once`),
//! whose whole behaviour is a few lines and is kept here as plain values,
//! times in nanoseconds: a tick adds `delta` to the elapsed time; once the
//! elapsed time reaches the duration the timer is finished, its elapsed
//! time stays at the duration, and later ticks change nothing.

use vstd::prelude::*;

use crate::fragment::event::EndStage;
use bevy_ecs::system::SystemId;

verus! {

/// A system waiting to run once its one-shot timer finishes. `Id` is the
/// handle of the system, `bevy_ecs`'s `SystemId` unless said otherwise.
#[derive(Debug, Clone)]
pub struct AfterSystem<Id = SystemId> {
    id: Id,
    duration: u128,
    elapsed: u128,
    finished: bool,
    paused: bool,
}

/// A waiting system as a mathematical value; times in nanoseconds.
pub struct AfterSystemView<Id> {
    pub id: Id,
    pub duration: nat,
    pub elapsed: nat,
    pub finished: bool,
    pub paused: bool,
}

impl<Id> View for AfterSystem<Id> {
    type V = AfterSystemView<Id>;

    closed spec fn view(&self) -> AfterSystemView<Id> {
        AfterSystemView {
            id: self.id,
            duration: self.duration as nat,
            elapsed: self.elapsed as nat,
            finished: self.finished,
            paused: self.paused,
        }
    }
}

/// A one-shot timer ticked by `delta`: a finished timer stays as it is;
/// otherwise it finishes, with the elapsed time set to the duration, when
/// the elapsed time plus `delta` reaches the duration, and else the elapsed
/// time grows by `delta`. Returns the elapsed time and whether it finished.
pub open spec fn tick_once(duration: nat, elapsed: nat, finished: bool, delta: nat) -> (nat, bool) {
    if finished {
        (elapsed, true)
    } else if elapsed + delta >= duration {
        (duration, true)
    } else {
        ((elapsed + delta) as nat, false)
    }
}

/// A wait after letting `delta` pass: a paused wait stays as it is;
/// otherwise its timer is ticked.
pub open spec fn advanced<Id>(a: AfterSystemView<Id>, delta: nat) -> AfterSystemView<Id> {
    if a.paused {
        a
    } else {
        let t = tick_once(a.duration, a.elapsed, a.finished, delta);
        AfterSystemView { elapsed: t.0, finished: t.1, ..a }
    }
}

/// A wait after letting each of `deltas` pass in turn.
pub open spec fn advanced_by<Id>(a: AfterSystemView<Id>, deltas: Seq<nat>) -> AfterSystemView<Id>
    decreases deltas.len(),
{
    if deltas.len() == 0 {
        a
    } else {
        advanced(advanced_by(a, deltas.drop_last()), deltas.last())
    }
}

/// The sum of `deltas`.
pub open spec fn total(deltas: Seq<nat>) -> nat
    decreases deltas.len(),
{
    if deltas.len() == 0 {
        0
    } else {
        total(deltas.drop_last()) + deltas.last()
    }
}

/// A fresh wait of `delay` for `id`: nothing elapsed, not finished, not
/// paused.
pub open spec fn fresh_wait<Id>(id: Id, delay: nat) -> AfterSystemView<Id> {
    AfterSystemView { id, duration: delay, elapsed: 0, finished: false, paused: false }
}

impl<Id: Copy> AfterSystem<Id> {
    /// A system that is to run once `delay` nanoseconds have elapsed, with
    /// nothing elapsed yet and not paused.
    pub fn new(id: Id, delay: u128) -> (a: AfterSystem<Id>)
        ensures
            a@ == fresh_wait(id, delay as nat),
    {
        AfterSystem { id, duration: delay, elapsed: 0, finished: false, paused: false }
    }

    /// The system that is to run.
    pub fn system(&self) -> (id: Id)
        ensures
            id == self@.id,
    {
        self.id
    }

    /// Stops the wait from advancing until it is unpaused.
    pub fn pause(&mut self)
        ensures
            final(self)@ == (AfterSystemView { paused: true, ..old(self)@ }),
    {
        self.paused = true;
    }

    /// Lets the wait advance again.
    pub fn unpause(&mut self)
        ensures
            final(self)@ == (AfterSystemView { paused: false, ..old(self)@ }),
    {
        self.paused = false;
    }

    /// Lets `delta` nanoseconds pass (see `advanced`) and tells whether the
    /// wait fires: whether it is not paused and its timer has finished, so
    /// that its system is to run and the wait to end.
    pub fn advance(&mut self, delta: u128) -> (fires: bool)
        ensures
            final(self)@ == advanced(old(self)@, delta as nat),
            fires == (!old(self)@.paused && final(self)@.finished),
            old(self)@.paused ==> final(self)@ == old(self)@ && !fires,
            !old(self)@.paused ==> fires == (old(self)@.finished || old(self)@.elapsed + delta
                >= old(self)@.duration),
            !old(self)@.paused && !fires ==> final(self)@.elapsed == old(self)@.elapsed + delta,
            final(self)@.id == old(self)@.id,
            final(self)@.duration == old(self)@.duration,
            final(self)@.paused == old(self)@.paused,
    {
        if self.paused {
            return false;
        }
        if !self.finished {
            let sum = self.elapsed.saturating_add(delta);
            if sum >= self.duration {
                self.elapsed = self.duration;
                self.finished = true;
            } else {
                self.elapsed = sum;
            }
        }
        self.finished
    }
}

/// A wait that is never paused fires once the time let pass adds up to its
/// delay, and not before: after letting any nonempty list of spans pass, its
/// timer has finished exactly when their sum reaches the delay, and its
/// elapsed time is that sum, up to the delay.
pub proof fn law_fires_after_delay<Id>(id: Id, delay: nat, deltas: Seq<nat>)
    ensures
        deltas.len() > 0 ==> (advanced_by(fresh_wait(id, delay), deltas).finished <==> total(deltas)
            >= delay),
        advanced_by(fresh_wait(id, delay), deltas).elapsed == (if total(deltas) >= delay
            && deltas.len() > 0 {
            delay
        } else {
            total(deltas)
        }),
        !advanced_by(fresh_wait(id, delay), deltas).paused,
        advanced_by(fresh_wait(id, delay), deltas).duration == delay,
        advanced_by(fresh_wait(id, delay), deltas).id == id,
    decreases deltas.len(),
{
    if deltas.len() > 0 {
        law_fires_after_delay(id, delay, deltas.drop_last());
    }
}

/// Time that passes while a wait is paused does not touch it: its elapsed
/// time, its timer and all the rest stay as they were.
pub proof fn law_paused_wait_stays<Id>(a: AfterSystemView<Id>, delta: nat)
    requires
        a.paused,
    ensures
        advanced(a, delta) == a,
{
}

/// A wait after a run of frames: in each, the wait is first paused or
/// unpaused (`true` for paused), then the frame's span passes.
pub open spec fn run_frames<Id>(a: AfterSystemView<Id>, frames: Seq<(nat, bool)>) -> AfterSystemView<Id>
    decreases frames.len(),
{
    if frames.len() == 0 {
        a
    } else {
        let before = run_frames(a, frames.drop_last());
        advanced(AfterSystemView { paused: frames.last().1, ..before }, frames.last().0)
    }
}

/// Whether any of `frames` is unpaused.
pub open spec fn any_unpaused(frames: Seq<(nat, bool)>) -> bool
    decreases frames.len(),
{
    frames.len() > 0 && (!frames.last().1 || any_unpaused(frames.drop_last()))
}

/// The sum of the spans of the unpaused `frames`.
pub open spec fn unpaused_total(frames: Seq<(nat, bool)>) -> nat
    decreases frames.len(),
{
    if frames.len() == 0 {
        0
    } else {
        unpaused_total(frames.drop_last()) + if frames.last().1 {
            0nat
        } else {
            frames.last().0
        }
    }
}

/// A wait that is paused and unpaused along the way fires once the time
/// that passed while it was unpaused adds up to its delay, whatever passed
/// while it was paused: after any run of frames its timer has finished
/// exactly when some frame was unpaused and the unpaused spans reach the
/// delay, and its elapsed time is the sum of those spans, up to the delay.
pub proof fn law_fires_after_unpaused_time<Id>(id: Id, delay: nat, frames: Seq<(nat, bool)>)
    ensures
        run_frames(fresh_wait(id, delay), frames).finished == (any_unpaused(frames)
            && unpaused_total(frames) >= delay),
        run_frames(fresh_wait(id, delay), frames).elapsed == (if any_unpaused(frames)
            && unpaused_total(frames) >= delay {
            delay
        } else {
            unpaused_total(frames)
        }),
        run_frames(fresh_wait(id, delay), frames).duration == delay,
        run_frames(fresh_wait(id, delay), frames).id == id,
    decreases frames.len(),
{
    if frames.len() > 0 {
        law_fires_after_unpaused_time(id, delay, frames.drop_last());
    }
}

/// Whether a delayed system is to be scheduled when an ending reaches the
/// delayed fragment: only for an `End`, not for a visit or an interruption.
pub fn schedules_after(stage: EndStage) -> (r: bool)
    ensures
        r == (stage == EndStage::End),
{
    stage == EndStage::End
}

} // verus!
