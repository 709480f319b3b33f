//! The mathematical model of an execution: the state it has reached and the
//! queues of steps that are still to run, one queue per level of nesting.

use vstd::prelude::*;
use crate::deferred::Part;

verus! {

/// What an execution looks like from outside: its current state and, for each
/// level of nesting, the steps that level still has to run. `frames[0]` is the
/// innermost level, the last frame the outermost. A context that holds a plain
/// state has no frame at all; an execution has at least one.
#[verifier::ext_equal]
pub struct Chain<S, P> {
    pub state: S,
    pub frames: Seq<Seq<P>>,
}

/// The index of the first frame that still holds a step, or the number of
/// frames if none does.
pub open spec fn first_busy<P>(frames: Seq<Seq<P>>) -> nat
    decreases frames.len(),
{
    if frames.len() == 0 || frames[0].len() > 0 {
        0
    } else {
        1 + first_busy(frames.skip(1))
    }
}

/// `first_busy` is the one index with only empty frames before it and a
/// non-empty frame, or the end, at it.
pub proof fn lemma_first_busy<P>(frames: Seq<Seq<P>>)
    ensures
        first_busy(frames) <= frames.len(),
        forall|i: int| 0 <= i < first_busy(frames) ==> (#[trigger] frames[i]).len() == 0,
        first_busy(frames) < frames.len() ==> frames[first_busy(frames) as int].len() > 0,
    decreases frames.len(),
{
    if frames.len() == 0 || frames[0].len() > 0 {
    } else {
        let tail = frames.skip(1);
        lemma_first_busy(tail);
        assert forall|i: int| 0 <= i < first_busy(frames) implies (#[trigger] frames[i]).len()
            == 0 by {
            if i > 0 {
                assert(frames[i] == tail[i - 1]);
            }
        }
        if first_busy(frames) < frames.len() {
            assert(frames[first_busy(frames) as int] == tail[first_busy(tail) as int]);
        }
    }
}

/// Any index with only empty frames before it and a non-empty frame, or the
/// end, at it is `first_busy`.
pub proof fn lemma_first_busy_is<P>(frames: Seq<Seq<P>>, j: int)
    requires
        0 <= j <= frames.len(),
        forall|i: int| 0 <= i < j ==> (#[trigger] frames[i]).len() == 0,
        j < frames.len() ==> frames[j].len() > 0,
    ensures
        first_busy(frames) == j,
{
    lemma_first_busy(frames);
    let k = first_busy(frames) as int;
    if k < j {
        assert(frames[k].len() == 0);
    } else if j < k {
        assert(frames[j].len() == 0);
    }
}

/// The run of `queue` from `state`, at most `fuel` steps long: the first step
/// runs on the state, and the steps of the nested execution that it gives, if
/// any, take its place at the front of the queue. The state reached when the
/// queue is empty.
pub open spec fn settle_in<S, P: Part<S>>(state: S, queue: Seq<P>, fuel: nat) -> Option<S>
    decreases fuel,
{
    if queue.len() == 0 {
        Some(state)
    } else if fuel == 0 {
        None
    } else {
        let made = queue[0].outcome(state);
        settle_in(made.state, made.pending() + queue.skip(1), (fuel - 1) as nat)
    }
}

impl<S, P> Chain<S, P> {
    /// No frame holds a step: nothing is left to run.
    pub open spec fn exhausted(self) -> bool {
        forall|i: int| 0 <= i < self.frames.len() ==> (#[trigger] self.frames[i]).len() == 0
    }

    /// All the steps still to run, in the order in which they will run.
    pub open spec fn pending(self) -> Seq<P> {
        self.frames.flatten()
    }

    /// The chain with all its pending steps in one queue, as if no step had
    /// ever been nested.
    pub open spec fn inlined(self) -> Self {
        Chain { state: self.state, frames: seq![self.pending()] }
    }

    /// The chain with `above` as further, outer frames.
    pub open spec fn under(self, above: Seq<Seq<P>>) -> Self {
        Chain { state: self.state, frames: self.frames + above }
    }

    /// What is left of an execution that has run all its steps: its state
    /// and one empty queue.
    pub open spec fn spent(self) -> Self {
        Chain { state: self.state, frames: seq![Seq::empty()] }
    }

    /// The level that holds the next step to run: the innermost frame that
    /// is not empty.
    pub open spec fn next_level(self) -> int {
        first_busy(self.frames) as int
    }

    /// The queue that holds the next step to run, that step first.
    pub open spec fn next_queue(self) -> Seq<P> {
        self.frames[self.next_level()]
    }

    /// The frames above the one that holds the next step.
    pub open spec fn next_above(self) -> Seq<Seq<P>> {
        self.frames.skip(self.next_level() + 1)
    }
}

impl<S, P: Part<S>> Chain<S, P> {
    /// What the next step to run makes of the current state.
    pub open spec fn next_outcome(self) -> Self {
        self.next_queue()[0].outcome(self.state)
    }

    /// The chain once the next step has run: the state that the step made,
    /// the frames of the nested execution that it gave, if any, then the rest
    /// of the step's own queue and the frames above. The empty frames below
    /// the step are gone.
    pub open spec fn stepped(self) -> Self {
        Chain {
            state: self.next_outcome().state,
            frames: self.next_outcome().frames + (seq![self.next_queue().skip(1)]
                + self.next_above()),
        }
    }

    /// One tick, with a bound on how many nested executions it may enter:
    /// the chain after the tick, and whether the tick advanced it.
    ///
    /// `None`: the bound was too small. Otherwise the tick runs steps, each
    /// time the next one, until one of them gives a plain state; then it has
    /// advanced the chain. A step that gives a nested execution is not the
    /// end of the tick, nor is a nested execution that runs out of steps:
    /// the tick goes on with the next step, wherever it stands. Only where no
    /// step is left at all has the tick not advanced the chain, which is
    /// then spent.
    pub open spec fn tick_in(self, fuel: nat) -> Option<(Self, bool)>
        decreases fuel,
    {
        if self.next_level() >= self.frames.len() {
            Some((self.spent(), false))
        } else if self.next_outcome().frames.len() == 0 {
            Some((self.stepped(), true))
        } else if fuel == 0 {
            None
        } else {
            self.stepped().tick_in((fuel - 1) as nat)
        }
    }

    /// A tick from this chain comes to an end.
    pub open spec fn tick_ends(self) -> bool {
        exists|fuel: nat| self.tick_in(fuel) is Some
    }

    /// The chain after one tick, whether or not the tick advanced it.
    pub open spec fn after_tick(self) -> Self {
        self.tick_in(choose|fuel: nat| self.tick_in(fuel) is Some).unwrap().0
    }

    /// Whether one tick advances the chain: whether one of the steps that it
    /// runs gives a plain state.
    pub open spec fn advances(self) -> bool {
        self.tick_in(choose|fuel: nat| self.tick_in(fuel) is Some).unwrap().1
    }

    /// The chain after one tick that advanced it, or `None` where the tick
    /// found no step that gives a plain state.
    pub open spec fn tick(self) -> Option<Self> {
        if self.advances() {
            Some(self.after_tick())
        } else {
            None
        }
    }

    /// The run of the chain to its end within `fuel` steps: the run of its
    /// pending steps from its state.
    pub open spec fn run_in(self, fuel: nat) -> Option<S> {
        settle_in(self.state, self.pending(), fuel)
    }

    /// The run of this chain comes to an end: after finitely many steps
    /// nothing is left to run.
    pub open spec fn completes(self) -> bool {
        exists|fuel: nat| self.run_in(fuel) is Some
    }

    /// The state that the chain reaches when it is run to its end.
    pub open spec fn final_state(self) -> S {
        self.run_in(choose|fuel: nat| self.run_in(fuel) is Some).unwrap()
    }

    /// How many steps a tick runs.
    pub open spec fn tick_steps(self, fuel: nat) -> nat
        decreases fuel,
    {
        if self.next_level() >= self.frames.len() {
            0
        } else if self.next_outcome().frames.len() == 0 || fuel == 0 {
            1
        } else {
            1 + self.stepped().tick_steps((fuel - 1) as nat)
        }
    }
}

/// More fuel does not change a run that came to an end.
pub proof fn lemma_settle_in_more<S, P: Part<S>>(state: S, queue: Seq<P>, less: nat, more: nat)
    requires
        less <= more,
        settle_in(state, queue, less) is Some,
    ensures
        settle_in(state, queue, more) == settle_in(state, queue, less),
    decreases less,
{
    if queue.len() > 0 {
        let made = queue[0].outcome(state);
        lemma_settle_in_more(
            made.state,
            made.pending() + queue.skip(1),
            (less - 1) as nat,
            (more - 1) as nat,
        );
    }
}

impl<S, P> Chain<S, P> {
    /// A chain is exhausted exactly when no frame is busy.
    pub proof fn lemma_exhausted(self)
        ensures
            self.exhausted() <==> self.next_level() >= self.frames.len(),
            !self.exhausted() ==> self.next_queue().len() > 0,
    {
        lemma_first_busy(self.frames);
    }

    /// A chain has nothing left to run exactly when it has no pending step.
    pub proof fn lemma_exhausted_pending(self)
        ensures
            self.exhausted() <==> self.pending().len() == 0,
        decreases self.frames.len(),
    {
        let frames = self.frames;
        if frames.len() > 0 {
            let tail = Chain { state: self.state, frames: frames.drop_first() };
            tail.lemma_exhausted_pending();
            if self.exhausted() {
                assert(frames[0].len() == 0);
                assert forall|i: int| 0 <= i < tail.frames.len() implies (
                #[trigger] tail.frames[i]).len() == 0 by {
                    assert(tail.frames[i] == frames[i + 1]);
                }
            }
            if self.pending().len() == 0 {
                assert forall|i: int| 0 <= i < frames.len() implies (#[trigger] frames[i]).len()
                    == 0 by {
                    if i > 0 {
                        assert(frames[i] == tail.frames[i - 1]);
                    }
                }
            }
        }
    }

    /// The pending steps of a chain that has a step to run: the queue of that
    /// step, then what the frames above hold.
    pub proof fn lemma_pending_split(self)
        requires
            !self.exhausted(),
        ensures
            self.pending() == self.next_queue() + self.next_above().flatten(),
        decreases self.frames.len(),
    {
        let frames = self.frames;
        self.lemma_exhausted();
        lemma_first_busy(frames);
        if frames[0].len() > 0 {
            assert(frames.skip(1) =~= frames.drop_first());
        } else {
            let tail = Chain { state: self.state, frames: frames.skip(1) };
            tail.lemma_exhausted();
            tail.lemma_pending_split();
            assert(frames.skip(1) =~= frames.drop_first());
            assert(tail.next_above() =~= self.next_above());
            assert(frames[0] + tail.pending() =~= tail.pending());
        }
    }

}

impl<S, P: Part<S>> Chain<S, P> {
    /// One step of the chain is one step of the run of its pending steps.
    pub proof fn lemma_stepped_pending(self)
        requires
            !self.exhausted(),
        ensures
            self.pending().len() > 0,
            self.pending()[0] == self.next_queue()[0],
            self.stepped().pending() == self.next_outcome().pending() + self.pending().skip(1),
    {
        self.lemma_exhausted();
        self.lemma_pending_split();
        let rest = self.next_queue().skip(1);
        let above = self.next_above();
        vstd::seq_lib::lemma_flatten_concat(self.next_outcome().frames, seq![rest] + above);
        vstd::seq_lib::lemma_flatten_concat(seq![rest], above);
        seq![rest].lemma_flatten_one_element();
        assert(self.pending().skip(1) =~= rest + above.flatten());
    }

    /// More fuel does not change a tick that came to an end.
    pub proof fn lemma_tick_in_more(self, less: nat, more: nat)
        requires
            less <= more,
            self.tick_in(less) is Some,
        ensures
            self.tick_in(more) == self.tick_in(less),
            self.tick_steps(more) == self.tick_steps(less),
        decreases less,
    {
        if self.next_level() < self.frames.len() && self.next_outcome().frames.len() > 0 {
            self.stepped().lemma_tick_in_more((less - 1) as nat, (more - 1) as nat);
        }
    }

    /// A tick that came to an end within some bound is the tick.
    pub proof fn lemma_tick(self, fuel: nat)
        requires
            self.tick_in(fuel) is Some,
        ensures
            self.tick_ends(),
            self.after_tick() == self.tick_in(fuel).unwrap().0,
            self.advances() == self.tick_in(fuel).unwrap().1,
    {
        let chosen = choose|fuel: nat| self.tick_in(fuel) is Some;
        if chosen <= fuel {
            self.lemma_tick_in_more(chosen, fuel);
        } else {
            self.lemma_tick_in_more(fuel, chosen);
        }
    }

    /// A tick that did not advance the chain leaves it spent; one that did
    /// leaves it at least one frame.
    pub proof fn lemma_tick_leaves(self, fuel: nat)
        requires
            self.tick_in(fuel) is Some,
        ensures
            !self.tick_in(fuel).unwrap().1 ==> self.tick_in(fuel).unwrap().0.frames
                == seq![Seq::<P>::empty()],
            self.tick_in(fuel).unwrap().0.frames.len() >= 1,
        decreases fuel,
    {
        if self.next_level() < self.frames.len() && self.next_outcome().frames.len() > 0 {
            self.stepped().lemma_tick_leaves((fuel - 1) as nat);
        }
    }

    /// Exhausted frames below cost nothing: a tick goes through them as if
    /// they were not there.
    pub proof fn lemma_tick_over_exhausted(self, above: Seq<Seq<P>>, fuel: nat)
        requires
            self.exhausted(),
        ensures
            self.under(above).tick_in(fuel) == (Chain { state: self.state, frames: above }).tick_in(
                fuel,
            ),
            self.under(above).tick_steps(fuel) == (Chain {
                state: self.state,
                frames: above,
            }).tick_steps(fuel),
    {
        let whole = self.under(above);
        let bare = Chain { state: self.state, frames: above };
        let j = first_busy(above) as int;
        let n = self.frames.len() as int;
        lemma_first_busy(above);
        assert forall|i: int| 0 <= i < n + j implies (#[trigger] whole.frames[i]).len() == 0 by {
            if i < n {
                assert(whole.frames[i] == self.frames[i]);
            } else {
                assert(whole.frames[i] == above[i - n]);
            }
        }
        if j < above.len() {
            assert(whole.frames[n + j] == above[j]);
        }
        lemma_first_busy_is(whole.frames, n + j);
        if j < above.len() {
            assert(whole.frames.skip(n + j + 1) =~= above.skip(j + 1));
        }
    }

    /// A tick of a chain under further frames starts as the tick of the
    /// chain itself. Where that advances the chain, the frames above come
    /// back unchanged; where it leaves the chain spent, the tick goes on with
    /// the frames above at the state reached.
    pub proof fn lemma_tick_under(self, above: Seq<Seq<P>>, fuel: nat)
        requires
            !self.exhausted(),
            self.under(above).tick_in(fuel) is Some,
        ensures
            self.tick_in(fuel) is Some,
            self.tick_in(fuel).unwrap().1 ==> self.under(above).tick_in(fuel) == Some(
                (self.tick_in(fuel).unwrap().0.under(above), true),
            ),
            !self.tick_in(fuel).unwrap().1 ==> self.under(above).tick_in(fuel) == (Chain {
                state: self.tick_in(fuel).unwrap().0.state,
                frames: above,
            }).tick_in(fuel),
        decreases fuel,
    {
        let whole = self.under(above);
        let j = self.next_level();
        self.lemma_exhausted();
        lemma_first_busy(self.frames);
        lemma_first_busy_is(whole.frames, j);
        assert(whole.frames[j] == self.frames[j]);
        let rest = self.next_queue().skip(1);
        assert(whole.next_above() =~= self.next_above() + above);
        assert(whole.stepped() =~= self.stepped().under(above)) by {
            assert(self.next_outcome().frames + (seq![rest] + (self.next_above() + above)) =~= (
            self.next_outcome().frames + (seq![rest] + self.next_above())) + above);
        }
        if self.next_outcome().frames.len() > 0 {
            let inner = self.stepped();
            let left = (fuel - 1) as nat;
            if inner.exhausted() {
                inner.lemma_exhausted();
                inner.lemma_tick_over_exhausted(above, left);
                let bare = Chain { state: inner.state, frames: above };
                bare.lemma_tick_in_more(left, fuel);
            } else {
                inner.lemma_tick_under(above, left);
                if !inner.tick_in(left).unwrap().1 {
                    let bare = Chain { state: inner.tick_in(left).unwrap().0.state, frames: above };
                    bare.lemma_tick_in_more(left, fuel);
                }
            }
        }
    }

    /// A tick is so many steps of the run of the pending steps.
    pub proof fn lemma_tick_run(self, fuel: nat, left: nat)
        requires
            self.tick_in(fuel) is Some,
        ensures
            !self.exhausted() ==> self.tick_steps(fuel) >= 1,
            settle_in(self.state, self.pending(), left + self.tick_steps(fuel)) == settle_in(
                self.tick_in(fuel).unwrap().0.state,
                self.tick_in(fuel).unwrap().0.pending(),
                left,
            ),
        decreases fuel,
    {
        self.lemma_exhausted();
        self.lemma_exhausted_pending();
        if self.exhausted() {
            self.spent().lemma_exhausted_pending();
            assert(self.spent().frames[0].len() == 0);
            assert(self.pending() =~= self.spent().pending());
        } else {
            self.lemma_stepped_pending();
            if self.next_outcome().frames.len() > 0 {
                self.stepped().lemma_tick_run((fuel - 1) as nat, left);
            }
        }
    }

    /// A run that comes to an end within some bound lets every tick on the
    /// way come to an end within that bound.
    pub proof fn lemma_run_ticks(self, fuel: nat)
        requires
            self.run_in(fuel) is Some,
        ensures
            self.tick_in(fuel) is Some,
        decreases fuel,
    {
        self.lemma_exhausted();
        self.lemma_exhausted_pending();
        if !self.exhausted() {
            self.lemma_stepped_pending();
            if self.next_outcome().frames.len() > 0 {
                self.stepped().lemma_run_ticks((fuel - 1) as nat);
            }
        }
    }

    /// A run that came to an end within some bound gives the final state.
    pub proof fn lemma_run(self, fuel: nat)
        requires
            self.run_in(fuel) is Some,
        ensures
            self.completes(),
            self.final_state() == self.run_in(fuel).unwrap(),
    {
        let chosen = choose|fuel: nat| self.run_in(fuel) is Some;
        if chosen <= fuel {
            lemma_settle_in_more(self.state, self.pending(), chosen, fuel);
        } else {
            lemma_settle_in_more(self.state, self.pending(), fuel, chosen);
        }
    }
}

} // verus!
