use vstd::prelude::*;
use std::collections::VecDeque;
use crate::chain::Chain;
use crate::context::Context;

verus! {

/// One step of an execution: a pure function from the state that the
/// execution has reached to the context that it holds next.
///
/// A step is run at most once. What it gives depends on nothing but the step
/// and the state: `outcome` names it, and `apply` computes it.
pub trait Part<S>: Sized {
    /// What this step makes of `state`: a chain without frames for a plain
    /// state, a chain with frames for a nested execution.
    spec fn outcome(&self, state: S) -> Chain<S, Self>;

    /// Runs the step. The engine only ever hands it a context that holds a
    /// plain state.
    fn apply(self, input: Context<S, Self>) -> (output: Context<S, Self>)
        requires
            input is State,
        ensures
            output@ == self.outcome(input@.state),
    ;
}

/// An execution: the steps still to run, in order, and the context reached.
pub struct Deferred<S, P> {
    parts: VecDeque<P>,
    context: Context<S, P>,
}

impl<S, P> Deferred<S, P> {
    /// The model of this execution: the frames of its context, then its own
    /// queue as the outermost frame.
    pub closed spec fn chain(self) -> Chain<S, P>
        decreases self,
    {
        let inner = self.context.chain();
        Chain { state: inner.state, frames: inner.frames.push(self.parts@) }
    }

    /// An execution has at least one frame: its own queue.
    pub proof fn lemma_has_frame(self)
        ensures
            self.chain().frames.len() >= 1,
    {
    }

    /// Starts an execution at `state` with `parts` as its steps, first to last.
    pub fn new(state: S, parts: Vec<P>) -> (deferred: Self)
        ensures
            deferred@ == (Chain { state, frames: seq![parts@] }),
    {
        let mut parts = parts;
        let ghost all = parts@;
        let mut queue: VecDeque<P> = VecDeque::new();
        while parts.len() > 0
            invariant
                parts@ + queue@ == all,
            decreases parts.len(),
        {
            let ghost front = parts@;
            let ghost back = queue@;
            let last = parts.pop().unwrap();
            queue.push_front(last);
            assert(parts@ + queue@ =~= front + back);
        }
        assert(queue@ =~= all);
        Deferred { parts: queue, context: Context::State(state) }
    }

    /// Whether a step is left to run, in this execution or in one nested in it.
    pub fn can_resume(&self) -> (more: bool)
        ensures
            more == !self@.exhausted(),
        decreases self,
    {
        let own = self.parts.len() > 0;
        let more = match &self.context {
            Context::State(_) => own,
            Context::Deferred(inner) => inner.can_resume() || own,
        };
        proof {
            let below = self.context@.frames;
            if more {
                if own {
                    assert(self@.frames[below.len() as int].len() > 0);
                } else {
                    let i = choose|i: int| 0 <= i < below.len() && (#[trigger] below[i]).len() > 0;
                    assert(self@.frames[i] == below[i]);
                }
            } else {
                assert forall|i: int| 0 <= i < self@.frames.len() implies (
                #[trigger] self@.frames[i]).len() == 0 by {
                    if i < below.len() {
                        assert(self@.frames[i] == below[i]);
                    }
                }
            }
        }
        more
    }

    /// The state that the execution has reached, read through any nesting.
    pub fn state(&self) -> (state: Option<&S>)
        ensures
            state == Some(&self@.state),
        decreases self,
    {
        match &self.context {
            Context::State(state) => Some(state),
            Context::Deferred(inner) => inner.state(),
        }
    }

    /// The state of an execution, taken out of it without running anything.
    fn into_current(self) -> (state: S)
        ensures
            state == self@.state,
        decreases self,
    {
        match self.context {
            Context::State(state) => state,
            Context::Deferred(inner) => inner.into_current(),
        }
    }
}

impl<S, P> View for Deferred<S, P> {
    type V = Chain<S, P>;

    open spec fn view(&self) -> Chain<S, P> {
        self.chain()
    }
}

impl<S, P: Part<S>> Deferred<S, P> {
    /// One tick within `fuel` nested executions: the execution after the
    /// tick, and whether a step gave a plain state.
    fn advance(self, Ghost(fuel): Ghost<nat>) -> (next: (Self, bool))
        requires
            self@.tick_in(fuel) is Some,
        ensures
            self@.tick_in(fuel) == Some((next.0@, next.1)),
        decreases fuel, self@.frames.len(),
    {
        let ghost before = self@;
        let Deferred { mut parts, context } = self;
        let ghost queue = parts@;
        match context {
            Context::State(state) => {
                proof {
                    if queue.len() > 0 {
                        crate::chain::lemma_first_busy_is(before.frames, 0);
                    } else {
                        crate::chain::lemma_first_busy_is(before.frames, 1);
                    }
                }
                match parts.pop_front() {
                    Some(part) => {
                        let made = part.apply(Context::State(state));
                        assert(parts@ =~= queue.skip(1));
                        assert(before.next_above() =~= Seq::<Seq<P>>::empty());
                        let next = Deferred { parts, context: made };
                        assert(next@ =~= before.stepped());
                        match next.context {
                            Context::State(_) => (next, true),
                            Context::Deferred(_) => {
                                proof {
                                    let inner = made->Deferred_0;
                                    inner.lemma_has_frame();
                                }
                                next.advance(Ghost((fuel - 1) as nat))
                            },
                        }
                    },
                    None => {
                        let spent = Deferred { parts, context: Context::State(state) };
                        assert(parts@ =~= Seq::<P>::empty());
                        assert(spent@ =~= before.spent());
                        (spent, false)
                    },
                }
            },
            Context::Deferred(inner) => {
                let ghost above = seq![queue];
                assert(before =~= inner@.under(above));
                if inner.can_resume() {
                    proof {
                        inner@.lemma_tick_under(above, fuel);
                        inner@.lemma_tick_leaves(fuel);
                    }
                    let (inner, advanced) = inner.advance(Ghost(fuel));
                    if advanced {
                        let next = Deferred { parts, context: Context::Deferred(Box::new(inner)) };
                        assert(next@ =~= inner@.under(above));
                        (next, true)
                    } else {
                        let state = inner.into_current();
                        let flat = Deferred { parts, context: Context::State(state) };
                        assert(flat@ =~= (Chain { state, frames: above }));
                        flat.advance(Ghost(fuel))
                    }
                } else {
                    proof {
                        inner.lemma_has_frame();
                        inner@.lemma_tick_over_exhausted(above, fuel);
                    }
                    let state = inner.into_current();
                    let flat = Deferred { parts, context: Context::State(state) };
                    assert(flat@ =~= (Chain { state, frames: above }));
                    flat.advance(Ghost(fuel))
                }
            },
        }
    }

    /// One tick: runs steps until one of them gives a plain state, and hands
    /// back the execution as it then stands.
    ///
    /// Entering a nested execution and leaving one that has nothing left to
    /// run are not ticks of their own: the call goes on to the next step,
    /// wherever it stands. `None` says that there was nothing to do: no step
    /// was left, or none of the steps that were left gave a plain state, and
    /// nothing is left to run after them. The tick must come to an end, which
    /// it does unless step after step hands back a nested execution without
    /// end.
    pub fn resume(self) -> (next: Option<Self>)
        requires
            self@.tick_ends(),
        ensures
            match next {
                Some(deferred) => self@.tick() == Some(deferred@),
                None => self@.tick() is None,
            },
    {
        let ghost fuel = choose|fuel: nat| self@.tick_in(fuel) is Some;
        proof {
            self@.lemma_tick(fuel);
        }
        let (next, advanced) = self.advance(Ghost(fuel));
        if advanced {
            Some(next)
        } else {
            None
        }
    }

    /// Runs the execution to its end, tick by tick, and hands back the state
    /// that it has then reached.
    ///
    /// The run must come to an end, which it does unless the steps keep
    /// handing back nested executions with further steps without end.
    pub fn consume(self) -> (state: S)
        requires
            self@.completes(),
        ensures
            state == self@.final_state(),
    {
        let ghost mut fuel = choose|fuel: nat| self@.run_in(fuel) is Some;
        proof {
            self@.lemma_run(fuel);
        }
        let mut current = self;
        while current.can_resume()
            invariant
                current@.run_in(fuel) == Some(self@.final_state()),
            decreases fuel,
        {
            let ghost before = current@;
            proof {
                before.lemma_run_ticks(fuel);
            }
            let (next, _) = current.advance(Ghost(fuel));
            current = next;
            proof {
                let steps = before.tick_steps(fuel);
                let left = if steps <= fuel {
                    (fuel - steps) as nat
                } else {
                    0
                };
                before.lemma_tick_run(fuel, left);
                before.lemma_exhausted_pending();
                if steps > fuel {
                    crate::chain::lemma_settle_in_more(
                        before.state,
                        before.pending(),
                        fuel,
                        left + steps,
                    );
                }
                fuel = left;
            }
        }
        proof {
            current@.lemma_exhausted_pending();
        }
        current.into_current()
    }

    /// The same as `consume`.
    pub fn unwrap(self) -> (state: S)
        requires
            self@.completes(),
        ensures
            state == self@.final_state(),
    {
        self.consume()
    }
}

} // verus!
