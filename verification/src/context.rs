use vstd::prelude::*;
use crate::chain::Chain;
use crate::deferred::Deferred;
use crate::deferred::Part;

verus! {

/// What an execution currently holds: a plain state, or a nested execution
/// that has to be run before the enclosing one goes on.
pub enum Context<S, P> {
    /// A plain state.
    State(S),
    /// A nested execution.
    Deferred(Box<Deferred<S, P>>),
}

impl<S, P> Context<S, P> {
    /// The model of this context: no frame for a plain state, else the model
    /// of the nested execution.
    pub open spec fn chain(self) -> Chain<S, P>
        decreases self,
    {
        match self {
            Context::State(state) => Chain { state, frames: Seq::empty() },
            Context::Deferred(deferred) => deferred.chain(),
        }
    }
}

impl<S, P> View for Context<S, P> {
    type V = Chain<S, P>;

    open spec fn view(&self) -> Chain<S, P> {
        self.chain()
    }
}

impl<S, P> Context<S, P> {
    /// Whether the context holds a plain state.
    pub fn is_state(&self) -> (plain: bool)
        ensures
            plain == (self is State),
    {
        match self {
            Context::State(_) => true,
            Context::Deferred(_) => false,
        }
    }

    /// Whether the context holds a nested execution.
    pub fn is_deferred(&self) -> (nested: bool)
        ensures
            nested == (self is Deferred),
    {
        match self {
            Context::State(_) => false,
            Context::Deferred(_) => true,
        }
    }

    /// The current state: the plain state, or the state that the nested
    /// execution has reached.
    pub fn get_state(&self) -> (state: Option<&S>)
        ensures
            state == Some(&self@.state),
    {
        match self {
            Context::State(state) => Some(state),
            Context::Deferred(deferred) => deferred.state(),
        }
    }

    /// The nested execution, if the context holds one.
    pub fn get_deferred(&self) -> (deferred: Option<&Deferred<S, P>>)
        ensures
            match deferred {
                Some(inner) => *self == Context::Deferred(Box::new(*inner)),
                None => self is State,
            },
    {
        match self {
            Context::State(_) => None,
            Context::Deferred(deferred) => Some(deferred),
        }
    }

    /// The nested execution out of a context that holds one.
    pub fn deferred(self) -> (deferred: Deferred<S, P>)
        requires
            self is Deferred,
        ensures
            self == Context::Deferred(Box::new(deferred)),
    {
        match self {
            Context::State(_) => vstd::pervasive::unreached(),
            Context::Deferred(deferred) => *deferred,
        }
    }

}

impl<S, P: Part<S>> Context<S, P> {
    /// The state out of the context. A nested execution is first run to its
    /// end, and its final state is what comes out.
    pub fn state(self) -> (state: S)
        requires
            self@.completes(),
        ensures
            state == self@.final_state(),
    {
        match self {
            Context::State(state) => {
                proof {
                    self@.lemma_run(0);
                }
                state
            },
            Context::Deferred(deferred) => deferred.consume(),
        }
    }

    /// The same as `state`.
    pub fn unwrap(self) -> (state: S)
        requires
            self@.completes(),
        ensures
            state == self@.final_state(),
    {
        self.state()
    }
}

impl<S, P> From<Deferred<S, P>> for Context<S, P> {
    /// The context that holds `deferred` as its nested execution.
    fn from(deferred: Deferred<S, P>) -> (context: Self) {
        Context::Deferred(Box::new(deferred))
    }
}

impl<S, P> vstd::std_specs::convert::FromSpecImpl<Deferred<S, P>> for Context<S, P> {
    open spec fn obeys_from_spec() -> bool {
        true
    }

    open spec fn from_spec(deferred: Deferred<S, P>) -> Self {
        Context::Deferred(Box::new(deferred))
    }
}

} // verus!
