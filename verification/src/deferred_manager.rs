use vstd::prelude::*;
use std::collections::HashMap;
use crate::chain::Chain;
use crate::deferred::Deferred;
use crate::deferred::Part;

verus! {

/// The identifier that a manager gives an execution.
pub type Id = usize;

/// A pool of executions, each under an identifier of its own, that a caller
/// advances one by one or all together.
pub struct DeferredManager<S, P> {
    registry: HashMap<Id, Deferred<S, P>>,
    id_generator: Id,
}

impl<S, P> View for DeferredManager<S, P> {
    type V = Map<Id, Chain<S, P>>;

    /// The registered executions, each by its model.
    closed spec fn view(&self) -> Map<Id, Chain<S, P>> {
        Map::new(|id: Id| self.registry@.contains_key(id), |id: Id| self.registry@[id]@)
    }
}

/// What one tick makes of an entry: the chain after the tick, as long as that
/// has a step left to run; no entry once nothing is left to run.
pub open spec fn ticked<S, P: Part<S>>(chain: Chain<S, P>) -> Option<Chain<S, P>> {
    if chain.after_tick().exhausted() {
        None
    } else {
        Some(chain.after_tick())
    }
}

/// The registry after a tick of the entry under `id`.
pub open spec fn ticked_at<S, P: Part<S>>(entries: Map<Id, Chain<S, P>>, id: Id) -> Map<
    Id,
    Chain<S, P>,
> {
    if !entries.contains_key(id) {
        entries
    } else {
        match ticked(entries[id]) {
            Some(next) => entries.insert(id, next),
            None => entries.remove(id),
        }
    }
}

/// The registry after a tick of every entry.
pub open spec fn ticked_all<S, P: Part<S>>(entries: Map<Id, Chain<S, P>>) -> Map<Id, Chain<S, P>> {
    Map::new(
        |id: Id| entries.contains_key(id) && ticked(entries[id]) is Some,
        |id: Id| ticked(entries[id]).unwrap(),
    )
}

impl<S, P: Part<S>> DeferredManager<S, P> {
    /// The identifier that the next registered execution gets.
    pub closed spec fn next_id(&self) -> nat {
        self.id_generator as nat
    }

    /// Every identifier in use is one that was already given out.
    pub closed spec fn wf(&self) -> bool {
        forall|id: Id| self.registry@.contains_key(id) ==> id < self.id_generator
    }

    /// Identifiers are given out in rising order and never again: whatever is
    /// registered in a well-formed manager has an identifier below the next
    /// one.
    pub proof fn law_identifiers_are_fresh(&self)
        requires
            self.wf(),
        ensures
            forall|id: Id| self@.contains_key(id) ==> id < self.next_id(),
    {
    }

    /// A manager with no execution in it.
    pub fn new() -> (manager: Self)
        ensures
            manager@ == Map::<Id, Chain<S, P>>::empty(),
            manager.next_id() == 0,
            manager.wf(),
    {
        let manager = DeferredManager { registry: HashMap::new(), id_generator: 0 };
        assert(manager@ =~= Map::<Id, Chain<S, P>>::empty());
        manager
    }

    /// A manager holds finitely many executions.
    pub proof fn lemma_finite(&self)
        ensures
            self@.dom().finite(),
    {
        broadcast use vstd::std_specs::hash::group_hash_axioms;

        assert(self@.dom() =~= self.registry@.dom());
    }

    /// How many executions are registered.
    pub fn count(&self) -> (count: usize)
        ensures
            self@.dom().finite(),
            count == self@.len(),
    {
        broadcast use vstd::std_specs::hash::group_hash_axioms;

        assert(self@.dom() =~= self.registry@.dom());
        self.registry.len()
    }

    /// Registers an execution and hands back its identifier, which no
    /// execution had before.
    pub fn run(&mut self, deferred: Deferred<S, P>) -> (id: Id)
        requires
            old(self).wf(),
            old(self).next_id() < usize::MAX,
        ensures
            id == old(self).next_id(),
            !old(self)@.contains_key(id),
            final(self)@ == old(self)@.insert(id, deferred@),
            final(self).next_id() == old(self).next_id() + 1,
            final(self).wf(),
    {
        broadcast use vstd::std_specs::hash::group_hash_axioms;

        let id = self.id_generator;
        self.id_generator += 1;
        self.registry.insert(id, deferred);
        assert(self@ =~= old(self)@.insert(id, deferred@));
        id
    }

    /// Takes the execution under `id` out without running any of its steps.
    /// Says whether there was one.
    pub fn cancel(&mut self, id: Id) -> (found: bool)
        ensures
            found == old(self)@.contains_key(id),
            final(self)@ == old(self)@.remove(id),
            final(self).next_id() == old(self).next_id(),
            old(self).wf() ==> final(self).wf(),
    {
        broadcast use vstd::std_specs::hash::group_hash_axioms;

        let found = self.registry.remove(&id).is_some();
        assert(self@ =~= old(self)@.remove(id));
        found
    }

    /// Whether an execution is registered under `id`.
    pub fn has(&self, id: Id) -> (found: bool)
        ensures
            found == self@.contains_key(id),
    {
        broadcast use vstd::std_specs::hash::group_hash_axioms;

        self.registry.contains_key(&id)
    }

    /// One tick of the execution under `id`. It stays registered while it has
    /// a step left to run; its final state is not handed out. Says whether
    /// there was an execution under `id`.
    pub fn resume(&mut self, id: Id) -> (found: bool)
        requires
            old(self)@.contains_key(id) ==> old(self)@[id].tick_ends(),
        ensures
            found == old(self)@.contains_key(id),
            final(self)@ == ticked_at(old(self)@, id),
            final(self).next_id() == old(self).next_id(),
            old(self).wf() ==> final(self).wf(),
    {
        broadcast use vstd::std_specs::hash::group_hash_axioms;

        match self.registry.remove(&id) {
            Some(deferred) => {
                proof {
                    let fuel = choose|fuel: nat| deferred@.tick_in(fuel) is Some;
                    deferred@.lemma_tick(fuel);
                    deferred@.lemma_tick_leaves(fuel);
                    if !deferred@.advances() {
                        assert(deferred@.after_tick().frames[0].len() == 0);
                        assert(deferred@.after_tick().exhausted());
                    }
                }
                match deferred.resume() {
                    Some(next) => {
                        if next.can_resume() {
                            self.registry.insert(id, next);
                            assert(self@ =~= old(self)@.insert(id, next@));
                        } else {
                            assert(self@ =~= old(self)@.remove(id));
                        }
                    },
                    None => {
                        assert(self@ =~= old(self)@.remove(id));
                    },
                }
                true
            },
            None => {
                assert(self@ =~= old(self)@);
                false
            },
        }
    }

    /// The identifiers in use, each once, in the order in which the map
    /// walks them.
    fn ids(&self) -> (ids: Vec<Id>)
        ensures
            ids@.no_duplicates(),
            forall|id: Id| ids@.contains(id) <==> self@.contains_key(id),
    {
        broadcast use vstd::std_specs::hash::group_hash_axioms;

        let ghost keys = vstd::std_specs::iter::IteratorSpec::remaining(
            &vstd::std_specs::hash::spec_keys_iter(&self.registry),
        ).unref();
        let mut ids: Vec<Id> = Vec::new();
        for id in it: self.registry.keys()
            invariant
                it.seq().unref() == keys,
                ids@ == keys.take(it.index()),
        {
            ids.push(*id);
        }
        proof {
            assert(ids@ =~= keys);
            assert forall|id: Id| ids@.contains(id) <==> self@.contains_key(id) by {
                assert(keys.to_set().contains(id) <==> keys.contains(id));
            }
        }
        ids
    }

    /// One tick of every registered execution. Each stays registered while
    /// it has a step left to run.
    pub fn resume_all(&mut self)
        requires
            forall|id: Id| old(self)@.contains_key(id) ==> (#[trigger] old(self)@[id]).tick_ends(),
        ensures
            final(self)@ == ticked_all(old(self)@),
            final(self).next_id() == old(self).next_id(),
            old(self).wf() ==> final(self).wf(),
    {
        broadcast use vstd::std_specs::hash::group_hash_axioms;

        let ids = self.ids();
        let ghost before = self@;
        assert forall|i: int| 0 <= i < ids@.len() implies before.contains_key(
            #[trigger] ids@[i],
        ) by {
            assert(ids@.contains(ids@[i]));
        }
        let mut done: usize = 0;
        while done < ids.len()
            invariant
                done <= ids.len(),
                ids@.no_duplicates(),
                forall|id: Id| ids@.contains(id) <==> before.contains_key(id),
                forall|id: Id| before.contains_key(id) ==> (#[trigger] before[id]).tick_ends(),
                forall|id: Id| self@.contains_key(id) ==> before.contains_key(id),
                forall|i: int|
                    0 <= i < done ==> self@.contains_key(#[trigger] ids@[i]) == (ticked(
                        before[ids@[i]],
                    ) is Some),
                forall|i: int|
                    0 <= i < done && self@.contains_key(#[trigger] ids@[i]) ==> self@[ids@[i]]
                        == ticked(before[ids@[i]]).unwrap(),
                forall|i: int|
                    done <= i < ids.len() ==> self@.contains_key(#[trigger] ids@[i])
                        && self@[ids@[i]] == before[ids@[i]],
                self.next_id() == old(self).next_id(),
                old(self).wf() ==> self.wf(),
            decreases ids.len() - done,
        {
            let id = ids[done];
            let ghost entries = self@;
            assert(ids@.contains(id));
            assert(entries.contains_key(ids@[done as int]));
            let found = self.resume(id);
            assert(self@ == ticked_at(entries, id));
            assert forall|i: int| 0 <= i < ids.len() && i != done implies (self@.contains_key(
                #[trigger] ids@[i],
            ) == entries.contains_key(ids@[i]) && self@[ids@[i]] == entries[ids@[i]]) by {
                assert(ids@[i] != id);
            }
            done += 1;
        }
        proof {
            let after = ticked_all(before);
            assert forall|id: Id|
                #![trigger self@.dom().contains(id)]
                #![trigger after.dom().contains(id)]
                self@.dom().contains(id) == after.dom().contains(id) && (self@.dom().contains(id)
                    ==> self@[id] == after[id]) by {
                if before.contains_key(id) {
                    assert(ids@.contains(id));
                    let i = choose|i: int| 0 <= i < ids@.len() && ids@[i] == id;
                    assert(ids@[i] == id);
                }
            }
            assert(self@.dom() =~= after.dom());
            assert(self@ =~= after);
        }
    }

    /// Takes every execution out, runs each to its end and hands back each
    /// identifier with its final state, in no particular order.
    pub fn consume_all(&mut self) -> (states: Vec<(Id, S)>)
        requires
            forall|id: Id| old(self)@.contains_key(id) ==> (#[trigger] old(self)@[id]).completes(),
        ensures
            states@.len() == old(self)@.len(),
            forall|i: int, j: int|
                0 <= i < j < states@.len() ==> (#[trigger] states@[i]).0 != (#[trigger] states@[j]).0,
            forall|i: int|
                0 <= i < states@.len() ==> old(self)@.contains_key((#[trigger] states@[i]).0)
                    && states@[i].1 == old(self)@[states@[i].0].final_state(),
            forall|id: Id|
                old(self)@.contains_key(id) ==> exists|i: int|
                    0 <= i < states@.len() && (#[trigger] states@[i]).0 == id,
            final(self)@ == Map::<Id, Chain<S, P>>::empty(),
            final(self).next_id() == old(self).next_id(),
            old(self).wf() ==> final(self).wf(),
    {
        broadcast use vstd::std_specs::hash::group_hash_axioms;

        let ids = self.ids();
        let ghost before = self@;
        assert forall|i: int| 0 <= i < ids@.len() implies before.contains_key(
            #[trigger] ids@[i],
        ) by {
            assert(ids@.contains(ids@[i]));
        }
        let mut states: Vec<(Id, S)> = Vec::new();
        let mut done: usize = 0;
        while done < ids.len()
            invariant
                done <= ids.len(),
                states@.len() == done,
                ids@.no_duplicates(),
                forall|id: Id| ids@.contains(id) <==> before.contains_key(id),
                forall|id: Id| before.contains_key(id) ==> (#[trigger] before[id]).completes(),
                forall|i: int| 0 <= i < done ==> !self@.contains_key(#[trigger] ids@[i]),
                forall|i: int|
                    0 <= i < done ==> (#[trigger] states@[i]).0 == ids@[i] && states@[i].1
                        == before[ids@[i]].final_state(),
                forall|i: int|
                    done <= i < ids.len() ==> self@.contains_key(#[trigger] ids@[i])
                        && self@[ids@[i]] == before[ids@[i]],
                forall|id: Id| self@.contains_key(id) ==> before.contains_key(id),
                self.next_id() == old(self).next_id(),
                old(self).wf() ==> self.wf(),
            decreases ids.len() - done,
        {
            let id = ids[done];
            let ghost entries = self@;
            assert(ids@.contains(id));
            assert(entries.contains_key(ids@[done as int]));
            let state = self.consume(id).unwrap();
            assert forall|i: int| 0 <= i < ids.len() && i != done implies (self@.contains_key(
                #[trigger] ids@[i],
            ) == entries.contains_key(ids@[i]) && self@[ids@[i]] == entries[ids@[i]]) by {
                assert(ids@[i] != id);
            }
            states.push((id, state));
            done += 1;
        }
        proof {
            assert(self@ =~= Map::<Id, Chain<S, P>>::empty()) by {
                assert forall|id: Id| !self@.contains_key(id) by {
                    if before.contains_key(id) {
                        assert(ids@.contains(id));
                        let i = choose|i: int| 0 <= i < ids@.len() && ids@[i] == id;
                        assert(ids@[i] == id);
                    }
                }
            }
            assert(states@.len() == before.len()) by {
                ids@.unique_seq_to_set();
                assert(ids@.to_set() =~= before.dom());
            }
            assert forall|id: Id| before.contains_key(id) implies exists|i: int|
                0 <= i < states@.len() && (#[trigger] states@[i]).0 == id by {
                assert(ids@.contains(id));
                let i = choose|i: int| 0 <= i < ids@.len() && ids@[i] == id;
                assert(states@[i].0 == id);
            }
        }
        states
    }

    /// Takes the execution under `id` out, runs it to its end and hands back
    /// its final state; `None` where there is no such execution.
    pub fn consume(&mut self, id: Id) -> (state: Option<S>)
        requires
            old(self)@.contains_key(id) ==> old(self)@[id].completes(),
        ensures
            state == if old(self)@.contains_key(id) {
                Some(old(self)@[id].final_state())
            } else {
                None
            },
            final(self)@ == old(self)@.remove(id),
            final(self).next_id() == old(self).next_id(),
            old(self).wf() ==> final(self).wf(),
    {
        broadcast use vstd::std_specs::hash::group_hash_axioms;

        let taken = self.registry.remove(&id);
        assert(self@ =~= old(self)@.remove(id));
        match taken {
            Some(deferred) => Some(deferred.consume()),
            None => None,
        }
    }
}

impl<S, P: Part<S>> Default for DeferredManager<S, P> {
    /// A manager with no execution in it.
    fn default() -> (manager: Self)
        ensures
            manager@ == Map::<Id, Chain<S, P>>::empty(),
            manager.next_id() == 0,
            manager.wf(),
    {
        DeferredManager::new()
    }
}

} // verus!
