//! What holds of every chain: how a tick and a run behave, whatever the
//! steps are.

use vstd::prelude::*;
use crate::chain::Chain;
use crate::chain::settle_in;
use crate::deferred::Part;
use crate::deferred_manager::Id;
use crate::deferred_manager::ticked;
use crate::deferred_manager::ticked_all;
use crate::deferred_manager::ticked_at;

verus! {

/// The state that `steps` make of `state` when each runs on what the one
/// before it gave.
pub open spec fn composed<S, P: Part<S>>(steps: Seq<P>, state: S) -> S
    decreases steps.len(),
{
    if steps.len() == 0 {
        state
    } else {
        composed(steps.skip(1), steps[0].outcome(state).state)
    }
}

/// No step of `steps` gives a nested execution when they run in a row from
/// `state`.
pub open spec fn all_plain<S, P: Part<S>>(steps: Seq<P>, state: S) -> bool
    decreases steps.len(),
{
    steps.len() == 0 || {
        let made = steps[0].outcome(state);
        made.frames.len() == 0 && all_plain(steps.skip(1), made.state)
    }
}

/// The run from `chain` is `steps` steps ahead of the run from `next`: with
/// that many steps more it gets as far.
pub open spec fn steps_ahead<S, P: Part<S>>(chain: Chain<S, P>, next: Chain<S, P>, steps: nat) -> bool {
    forall|left: nat| chain.run_in(#[trigger] (left + steps)) == next.run_in(left)
}

/// A chain has nothing left to run exactly when it has no pending step.
pub proof fn law_exhausted_has_no_pending<S, P: Part<S>>(chain: Chain<S, P>)
    ensures
        chain.exhausted() <==> chain.pending().len() == 0,
{
    chain.lemma_exhausted_pending();
}

/// A tick of a chain with nothing left to run comes to an end at once and
/// reports that there was nothing to do.
pub proof fn law_nothing_to_do<S, P: Part<S>>(chain: Chain<S, P>)
    requires
        chain.exhausted(),
    ensures
        chain.tick_ends(),
        chain.tick() is None,
        chain.after_tick() == chain.spent(),
{
    chain.lemma_exhausted();
    chain.lemma_tick(0);
}

/// A tick reports that there was nothing to do only at the end: nothing is
/// left to run after it. While a step is left after the tick, the tick has
/// advanced the chain.
pub proof fn law_nothing_to_do_is_the_end<S, P: Part<S>>(chain: Chain<S, P>)
    requires
        chain.tick_ends(),
        chain.tick() is None,
    ensures
        chain.after_tick().exhausted(),
        chain.after_tick().frames == seq![Seq::<P>::empty()],
{
    let fuel = choose|fuel: nat| chain.tick_in(fuel) is Some;
    chain.lemma_tick(fuel);
    chain.lemma_tick_leaves(fuel);
    assert(chain.after_tick().frames[0].len() == 0);
}

/// Where the next step gives a plain state, the tick is that step alone: the
/// step leaves its queue, the state becomes what the step made, the empty
/// frames below are gone and the frames above are as they were.
pub proof fn law_plain_step<S, P: Part<S>>(chain: Chain<S, P>)
    requires
        !chain.exhausted(),
        chain.next_outcome().frames.len() == 0,
    ensures
        chain.tick_ends(),
        chain.tick() == Some(chain.stepped()),
        chain.stepped().frames == seq![chain.next_queue().skip(1)] + chain.next_above(),
{
    chain.lemma_exhausted();
    chain.lemma_tick(0);
    assert(chain.stepped().frames =~= seq![chain.next_queue().skip(1)] + chain.next_above());
}

/// Where the next step gives a nested execution, the tick does not end with
/// it: it is the tick of the chain that holds the nested frames in the
/// step's place.
pub proof fn law_nested_step<S, P: Part<S>>(chain: Chain<S, P>)
    requires
        !chain.exhausted(),
        chain.next_outcome().frames.len() > 0,
    ensures
        chain.tick_ends() <==> chain.stepped().tick_ends(),
        chain.tick_ends() ==> chain.tick() == chain.stepped().tick() && chain.after_tick()
            == chain.stepped().after_tick(),
{
    chain.lemma_exhausted();
    let inside = chain.stepped();
    if chain.tick_ends() {
        let fuel = choose|fuel: nat| chain.tick_in(fuel) is Some;
        chain.lemma_tick(fuel);
        inside.lemma_tick((fuel - 1) as nat);
    }
    if inside.tick_ends() {
        let fuel = choose|fuel: nat| inside.tick_in(fuel) is Some;
        inside.lemma_tick(fuel);
        chain.lemma_tick(fuel + 1);
    }
}

/// Frames with nothing left to run cost no tick: a chain on top of them ticks
/// as it would without them.
pub proof fn law_collapse_is_free<S, P: Part<S>>(below: Chain<S, P>, above: Seq<Seq<P>>)
    requires
        below.exhausted(),
    ensures
        below.under(above).tick_ends() <==> (Chain { state: below.state, frames: above }).tick_ends(),
        below.under(above).tick_ends() ==> below.under(above).tick() == (Chain {
            state: below.state,
            frames: above,
        }).tick(),
{
    let whole = below.under(above);
    let bare = Chain { state: below.state, frames: above };
    if whole.tick_ends() {
        let fuel = choose|fuel: nat| whole.tick_in(fuel) is Some;
        below.lemma_tick_over_exhausted(above, fuel);
        whole.lemma_tick(fuel);
        bare.lemma_tick(fuel);
    }
    if bare.tick_ends() {
        let fuel = choose|fuel: nat| bare.tick_in(fuel) is Some;
        below.lemma_tick_over_exhausted(above, fuel);
        whole.lemma_tick(fuel);
        bare.lemma_tick(fuel);
    }
}

/// Every tick of a chain that has a step left is real work: it stands for at
/// least one step of the run, and never for none.
pub proof fn law_tick_is_progress<S, P: Part<S>>(chain: Chain<S, P>)
    requires
        chain.tick_ends(),
        !chain.exhausted(),
    ensures
        exists|steps: nat| steps >= 1 && #[trigger] steps_ahead(chain, chain.after_tick(), steps),
{
    let fuel = choose|fuel: nat| chain.tick_in(fuel) is Some;
    chain.lemma_tick(fuel);
    let next = chain.after_tick();
    let steps = chain.tick_steps(fuel);
    assert forall|left: nat| chain.run_in(#[trigger] (left + steps)) == next.run_in(left) by {
        chain.lemma_tick_run(fuel, left);
    }
    chain.lemma_tick_run(fuel, 0);
    assert(steps_ahead(chain, next, steps));
}

/// A chain with nothing left to run has run to its end: its final state is
/// the state it is in.
pub proof fn law_exhausted_is_final<S, P: Part<S>>(chain: Chain<S, P>)
    requires
        chain.exhausted(),
    ensures
        chain.completes(),
        chain.final_state() == chain.state,
{
    chain.lemma_exhausted_pending();
    chain.lemma_run(0);
}

/// A run is a row of ticks: each tick of a chain whose run comes to an end
/// comes to an end, and the chain runs on from there to the same final state.
pub proof fn law_run_is_ticks<S, P: Part<S>>(chain: Chain<S, P>)
    requires
        chain.completes(),
    ensures
        chain.tick_ends(),
        chain.after_tick().completes(),
        chain.after_tick().final_state() == chain.final_state(),
{
    let fuel = choose|fuel: nat| chain.run_in(fuel) is Some;
    chain.lemma_run(fuel);
    chain.lemma_run_ticks(fuel);
    chain.lemma_tick(fuel);
    let steps = chain.tick_steps(fuel);
    chain.lemma_tick_run(fuel, fuel);
    crate::chain::lemma_settle_in_more(chain.state, chain.pending(), fuel, fuel + steps);
    chain.after_tick().lemma_run(fuel);
}

/// A chain runs to its end if its next tick comes to an end and leaves a
/// chain that does.
pub proof fn law_tick_then_run<S, P: Part<S>>(chain: Chain<S, P>)
    requires
        chain.tick_ends(),
        chain.after_tick().completes(),
    ensures
        chain.completes(),
        chain.final_state() == chain.after_tick().final_state(),
{
    let next = chain.after_tick();
    let for_tick = choose|fuel: nat| chain.tick_in(fuel) is Some;
    let for_run = choose|fuel: nat| next.run_in(fuel) is Some;
    chain.lemma_tick(for_tick);
    next.lemma_run(for_run);
    chain.lemma_tick_run(for_tick, for_run);
    chain.lemma_run(for_run + chain.tick_steps(for_tick));
}

/// Steps in one queue, none of which gives a nested execution, run to their
/// end, and the final state is what they make of the first state one after
/// the other.
pub proof fn law_sequential<S, P: Part<S>>(state: S, steps: Seq<P>)
    requires
        all_plain(steps, state),
    ensures
        (Chain { state, frames: seq![steps] }).completes(),
        (Chain { state, frames: seq![steps] }).final_state() == composed(steps, state),
{
    let chain = Chain { state, frames: seq![steps] };
    chain.frames.lemma_flatten_one_element();
    lemma_sequential_in(state, steps, steps.len());
    chain.lemma_run(steps.len());
}

proof fn lemma_sequential_in<S, P: Part<S>>(state: S, steps: Seq<P>, fuel: nat)
    requires
        all_plain(steps, state),
        fuel >= steps.len(),
    ensures
        settle_in(state, steps, fuel) == Some(composed(steps, state)),
    decreases steps.len(),
{
    if steps.len() > 0 {
        let made = steps[0].outcome(state);
        assert(made.pending() =~= Seq::<P>::empty());
        assert(made.pending() + steps.skip(1) =~= steps.skip(1));
        lemma_sequential_in(made.state, steps.skip(1), (fuel - 1) as nat);
    }
}

/// Nesting does not change where a run ends: two chains at the same state
/// with the same pending steps run to their end or not together, and to the
/// same final state, however the steps are spread over levels of nesting.
pub proof fn law_levels_do_not_matter<S, P: Part<S>>(one: Chain<S, P>, other: Chain<S, P>)
    requires
        one.state == other.state,
        one.pending() == other.pending(),
    ensures
        one.completes() == other.completes(),
        one.completes() ==> one.final_state() == other.final_state(),
{
    if one.completes() {
        let fuel = choose|fuel: nat| one.run_in(fuel) is Some;
        one.lemma_run(fuel);
        other.lemma_run(fuel);
    }
    if other.completes() {
        let fuel = choose|fuel: nat| other.run_in(fuel) is Some;
        other.lemma_run(fuel);
        one.lemma_run(fuel);
    }
}

/// Inlining changes nothing: the chain with all its pending steps in one
/// queue runs to its end exactly if the chain does, and to the same final
/// state.
pub proof fn law_inlined_run<S, P: Part<S>>(chain: Chain<S, P>)
    ensures
        chain.inlined().completes() == chain.completes(),
        chain.completes() ==> chain.inlined().final_state() == chain.final_state(),
{
    chain.inlined().frames.lemma_flatten_one_element();
    law_levels_do_not_matter(chain, chain.inlined());
}

/// A step stands for what it gives: a chain runs to its end exactly if the
/// chain does that holds, in place of the next step, the state and the
/// nested frames that the step gives, and both end in the same state.
pub proof fn law_step_then_run<S, P: Part<S>>(chain: Chain<S, P>)
    requires
        !chain.exhausted(),
    ensures
        chain.stepped().completes() == chain.completes(),
        chain.completes() ==> chain.stepped().final_state() == chain.final_state(),
{
    let next = chain.stepped();
    chain.lemma_stepped_pending();
    if chain.completes() {
        let fuel = choose|fuel: nat| chain.run_in(fuel) is Some;
        chain.lemma_run(fuel);
        next.lemma_run((fuel - 1) as nat);
    }
    if next.completes() {
        let fuel = choose|fuel: nat| next.run_in(fuel) is Some;
        next.lemma_run(fuel);
        chain.lemma_run(fuel + 1);
    }
}

/// A step that gives a nested execution stands for the steps of that
/// execution: a queue that starts with such a step runs to its end exactly if
/// the queue does that has the nested steps in the step's place and starts
/// at the nested state, and both end in the same state. A nested execution
/// without steps gives its state.
pub proof fn law_inlining<S, P: Part<S>>(state: S, step: P, rest: Seq<P>)
    ensures
        (Chain {
            state: step.outcome(state).state,
            frames: seq![step.outcome(state).pending() + rest],
        }).completes() == (Chain { state, frames: seq![seq![step] + rest] }).completes(),
        (Chain { state, frames: seq![seq![step] + rest] }).completes() ==> (Chain {
            state: step.outcome(state).state,
            frames: seq![step.outcome(state).pending() + rest],
        }).final_state() == (Chain { state, frames: seq![seq![step] + rest] }).final_state(),
{
    let nested = step.outcome(state);
    let outer = Chain { state, frames: seq![seq![step] + rest] };
    let inlined = Chain { state: nested.state, frames: seq![nested.pending() + rest] };
    assert(outer.frames[0].len() > 0);
    crate::chain::lemma_first_busy_is(outer.frames, 0);
    assert((seq![step] + rest).skip(1) =~= rest);
    law_step_then_run(outer);
    outer.lemma_stepped_pending();
    outer.frames.lemma_flatten_one_element();
    inlined.frames.lemma_flatten_one_element();
    law_levels_do_not_matter(outer.stepped(), inlined);
}

/// Nesting at any place in a queue is inlining at that place. Let `nesting`
/// give, at every state, a nested execution with the steps `nested`, and let
/// `plain` give the same state as a plain state. Then the queue with
/// `nesting` in it runs as the queue that has `plain` and then `nested` in
/// its place: to the same end, within the same number of steps.
pub proof fn law_nesting_is_inlining<S, P: Part<S>>(
    state: S,
    before: Seq<P>,
    nesting: P,
    plain: P,
    nested: Seq<P>,
    after: Seq<P>,
    fuel: nat,
)
    requires
        forall|at: S| (#[trigger] nesting.outcome(at)).pending() == nested,
        forall|at: S|
            (#[trigger] plain.outcome(at)).state == nesting.outcome(at).state && plain.outcome(
                at,
            ).frames.len() == 0,
    ensures
        settle_in(state, before + seq![nesting] + after, fuel) == settle_in(
            state,
            before + seq![plain] + nested + after,
            fuel,
        ),
    decreases fuel,
{
    let one = before + seq![nesting] + after;
    let other = before + seq![plain] + nested + after;
    if fuel > 0 {
        if before.len() == 0 {
            assert(one.skip(1) =~= after);
            assert(other.skip(1) =~= nested + after);
            assert(plain.outcome(state).pending() =~= Seq::<P>::empty());
            assert(nesting.outcome(state).pending() + one.skip(1) =~= plain.outcome(
                state,
            ).pending() + other.skip(1));
        } else {
            let made = before[0].outcome(state);
            let next = made.pending() + before.skip(1);
            assert(made.pending() + one.skip(1) =~= next + seq![nesting] + after);
            assert(made.pending() + other.skip(1) =~= next + seq![plain] + nested + after);
            law_nesting_is_inlining(
                made.state,
                next,
                nesting,
                plain,
                nested,
                after,
                (fuel - 1) as nat,
            );
        }
    }
}

/// How many steps of the run of `queue` from `state` give a plain state,
/// among the first `fuel` steps.
pub open spec fn plain_steps_in<S, P: Part<S>>(state: S, queue: Seq<P>, fuel: nat) -> nat
    decreases fuel,
{
    if queue.len() == 0 || fuel == 0 {
        0
    } else {
        let made = queue[0].outcome(state);
        let here: nat = if made.frames.len() == 0 {
            1
        } else {
            0
        };
        here + plain_steps_in(made.state, made.pending() + queue.skip(1), (fuel - 1) as nat)
    }
}

/// How many ticks advance the chain on its way to the end, among the first
/// `fuel` ticks.
pub open spec fn advancing_ticks_in<S, P: Part<S>>(chain: Chain<S, P>, fuel: nat) -> nat
    decreases fuel,
{
    if chain.exhausted() || fuel == 0 {
        0
    } else {
        match chain.tick_in(fuel) {
            Some((next, advanced)) => {
                let here: nat = if advanced {
                    1
                } else {
                    0
                };
                here + advancing_ticks_in(next, (fuel - 1) as nat)
            },
            None => 0,
        }
    }
}

proof fn lemma_plain_steps_more<S, P: Part<S>>(state: S, queue: Seq<P>, less: nat, more: nat)
    requires
        less <= more,
        settle_in(state, queue, less) is Some,
    ensures
        plain_steps_in(state, queue, more) == plain_steps_in(state, queue, less),
    decreases less,
{
    if queue.len() > 0 {
        let made = queue[0].outcome(state);
        lemma_plain_steps_more(
            made.state,
            made.pending() + queue.skip(1),
            (less - 1) as nat,
            (more - 1) as nat,
        );
    }
}

proof fn lemma_tick_plain_steps<S, P: Part<S>>(chain: Chain<S, P>, fuel: nat, left: nat)
    requires
        chain.tick_in(fuel) is Some,
    ensures
        plain_steps_in(chain.state, chain.pending(), left + chain.tick_steps(fuel)) == (if chain.tick_in(
            fuel,
        ).unwrap().1 {
            1nat
        } else {
            0nat
        }) + plain_steps_in(
            chain.tick_in(fuel).unwrap().0.state,
            chain.tick_in(fuel).unwrap().0.pending(),
            left,
        ),
    decreases fuel,
{
    chain.lemma_exhausted();
    chain.lemma_exhausted_pending();
    if chain.exhausted() {
        chain.spent().lemma_exhausted_pending();
        assert(chain.spent().frames[0].len() == 0);
        assert(chain.pending() =~= chain.spent().pending());
    } else {
        chain.lemma_stepped_pending();
        if chain.next_outcome().frames.len() > 0 {
            lemma_tick_plain_steps(chain.stepped(), (fuel - 1) as nat, left);
        }
    }
}

proof fn lemma_plain_steps_grow<S, P: Part<S>>(state: S, queue: Seq<P>, less: nat, more: nat)
    requires
        less <= more,
    ensures
        plain_steps_in(state, queue, less) <= plain_steps_in(state, queue, more),
    decreases less,
{
    if queue.len() > 0 && less > 0 {
        let made = queue[0].outcome(state);
        lemma_plain_steps_grow(
            made.state,
            made.pending() + queue.skip(1),
            (less - 1) as nat,
            (more - 1) as nat,
        );
    }
}

/// A tick advances the chain whenever a step that gives a plain state is
/// left to run: it reports that there was nothing to do only where every
/// step that is left gives a nested execution, down to the last.
pub proof fn law_plain_work_advances<S, P: Part<S>>(chain: Chain<S, P>, fuel: nat)
    requires
        chain.tick_ends(),
        plain_steps_in(chain.state, chain.pending(), fuel) >= 1,
    ensures
        chain.tick() is Some,
{
    let bound = choose|bound: nat| chain.tick_in(bound) is Some;
    chain.lemma_tick(bound);
    if !chain.advances() {
        let next = chain.after_tick();
        chain.lemma_tick_leaves(bound);
        next.frames.lemma_flatten_one_element();
        assert(next.pending() =~= Seq::<P>::empty());
        lemma_tick_plain_steps(chain, bound, fuel);
        lemma_plain_steps_grow(
            chain.state,
            chain.pending(),
            fuel,
            fuel + chain.tick_steps(bound),
        );
    }
}

/// Ticks are counted by the steps that give a plain state: on the way to the
/// end of a run as many ticks advance the chain as steps give a plain state.
/// A step that gives a nested execution, and the end of a nested execution,
/// add no tick of their own.
pub proof fn law_ticks_are_plain_steps<S, P: Part<S>>(chain: Chain<S, P>, fuel: nat)
    requires
        chain.run_in(fuel) is Some,
    ensures
        advancing_ticks_in(chain, fuel) == plain_steps_in(chain.state, chain.pending(), fuel),
    decreases fuel,
{
    chain.lemma_exhausted_pending();
    if !chain.exhausted() {
        chain.lemma_run_ticks(fuel);
        let next = chain.tick_in(fuel).unwrap().0;
        let steps = chain.tick_steps(fuel);
        let short = (fuel - 1) as nat;
        let left = if steps <= fuel {
            (fuel - steps) as nat
        } else {
            0
        };
        chain.lemma_tick_run(fuel, left);
        crate::chain::lemma_settle_in_more(chain.state, chain.pending(), fuel, left + steps);
        crate::chain::lemma_settle_in_more(next.state, next.pending(), left, short);
        law_ticks_are_plain_steps(next, short);
        lemma_tick_plain_steps(chain, fuel, short);
        lemma_plain_steps_more(chain.state, chain.pending(), fuel, short + steps);
    }
}

/// In a queue of steps none of which gives a nested execution, every step is
/// a tick: as many steps give a plain state as the queue holds.
pub proof fn law_plain_steps_of_plain_queue<S, P: Part<S>>(state: S, steps: Seq<P>, fuel: nat)
    requires
        all_plain(steps, state),
        fuel >= steps.len(),
    ensures
        plain_steps_in(state, steps, fuel) == steps.len(),
    decreases steps.len(),
{
    if steps.len() > 0 {
        let made = steps[0].outcome(state);
        assert(made.pending() =~= Seq::<P>::empty());
        assert(made.pending() + steps.skip(1) =~= steps.skip(1));
        law_plain_steps_of_plain_queue(made.state, steps.skip(1), (fuel - 1) as nat);
    }
}

proof fn lemma_plain_prefix<S, P: Part<S>>(state: S, first: Seq<P>, then: Seq<P>, fuel: nat)
    requires
        all_plain(first, state),
        fuel >= first.len(),
    ensures
        plain_steps_in(state, first + then, fuel) == first.len() + plain_steps_in(
            composed(first, state),
            then,
            (fuel - first.len()) as nat,
        ),
        settle_in(state, first + then, fuel) == settle_in(
            composed(first, state),
            then,
            (fuel - first.len()) as nat,
        ),
    decreases first.len(),
{
    if first.len() == 0 {
        assert(first + then =~= then);
    } else {
        let made = first[0].outcome(state);
        assert(made.pending() =~= Seq::<P>::empty());
        assert(made.pending() + (first + then).skip(1) =~= first.skip(1) + then);
        lemma_plain_prefix(made.state, first.skip(1), then, (fuel - 1) as nat);
    }
}

/// One nesting step in a queue of plain steps: with `before` and `after`
/// steps that give plain states around a step that gives a nested execution
/// of steps that give plain states, the run takes as many ticks as there are
/// steps before, nested and after. The nesting step itself and the end of
/// the nested execution add none, and the run ends where the steps end when
/// they run in a row.
pub proof fn law_one_nesting_step<S, P: Part<S>>(
    state: S,
    before: Seq<P>,
    nesting: P,
    after: Seq<P>,
    fuel: nat,
)
    requires
        all_plain(before, state),
        nesting.outcome(composed(before, state)).frames.len() > 0,
        all_plain(
            nesting.outcome(composed(before, state)).pending(),
            nesting.outcome(composed(before, state)).state,
        ),
        all_plain(
            after,
            composed(
                nesting.outcome(composed(before, state)).pending(),
                nesting.outcome(composed(before, state)).state,
            ),
        ),
        fuel >= before.len() + 1 + nesting.outcome(composed(before, state)).pending().len()
            + after.len(),
    ensures
        (Chain { state, frames: seq![before + seq![nesting] + after] }).run_in(fuel) == Some(
            composed(
                after,
                composed(
                    nesting.outcome(composed(before, state)).pending(),
                    nesting.outcome(composed(before, state)).state,
                ),
            ),
        ),
        advancing_ticks_in(Chain { state, frames: seq![before + seq![nesting] + after] }, fuel)
            == before.len() + nesting.outcome(composed(before, state)).pending().len()
            + after.len(),
{
    let queue = before + seq![nesting] + after;
    let chain = Chain { state, frames: seq![queue] };
    chain.frames.lemma_flatten_one_element();
    let reached = composed(before, state);
    let made = nesting.outcome(reached);
    let nested = made.pending();
    let left = (fuel - before.len()) as nat;
    let tail = seq![nesting] + after;
    assert(queue =~= before + tail);
    lemma_plain_prefix(state, before, tail, fuel);
    assert(tail.skip(1) =~= after);
    let short = (left - 1) as nat;
    lemma_plain_prefix(made.state, nested, after, short);
    let last = (short - nested.len()) as nat;
    law_plain_steps_of_plain_queue(composed(nested, made.state), after, last);
    lemma_sequential_in(composed(nested, made.state), after, last);
    law_ticks_are_plain_steps(chain, fuel);
}

/// An execution registered under a fresh identifier is found under it, is
/// completed from there to the final state that it would reach on its own,
/// and is gone afterwards, with the registry as it was before.
pub proof fn law_round_trip<S, P: Part<S>>(entries: Map<Id, Chain<S, P>>, id: Id, chain: Chain<S, P>)
    requires
        !entries.contains_key(id),
    ensures
        entries.insert(id, chain).contains_key(id),
        entries.insert(id, chain)[id].final_state() == chain.final_state(),
        !entries.insert(id, chain).remove(id).contains_key(id),
        entries.insert(id, chain).remove(id) == entries,
{
    assert(entries.insert(id, chain).remove(id) =~= entries);
}

/// A tick of all entries is a tick of each. No entry appears; an entry goes
/// only if nothing is left to run in it after its tick; and an entry that
/// stays stands one tick further, with a step left to run.
pub proof fn law_tick_all<S, P: Part<S>>(entries: Map<Id, Chain<S, P>>, id: Id)
    ensures
        ticked_all(entries).contains_key(id) ==> entries.contains_key(id),
        entries.contains_key(id) && !ticked_all(entries).contains_key(id)
            ==> entries[id].after_tick().exhausted(),
        ticked_all(entries).contains_key(id) ==> ticked_all(entries)[id]
            == entries[id].after_tick() && !ticked_all(entries)[id].exhausted(),
        entries.contains_key(id) ==> (ticked_all(entries).contains_key(id) <==> ticked_at(
            entries,
            id,
        ).contains_key(id)),
        ticked_all(entries).contains_key(id) ==> ticked_all(entries)[id] == ticked_at(
            entries,
            id,
        )[id],
{
}

/// An entry that is kept by a tick was advanced by it: the tick ran a step
/// that gave a plain state.
pub proof fn law_kept_entry_advanced<S, P: Part<S>>(chain: Chain<S, P>)
    requires
        chain.tick_ends(),
        ticked(chain) is Some,
    ensures
        chain.tick() == ticked(chain),
{
    if chain.tick() is None {
        law_nothing_to_do_is_the_end(chain);
    }
}

/// A tick of one entry leaves every other entry as it was.
pub proof fn law_tick_one<S, P: Part<S>>(entries: Map<Id, Chain<S, P>>, id: Id, other: Id)
    requires
        other != id,
    ensures
        ticked_at(entries, id).contains_key(other) == entries.contains_key(other),
        entries.contains_key(other) ==> ticked_at(entries, id)[other] == entries[other],
{
}

/// After a cancel nothing is registered under the identifier, and every
/// other entry is as it was.
pub proof fn law_cancel<S, P: Part<S>>(entries: Map<Id, Chain<S, P>>, id: Id, other: Id)
    requires
        other != id,
    ensures
        !entries.remove(id).contains_key(id),
        entries.remove(id).contains_key(other) == entries.contains_key(other),
        entries.contains_key(other) ==> entries.remove(id)[other] == entries[other],
{
}

} // verus!
