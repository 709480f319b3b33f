use deferred::Chain;
use deferred::Context;
use deferred::Deferred;
use deferred::Part;

struct Step(fn(Context<i32, Step>) -> Context<i32, Step>);

impl Part<i32> for Step {
    fn outcome(&self, _state: i32) -> Chain<i32, Step> {
        unreachable!()
    }

    fn apply(self, input: Context<i32, Step>) -> Context<i32, Step> {
        (self.0)(input)
    }
}

#[test]
fn test_resume_consume() {
    fn foo(v: i32) -> Deferred<i32, Step> {
        Deferred::new(
            v,
            vec![
                Step(|c| Context::State(c.state() + 1)),
                Step(|c| Context::State(c.state() + 2)),
            ],
        )
    }

    {
        let d = foo(1);
        assert!(d.can_resume());
        assert_eq!(d.state(), Some(&1));

        let d = d.resume().unwrap();
        assert!(d.can_resume());
        assert_eq!(d.state(), Some(&2));

        let d = d.resume().unwrap();
        assert!(!d.can_resume());
        assert_eq!(d.state(), Some(&4));
    }
    {
        let d = foo(1);
        assert_eq!(d.consume(), 4);
    }
}

#[test]
fn test_nested() {
    fn foo(v: i32) -> Deferred<i32, Step> {
        Deferred::new(
            v,
            vec![
                Step(|c| Context::State(c.state() + 1)),
                Step(|c| foo2(c.state()).into()),
                Step(|c| Context::State(c.state() + 2)),
            ],
        )
    }

    fn foo2(v: i32) -> Deferred<i32, Step> {
        Deferred::new(
            v,
            vec![
                Step(|c| Context::State(c.state() * 2)),
                Step(|c| Context::State(c.state() * 3)),
            ],
        )
    }

    {
        let d = foo(1);
        assert!(d.can_resume());
        assert_eq!(d.state(), Some(&1));

        let d = d.resume().unwrap();
        assert!(d.can_resume());
        assert_eq!(d.state(), Some(&2));

        let d = d.resume().unwrap();
        assert!(d.can_resume());
        assert_eq!(d.state(), Some(&4));

        let d = d.resume().unwrap();
        assert!(d.can_resume());
        assert_eq!(d.state(), Some(&12));

        let d = d.resume().unwrap();
        assert!(!d.can_resume());
        assert_eq!(d.state(), Some(&14));
    }
    {
        let d = foo(1);
        assert_eq!(d.consume(), 14);
    }
}

fn add(n: i32) -> Step {
    match n {
        1 => Step(|c| Context::State(c.state() + 1)),
        2 => Step(|c| Context::State(c.state() + 2)),
        _ => Step(|c| Context::State(c.state() + 10)),
    }
}

fn double() -> Step {
    Step(|c| Context::State(c.state() * 2))
}

fn triple() -> Step {
    Step(|c| Context::State(c.state() * 3))
}

/// A step that hands back a nested execution with no step in it.
fn hollow() -> Step {
    Step(|c| Deferred::new(c.state(), vec![]).into())
}

/// A step that hands back a nested execution that doubles, then triples.
fn sub_chain() -> Step {
    Step(|c| Deferred::new(c.state(), vec![double(), triple()]).into())
}

#[test]
fn sequential_steps_compose_in_order() {
    // ((5 + 1) * 2 + 2) * 3 = 42, and in no other order.
    let d = Deferred::new(5, vec![add(1), double(), add(2), triple()]);
    assert_eq!(d.consume(), 42);
    let d = Deferred::new(5, vec![triple(), add(2), double(), add(1)]);
    assert_eq!(d.consume(), 35);
}

#[test]
fn unwrap_is_consume() {
    let d = Deferred::new(1, vec![add(1), add(2)]);
    assert_eq!(d.unwrap(), 4);
}

#[test]
fn no_steps_is_terminal_at_once() {
    let d: Deferred<i32, Step> = Deferred::new(7, vec![]);
    assert!(!d.can_resume());
    assert_eq!(d.state(), Some(&7));
    assert_eq!(d.consume(), 7);
}

#[test]
fn resume_of_terminal_execution_reports_nothing_to_do() {
    let d: Deferred<i32, Step> = Deferred::new(7, vec![]);
    assert!(d.resume().is_none());

    let d = Deferred::new(1, vec![add(1)]);
    let d = d.resume().unwrap();
    assert!(!d.can_resume());
    assert_eq!(d.state(), Some(&2));
    assert!(d.resume().is_none());
}

#[test]
fn each_tick_runs_one_plain_step() {
    let mut d = Deferred::new(0, vec![add(1), add(1), add(1)]);
    let mut ticks = 0;
    let mut seen = vec![*d.state().unwrap()];
    while d.can_resume() {
        d = d.resume().unwrap();
        ticks += 1;
        seen.push(*d.state().unwrap());
    }
    assert_eq!(ticks, 3);
    assert_eq!(seen, vec![0, 1, 2, 3]);
}

#[test]
fn nested_execution_ends_where_inlined_steps_end() {
    let nested = Deferred::new(1, vec![add(1), sub_chain(), add(2)]);
    let inlined = Deferred::new(1, vec![add(1), double(), triple(), add(2)]);
    assert_eq!(nested.consume(), 14);
    assert_eq!(inlined.consume(), 14);
}

#[test]
fn entering_and_leaving_a_nested_execution_costs_no_tick() {
    // Five steps in all, one of which only hands back the nested execution:
    // four ticks, each of which changes the state.
    let mut d = Deferred::new(1, vec![add(1), sub_chain(), add(2)]);
    let mut seen = Vec::new();
    while d.can_resume() {
        d = d.resume().unwrap();
        seen.push(*d.state().unwrap());
    }
    assert_eq!(seen, vec![2, 4, 12, 14]);
}

#[test]
fn can_resume_looks_through_nesting() {
    // After the tick that enters the nested execution the outer queue is
    // empty, and the nested one still has a step.
    let d = Deferred::new(1, vec![sub_chain()]);
    let d = d.resume().unwrap();
    assert_eq!(d.state(), Some(&2));
    assert!(d.can_resume());
    let d = d.resume().unwrap();
    assert_eq!(d.state(), Some(&6));
    // The context still holds the nested execution, which is exhausted.
    assert!(!d.can_resume());
    assert!(d.resume().is_none());
}

#[test]
fn deeply_nested_executions_flatten() {
    fn level3() -> Step {
        Step(|c| Deferred::new(c.state(), vec![add(1)]).into())
    }
    fn level2() -> Step {
        Step(|c| Deferred::new(c.state(), vec![level3(), double()]).into())
    }
    fn level1() -> Step {
        Step(|c| Deferred::new(c.state(), vec![level2(), triple()]).into())
    }
    // ((0 + 1) * 2) * 3 + 2 = 8
    let d = Deferred::new(0, vec![level1(), add(2)]);
    let d = d.resume().unwrap();
    assert_eq!(d.state(), Some(&1));
    let d = d.resume().unwrap();
    assert_eq!(d.state(), Some(&2));
    let d = d.resume().unwrap();
    assert_eq!(d.state(), Some(&6));
    let d = d.resume().unwrap();
    assert_eq!(d.state(), Some(&8));
    assert!(!d.can_resume());

    let d = Deferred::new(0, vec![level1(), add(2)]);
    assert_eq!(d.consume(), 8);
}

#[test]
fn hollow_nested_execution_before_more_steps_is_skipped() {
    // The nested execution has nothing to run, so the same tick goes on to
    // the next step of the outer queue.
    let d = Deferred::new(1, vec![hollow(), add(2)]);
    let d = d.resume().unwrap();
    assert_eq!(d.state(), Some(&3));
    assert!(!d.can_resume());

    let d = Deferred::new(1, vec![hollow(), add(2)]);
    assert_eq!(d.consume(), 3);
}

#[test]
fn hollow_nested_execution_as_last_step_finds_nothing_to_do() {
    // The tick runs the step, finds nothing to run in what it gave and
    // nothing after it, and reports that there was nothing to do.
    let d = Deferred::new(1, vec![hollow()]);
    assert!(d.can_resume());
    assert!(d.resume().is_none());
}

#[test]
fn hollow_nested_execution_gives_its_state() {
    // A nested execution without steps is run to its end at once: its start
    // state is the final state.
    let d = Deferred::new(
        1,
        vec![Step(|c| Context::Deferred(Box::new(Deferred::new(c.state() * 10, vec![]))))],
    );
    assert_eq!(d.consume(), 10);

    let d = Deferred::new(1, vec![hollow()]);
    assert_eq!(d.consume(), 1);

    let d = Deferred::new(1, vec![hollow(), hollow(), hollow()]);
    assert!(d.can_resume());
    assert_eq!(d.consume(), 1);
}

#[test]
fn a_nested_execution_that_runs_dry_hands_on_to_the_outer_queue() {
    // The inner queue ends on a hollow step. The tick that finds nothing to
    // do inside goes on with the next step of the outer queue.
    fn inner() -> Step {
        Step(|c| Deferred::new(c.state(), vec![add(1), hollow()]).into())
    }
    let d = Deferred::new(1, vec![inner(), add(2)]);
    let d = d.resume().unwrap();
    assert_eq!(d.state(), Some(&2));
    assert!(d.can_resume());
    let d = d.resume().unwrap();
    assert_eq!(d.state(), Some(&4));
    assert!(!d.can_resume());
    assert!(d.resume().is_none());

    let d = Deferred::new(1, vec![inner(), add(2)]);
    assert_eq!(d.consume(), 4);
}

#[test]
fn a_tick_goes_through_any_number_of_dry_levels() {
    fn dry2() -> Step {
        Step(|c| Deferred::new(c.state(), vec![hollow(), hollow()]).into())
    }
    fn dry1() -> Step {
        Step(|c| Deferred::new(c.state(), vec![dry2(), hollow()]).into())
    }
    let d = Deferred::new(1, vec![dry1(), dry1(), add(2), dry1()]);
    let d = d.resume().unwrap();
    assert_eq!(d.state(), Some(&3));
    // What is left gives no plain state any more.
    assert!(d.can_resume());
    assert!(d.resume().is_none());

    let d = Deferred::new(1, vec![dry1(), dry1(), add(2), dry1()]);
    assert_eq!(d.consume(), 3);
}

#[test]
fn ticks_are_counted_by_the_steps_that_give_a_plain_state() {
    // Two steps before, a nesting step with three steps in its execution,
    // one step after: six ticks. The nesting step and the end of the nested
    // execution add none.
    fn three() -> Step {
        Step(|c| Deferred::new(c.state(), vec![add(1), add(1), add(1)]).into())
    }
    let mut d = Deferred::new(0, vec![add(1), add(1), three(), add(1)]);
    let mut ticks = 0;
    while d.can_resume() {
        d = d.resume().unwrap();
        ticks += 1;
        assert_eq!(d.state(), Some(&ticks));
    }
    assert_eq!(ticks, 6);
}
