use deferred::Chain;
use deferred::Context;
use deferred::Deferred;
use deferred::Part;

struct Step(fn(Context<i32, Step>) -> Context<i32, Step>);

impl Part<i32> for Step {
    fn outcome(&self, _state: i32) -> Chain<i32, Step> {
        unreachable!()
    }

    fn apply(self, input: Context<i32, Step>) -> Context<i32, Step> {
        (self.0)(input)
    }
}

fn chain(v: i32) -> Deferred<i32, Step> {
    Deferred::new(
        v,
        vec![
            Step(|c| Context::State(c.state() + 1)),
            Step(|c| Context::State(c.state() * 10)),
        ],
    )
}

#[test]
fn plain_state_context() {
    let c: Context<i32, Step> = Context::State(3);
    assert!(c.is_state());
    assert!(!c.is_deferred());
    assert_eq!(c.get_state(), Some(&3));
    assert!(c.get_deferred().is_none());
    assert_eq!(c.state(), 3);
}

#[test]
fn nested_context_reads_state_through_nesting() {
    let c: Context<i32, Step> = Context::Deferred(Box::new(chain(4)));
    assert!(!c.is_state());
    assert!(c.is_deferred());
    assert_eq!(c.get_state(), Some(&4));
    assert!(c.get_deferred().unwrap().can_resume());
    assert_eq!(c.get_deferred().unwrap().state(), Some(&4));
}

#[test]
fn state_through_two_levels() {
    let inner: Context<i32, Step> = chain(9).into();
    let outer: Deferred<i32, Step> = inner.deferred();
    let wrapped: Context<i32, Step> = Context::Deferred(Box::new(outer));
    let twice: Context<i32, Step> = Context::Deferred(Box::new(Deferred::new(
        0,
        vec![Step(|_| Context::Deferred(Box::new(chain(9))))],
    )));
    assert_eq!(wrapped.get_state(), Some(&9));
    assert_eq!(twice.get_state(), Some(&0));
    assert_eq!(twice.state(), 100);
}

#[test]
fn taking_the_state_out_runs_the_nested_execution() {
    let c: Context<i32, Step> = Context::Deferred(Box::new(chain(4)));
    assert_eq!(c.state(), 50);
    let c: Context<i32, Step> = Context::Deferred(Box::new(chain(4)));
    assert_eq!(c.unwrap(), 50);
}

#[test]
fn deferred_out_of_a_nested_context() {
    let c: Context<i32, Step> = chain(1).into();
    let d = c.deferred();
    assert_eq!(d.state(), Some(&1));
    assert_eq!(d.consume(), 20);
}

#[test]
fn into_context_holds_the_execution() {
    let c: Context<i32, Step> = Context::from(chain(2));
    assert!(c.is_deferred());
    assert_eq!(c.get_state(), Some(&2));
}
