use deferred::Chain;
use deferred::Context;
use deferred::Deferred;
use deferred::DeferredManager;
use deferred::Part;
use deferred::Value;
use std::cell::Cell;
use std::rc::Rc;

struct Step(fn(Context<Value, Step>) -> Context<Value, Step>);

impl Part<Value> for Step {
    fn outcome(&self, _state: Value) -> Chain<Value, Step> {
        unreachable!()
    }

    fn apply(self, input: Context<Value, Step>) -> Context<Value, Step> {
        (self.0)(input)
    }
}

#[test]
fn test_value() {
    fn foo(v: i32) -> Deferred<Value, Step> {
        Deferred::new(
            Value::new(Box::new(v)),
            vec![
                Step(|c| Context::State(Value::new(Box::new(c.state().consume::<i32>() + 1)))),
                Step(|c| {
                    let v = c.state().consume::<i32>();
                    let s = format!("Incremented value: {}", v);
                    Context::State(Value::new(Box::new(s)))
                }),
            ],
        )
    }

    {
        let d = foo(1);
        assert_eq!(*d.state().unwrap().unwrap::<i32>(), 1);
        let d = d.resume().unwrap();
        assert_eq!(*d.state().unwrap().unwrap::<i32>(), 2);
        let d = d.resume().unwrap();
        assert_eq!(
            d.state().unwrap().unwrap::<String>(),
            "Incremented value: 2"
        );
    }
    {
        let d = foo(1);
        assert_eq!(d.consume().unwrap::<String>(), "Incremented value: 2");
    }
}

#[test]
fn test_manager_value() {
    type RcBool = Rc<Cell<bool>>;

    fn foo(v: RcBool) -> Deferred<Value, Step> {
        Deferred::new(
            Value::new(Box::new(v)),
            vec![
                Step(|c| c),
                Step(|c| {
                    let v = c.state().consume::<RcBool>();
                    v.set(true);
                    Context::State(Value::new(Box::new(v)))
                }),
            ],
        )
    }

    fn foo2(v: RcBool) -> Deferred<Value, Step> {
        Deferred::new(
            Value::new(Box::new(v)),
            vec![Step(|c| {
                let v = c.state().consume::<RcBool>();
                v.set(true);
                Context::State(Value::new(Box::new(v)))
            })],
        )
    }

    let mut manager = DeferredManager::new();
    {
        let status = Rc::new(Cell::new(false));
        let status2 = Rc::new(Cell::new(false));
        assert_eq!(manager.count(), 0);

        let id = manager.run(foo(status.clone()));
        let id2 = manager.run(foo2(status2.clone()));
        assert_eq!(manager.count(), 2);
        assert_eq!(manager.has(id), true);
        assert_eq!(manager.has(id2), true);
        assert_eq!(status.get(), false);
        assert_eq!(status2.get(), false);

        manager.resume_all();
        assert_eq!(manager.count(), 1);
        assert_eq!(manager.has(id), true);
        assert_eq!(manager.has(id2), false);
        assert_eq!(status.get(), false);
        assert_eq!(status2.get(), true);

        manager.resume_all();
        assert_eq!(manager.count(), 0);
        assert_eq!(manager.has(id), false);
        assert_eq!(status.get(), true);
    }
    {
        let status = Rc::new(Cell::new(false));
        let status2 = Rc::new(Cell::new(false));
        assert_eq!(manager.count(), 0);

        let id = manager.run(foo(status.clone()));
        let id2 = manager.run(foo2(status2.clone()));
        assert_eq!(manager.count(), 2);
        assert_eq!(manager.has(id), true);
        assert_eq!(manager.has(id2), true);
        assert_eq!(status.get(), false);
        assert_eq!(status2.get(), false);

        manager.consume_all();
        assert_eq!(manager.count(), 0);
        assert_eq!(manager.has(id), false);
        assert_eq!(manager.has(id2), false);
        assert_eq!(status.get(), true);
        assert_eq!(status2.get(), true);
    }
}

#[test]
fn value_knows_its_type() {
    let v = Value::new(Box::new(42));
    assert_eq!(v.is::<i32>(), true);
    assert_eq!(v.is::<f32>(), false);
    assert_eq!(v.is::<i64>(), false);
    assert_eq!(v.is::<String>(), false);
    assert_eq!(v.is::<Box<i32>>(), false);
    assert_eq!(v.get::<i32>(), Some(&42));
    assert_eq!(v.get::<f32>(), None);
    assert_eq!(v.into_cloned::<i32>(), Some(42));
    assert_eq!(v.into_cloned::<f32>(), None);
    assert_eq!(v.unwrap::<i32>(), &42);
    assert_eq!(v.consume::<i32>(), 42);
}

#[test]
fn value_of_a_string() {
    let v = Value::new(Box::new(String::from("state")));
    assert!(v.is::<String>());
    assert!(!v.is::<&str>());
    assert!(!v.is::<i32>());
    assert_eq!(v.get::<String>().map(|s| s.as_str()), Some("state"));
    assert_eq!(v.get::<i32>(), None);
    assert_eq!(v.into_cloned::<String>(), Some(String::from("state")));
    assert_eq!(v.consume::<String>(), "state");
}

#[test]
fn value_is_written_through_get_mut() {
    let mut v = Value::new(Box::new(1u8));
    assert!(v.get_mut::<u16>().is_none());
    assert_eq!(v.get::<u8>(), Some(&1));
    if let Some(payload) = v.get_mut::<u8>() {
        *payload = 2;
    }
    assert_eq!(v.get::<u8>(), Some(&2));
    assert!(v.is::<u8>());
    *v.unwrap_mut::<u8>() += 5;
    assert_eq!(v.unwrap::<u8>(), &7);
    assert_eq!(v.consume::<u8>(), 7);
}

#[test]
fn value_into_cloned_leaves_the_payload() {
    let v = Value::new(Box::new(vec![1, 2, 3]));
    let mut copy = v.into_cloned::<Vec<i32>>().unwrap();
    copy.push(4);
    assert_eq!(copy, vec![1, 2, 3, 4]);
    assert_eq!(v.unwrap::<Vec<i32>>(), &vec![1, 2, 3]);
}
