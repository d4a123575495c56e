use prism_runtime::backend::TestBackend;
use prism_runtime::dynamic::Dynamic;
use prism_runtime::event::Event;
use prism_runtime::runtime::Runtime;
use prism_runtime::script::{crickets, delay_trigger, dynamic, event, script, TestStep};
use prism_runtime::value::{AnyValue, Value};
use std::sync::Arc;

const DECREMENT_NONZERO: usize = 0;
const ADD: usize = 1;
const SECOND: usize = 2;
const DESCRIBE: usize = 3;
const ADD_0: usize = 10;
const ADD_3: usize = 13;
const ADD_4: usize = 14;
const INNER_FOR: usize = 20;

fn u32_of(v: &AnyValue) -> Option<u32> {
    match v {
        AnyValue::U32(x) => Some(*x),
        _ => None,
    }
}

fn heap_str(v: &AnyValue) -> Option<String> {
    match v {
        AnyValue::Heap(b) => match &**b {
            AnyValue::Str(s) => Some(s.clone()),
            _ => None,
        },
        _ => None,
    }
}

fn text(s: String) -> AnyValue {
    AnyValue::Heap(Box::new(AnyValue::Str(s)))
}

/// The user functions of these tests. `inner_events` gives, for each outer
/// value of the switching test, the event that adds it to the inner value.
fn dispatcher(inner_events: Vec<(u32, usize)>) -> impl Fn(usize, &Vec<AnyValue>) -> Option<AnyValue> {
    move |f: usize, xs: &Vec<AnyValue>| match f {
        DECREMENT_NONZERO => match u32_of(&xs[0])? {
            0 => None,
            x => Some(AnyValue::U32(x - 1)),
        },
        ADD => Some(AnyValue::U32(u32_of(&xs[0])? + u32_of(&xs[1])?)),
        SECOND => match &xs[0] {
            AnyValue::Heap(p) => match &**p {
                AnyValue::Pair(_, b) => Some((**b).clone()),
                _ => None,
            },
            _ => None,
        },
        DESCRIBE => match &xs[0] {
            AnyValue::First(a) => Some(text(format!("a={}", u32_of(a)?))),
            AnyValue::Second(b) => Some(text(format!("b={}", heap_str(b)?))),
            AnyValue::Both(a, b) => Some(text(format!("a={} b={}", u32_of(a)?, heap_str(b)?))),
            _ => None,
        },
        ADD_0 => Some(AnyValue::U32(u32_of(&xs[0])?)),
        ADD_3 => Some(AnyValue::U32(u32_of(&xs[0])? + 3)),
        ADD_4 => Some(AnyValue::U32(u32_of(&xs[0])? + 4)),
        INNER_FOR => {
            let outer = u32_of(&xs[0])?;
            inner_events
                .iter()
                .find(|(k, _)| *k == outer)
                .map(|(_, e)| AnyValue::Event(*e))
        }
        _ => None,
    }
}

fn run(
    backend: &mut TestBackend,
    runtime: &mut Runtime,
    d: &impl Fn(usize, &Vec<AnyValue>) -> Option<AnyValue>,
    steps: Vec<TestStep>,
) {
    if let Err(err) = script(steps).run(backend, runtime, d) {
        panic!("step={}: {:?}", err.index, err.error);
    }
}

#[test]
fn tests_event_filter_test() {
    let mut runtime = Runtime::new();
    let mut backend = TestBackend::new();
    let unfiltered = backend.add_external_event::<u32>(&mut runtime, "unfiltered");
    let filter_zero_event: Event<u32> = unfiltered.filter_map(&mut runtime, DECREMENT_NONZERO);
    backend.add_public_event(&mut runtime, "filtered", &filter_zero_event);

    run(
        &mut backend,
        &mut runtime,
        &dispatcher(vec![]),
        vec![
            prism_runtime::script::trigger(vec![], "unfiltered", 2u32),
            event(vec![], "filtered", 1u32),
            prism_runtime::script::trigger(vec![], "unfiltered", 0u32),
            prism_runtime::script::trigger(vec![], "unfiltered", 0u32),
            prism_runtime::script::trigger(vec![], "unfiltered", 2u32),
            event(vec![], "filtered", 1u32),
            prism_runtime::script::trigger(vec![], "unfiltered", 0u32),
        ],
    );
}

#[test]
fn switch_hold_test2() {
    let mut runtime = Runtime::new();
    let mut backend = TestBackend::new();
    let outer = backend.add_external_event::<u32>(&mut runtime, "outer");
    let inner = backend.add_external_event::<u32>(&mut runtime, "inner");
    // The event "inner plus outer", for each outer value the script uses.
    let plus_0: Event<u32> = inner.filter_map(&mut runtime, ADD_0);
    let plus_3: Event<u32> = inner.filter_map(&mut runtime, ADD_3);
    let plus_4: Event<u32> = inner.filter_map(&mut runtime, ADD_4);
    let d = dispatcher(vec![(0, plus_0.id()), (3, plus_3.id()), (4, plus_4.id())]);

    let outer_event: Event<Event<u32>> = outer.filter_map(&mut runtime, INNER_FOR);
    let switched = outer_event.switch_hold(&mut runtime);
    backend.add_public_event(&mut runtime, "output", &switched);

    run(
        &mut backend,
        &mut runtime,
        &d,
        vec![
            // Outer event has not fired
            prism_runtime::script::trigger(vec![], "inner", 0u32),
            prism_runtime::script::trigger(vec![], "inner", 0u32),
            prism_runtime::script::trigger(vec![], "inner", 0u32),
            crickets(),
            // Now fire outer event, simultaneously to new inner
            delay_trigger(vec![], "outer", 0u32),
            prism_runtime::script::trigger(vec![], "inner", 0u32),
            crickets(),
            // Now fire inner
            prism_runtime::script::trigger(vec![], "inner", 0u32),
            event(vec![], "output", 0u32),
            prism_runtime::script::trigger(vec![], "inner", 1u32),
            event(vec![], "output", 1u32),
            // Update outer event, twice
            prism_runtime::script::trigger(vec![], "outer", 3u32),
            crickets(),
            prism_runtime::script::trigger(vec![], "outer", 4u32),
            crickets(),
            // Fire inner
            prism_runtime::script::trigger(vec![], "inner", 3u32),
            event(vec![], "output", 7u32),
        ],
    );
}

#[test]
fn leftmost_test() {
    let mut runtime = Runtime::new();
    let mut backend = TestBackend::new();
    let left = backend.add_external_event::<u32>(&mut runtime, "left");
    let right = backend.add_external_event::<u32>(&mut runtime, "right");
    let output = Event::leftmost(&mut runtime, &vec![left, right]);
    backend.add_public_event(&mut runtime, "output", &output);

    run(
        &mut backend,
        &mut runtime,
        &dispatcher(vec![]),
        vec![
            crickets(),
            // Just left
            prism_runtime::script::trigger(vec![], "left", 0u32),
            event(vec![], "output", 0u32),
            crickets(),
            // Just right
            prism_runtime::script::trigger(vec![], "right", 3u32),
            event(vec![], "output", 3u32),
            crickets(),
            // Both
            delay_trigger(vec![], "right", 3u32),
            prism_runtime::script::trigger(vec![], "left", 4u32),
            event(vec![], "output", 4u32),
            crickets(),
            // Both reversed
            delay_trigger(vec![], "left", 5u32),
            prism_runtime::script::trigger(vec![], "right", 6u32),
            event(vec![], "output", 5u32),
            crickets(),
        ],
    );
}

#[test]
fn combine_test() {
    let mut runtime = Runtime::new();
    let mut backend = TestBackend::new();
    let a = backend.add_external_event::<u32>(&mut runtime, "a");
    let b = backend.add_external_event::<Arc<String>>(&mut runtime, "b");
    let output: Event<Arc<String>> = Event::combine(&mut runtime, DESCRIBE, &a, &b);
    backend.add_public_event(&mut runtime, "output", &output);

    run(
        &mut backend,
        &mut runtime,
        &dispatcher(vec![]),
        vec![
            crickets(),
            // Just a
            prism_runtime::script::trigger(vec![], "a", 0u32),
            event(vec![], "output", Arc::new("a=0".to_string())),
            crickets(),
            // Just right
            prism_runtime::script::trigger(vec![], "b", Arc::new("hello".to_string())),
            event(vec![], "output", Arc::new("b=hello".to_string())),
            crickets(),
            // Both
            delay_trigger(vec![], "b", Arc::new("hey".to_string())),
            prism_runtime::script::trigger(vec![], "a", 4u32),
            event(vec![], "output", Arc::new("a=4 b=hey".to_string())),
            crickets(),
            // Both reversed
            delay_trigger(vec![], "a", 5u32),
            prism_runtime::script::trigger(vec![], "b", Arc::new("wassup".to_string())),
            event(vec![], "output", Arc::new("a=5 b=wassup".to_string())),
            crickets(),
        ],
    );
}

#[test]
fn hold_map2_test() {
    let mut runtime = Runtime::new();
    let mut backend = TestBackend::new();
    let update = backend.add_external_event::<u32>(&mut runtime, "update");
    let query = backend.add_external_event::<()>(&mut runtime, "query");
    let d_hold = Dynamic::hold(&mut runtime, Value::from(0u32), &update);
    let d_const = Dynamic::constant(&mut runtime, Value::from(10u32));
    let d_combo: Dynamic<u32> = Dynamic::map2(&mut runtime, &d_hold, &d_const, ADD);
    let tagged = query.tag(&mut runtime, &d_combo.behavior());
    let output: Event<u32> = tagged.filter_map(&mut runtime, SECOND);
    backend.add_public_event(&mut runtime, "output", &output);
    backend.add_public_dynamic(&mut runtime, "output", &d_hold);

    // `output` event is offset by 10, `output` dynamic is not
    run(
        &mut backend,
        &mut runtime,
        &dispatcher(vec![]),
        vec![
            // Query
            prism_runtime::script::trigger(vec![], "query", ()),
            event(vec![], "output", 10u32),
            // Update
            prism_runtime::script::trigger(vec![], "update", 4u32),
            crickets(),
            dynamic(vec![], "output", 4u32),
            // Update more
            prism_runtime::script::trigger(vec![], "update", 5u32),
            prism_runtime::script::trigger(vec![], "update", 6u32),
            crickets(),
            dynamic(vec![], "output", 6u32),
            // Query
            prism_runtime::script::trigger(vec![], "query", ()),
            event(vec![], "output", 16u32),
            // Simultaneous, don't be prompt
            delay_trigger(vec![], "update", 7u32),
            prism_runtime::script::trigger(vec![], "query", ()),
            dynamic(vec![], "output", 7u32),
            event(vec![], "output", 16u32),
            // Now it's updated
            prism_runtime::script::trigger(vec![], "query", ()),
            event(vec![], "output", 17u32),
        ],
    );
}

#[test]
fn script_stops_at_first_failing_step() {
    let mut runtime = Runtime::new();
    let mut backend = TestBackend::new();
    let numbers = backend.add_external_event::<u32>(&mut runtime, "numbers");
    backend.add_public_event(&mut runtime, "numbers", &numbers);
    let d = dispatcher(Vec::new());
    let result = script(vec![
        prism_runtime::script::trigger(Vec::new(), "numbers", 4u32),
        event(Vec::new(), "numbers", 4u32),
        event(Vec::new(), "numbers", 4u32),
        prism_runtime::script::trigger(Vec::new(), "numbers", 5u32),
    ])
    .run(&mut backend, &mut runtime, &d);
    match result {
        Err(err) => {
            assert_eq!(err.index, 2);
            assert!(matches!(err.error, prism_runtime::script::StepError::EventsDone));
        }
        Ok(()) => panic!("the third step expects an event that never fired"),
    }
    let empty = script(Vec::new()).run(&mut backend, &mut runtime, &d);
    assert!(empty.is_ok());
}

#[test]
fn failing_crickets_step_takes_the_firing_it_reports() {
    let mut runtime = Runtime::new();
    let mut backend = TestBackend::new();
    let numbers = backend.add_external_event::<u32>(&mut runtime, "numbers");
    backend.add_public_event(&mut runtime, "numbers", &numbers);
    let d = dispatcher(Vec::new());
    let first = script(vec![prism_runtime::script::trigger(Vec::new(), "numbers", 7u32), crickets()])
        .run(&mut backend, &mut runtime, &d);
    match first {
        Err(err) => {
            assert_eq!(err.index, 1);
            match err.error {
                prism_runtime::script::StepError::ExtraEvents(rec) => {
                    assert_eq!(rec.path.name, "numbers");
                    assert!(matches!(rec.value, AnyValue::U32(7)));
                }
                _ => panic!("expected the extra firing"),
            }
        }
        Ok(()) => panic!("the firing of 7 was not expected"),
    }
    // The reported firing was taken: nothing is left to report.
    let second = script(vec![crickets()]).run(&mut backend, &mut runtime, &d);
    assert!(second.is_ok());
}
