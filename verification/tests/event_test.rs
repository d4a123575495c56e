use prism_runtime::behavior::Behavior;
use prism_runtime::event::{Event, EventLog};
use prism_runtime::runtime::Runtime;
use prism_runtime::value::{AnyValue, Value};

/// Function numbers of the user functions these tests use.
const DECREMENT_NONZERO: usize = 0;
const ADD: usize = 1;
const SECOND: usize = 2;
const PLUS_ONE: usize = 3;

fn u32_of(v: &AnyValue) -> Option<u32> {
    match v {
        AnyValue::U32(x) => Some(*x),
        _ => None,
    }
}

fn dispatch(f: usize, xs: &Vec<AnyValue>) -> Option<AnyValue> {
    match f {
        DECREMENT_NONZERO => match u32_of(&xs[0])? {
            0 => None,
            x => Some(AnyValue::U32(x - 1)),
        },
        ADD => Some(AnyValue::U32(u32_of(&xs[0])? + u32_of(&xs[1])?)),
        SECOND => match &xs[0] {
            AnyValue::Heap(p) => match &**p {
                AnyValue::Pair(_, b) => Some((**b).clone()),
                _ => None,
            },
            _ => None,
        },
        PLUS_ONE => Some(AnyValue::U32(u32_of(&xs[0])? + 1)),
        _ => None,
    }
}

fn heard_u32(rt: &Runtime, log: &EventLog<u32>) -> Vec<u32> {
    rt.heard(log)
        .into_iter()
        .map(|v| v.try_downcast::<u32>().unwrap().get())
        .collect()
}

#[test]
fn test_event_filter_test() {
    let mut runtime = Runtime::new();
    let (event, trigger) = Event::<u32>::external(&mut runtime);
    let filter_zero_event: Event<u32> = event.filter_map(&mut runtime, DECREMENT_NONZERO);
    let filter_zero_logger = filter_zero_event.trace(&mut runtime);

    runtime.schedule_trigger(&trigger, Value::from(2u32));
    runtime.propagate(&dispatch).unwrap();
    runtime.schedule_trigger(&trigger, Value::from(0u32));
    runtime.propagate(&dispatch).unwrap();
    runtime.schedule_trigger(&trigger, Value::from(2u32));
    runtime.propagate(&dispatch).unwrap();
    assert_eq!(heard_u32(&runtime, &filter_zero_logger), vec![1, 1]);
}

#[test]
fn hold_test() {
    let mut runtime = Runtime::new();
    let (event1, trigger1) = Event::<u32>::external(&mut runtime);
    let (event2, trigger2) = Event::<()>::external(&mut runtime);

    let hold_behavior = Behavior::hold(&mut runtime, Value::from(0u32), &event1);
    let const_behavior = Behavior::constant(&mut runtime, Value::from(1u32));
    let derived_behavior: Behavior<u32> =
        Behavior::map2(&mut runtime, ADD, &hold_behavior, &const_behavior);
    let tag_event = event2.tag(&mut runtime, &derived_behavior);
    let last_event: Event<u32> = tag_event.filter_map(&mut runtime, SECOND);
    let last_event_logger = last_event.trace(&mut runtime);

    runtime.schedule_trigger(&trigger2, Value::from(()));
    runtime.propagate(&dispatch).unwrap(); // 0
    runtime.schedule_trigger(&trigger1, Value::from(2u32));
    runtime.propagate(&dispatch).unwrap();
    runtime.schedule_trigger(&trigger1, Value::from(4u32));
    runtime.propagate(&dispatch).unwrap();
    // behavior has 4
    runtime.schedule_trigger(&trigger2, Value::from(()));
    runtime.propagate(&dispatch).unwrap(); // 4
    runtime.schedule_trigger(&trigger2, Value::from(()));
    runtime.propagate(&dispatch).unwrap(); // 4
    runtime.schedule_trigger(&trigger1, Value::from(3u32));
    runtime.schedule_trigger(&trigger2, Value::from(()));
    runtime.propagate(&dispatch).unwrap(); // still 4, not prompt
    runtime.schedule_trigger(&trigger2, Value::from(()));
    runtime.propagate(&dispatch).unwrap(); // 3

    // Everything's incremented by 1 b/c we added to the other behavior
    assert_eq!(heard_u32(&runtime, &last_event_logger), vec![1, 5, 5, 5, 4]);
}

#[test]
fn switch_hold_test() {
    let mut runtime = Runtime::new();
    let (outer_event, outer_trigger) = Event::<Event<u32>>::external(&mut runtime);
    let last_event = outer_event.switch_hold(&mut runtime);
    let last_event_logger = last_event.trace(&mut runtime);

    let (inner_event, inner_trigger) = Event::<u32>::external(&mut runtime);
    let inner_event_plus_1: Event<u32> = inner_event.filter_map(&mut runtime, PLUS_ONE);
    let inner_event_plus_2: Event<u32> = inner_event_plus_1.filter_map(&mut runtime, PLUS_ONE);
    let inner_event_plus_3: Event<u32> = inner_event_plus_2.filter_map(&mut runtime, PLUS_ONE);
    let inner_event_plus_4: Event<u32> = inner_event_plus_3.filter_map(&mut runtime, PLUS_ONE);
    let inner_event_plus_5: Event<u32> = inner_event_plus_4.filter_map(&mut runtime, PLUS_ONE);

    runtime.schedule_trigger(&inner_trigger, Value::from(0u32));
    runtime.propagate(&dispatch).unwrap();
    runtime.schedule_trigger(&outer_trigger, Value::from(inner_event));
    runtime.schedule_trigger(&inner_trigger, Value::from(0u32));
    runtime.propagate(&dispatch).unwrap();
    runtime.schedule_trigger(&inner_trigger, Value::from(0u32));
    runtime.propagate(&dispatch).unwrap(); // Now 0
    runtime.schedule_trigger(&outer_trigger, Value::from(inner_event_plus_5));
    runtime.schedule_trigger(&inner_trigger, Value::from(0u32));
    runtime.propagate(&dispatch).unwrap(); // Also 0
    runtime.schedule_trigger(&inner_trigger, Value::from(0u32));
    runtime.propagate(&dispatch).unwrap(); // Now it's 5
    runtime.schedule_trigger(&outer_trigger, Value::from(inner_event_plus_3));
    runtime.schedule_trigger(&inner_trigger, Value::from(0u32));
    runtime.propagate(&dispatch).unwrap(); // Also 5
    runtime.schedule_trigger(&inner_trigger, Value::from(0u32));
    runtime.propagate(&dispatch).unwrap(); // Now it's 3

    assert_eq!(heard_u32(&runtime, &last_event_logger), vec![0, 0, 5, 5, 3]);
}
