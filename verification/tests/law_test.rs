use prism_runtime::any::{AnyDynamic, AnyEvent, AnyEventTrigger};
use prism_runtime::behavior::{Behavior, BehaviorComputation};
use prism_runtime::dynamic::Dynamic;
use prism_runtime::event::{Event, EventLog};
use prism_runtime::runtime::Runtime;
use prism_runtime::script::{Mismatch, TestValue};
use prism_runtime::slots::{SlotError, Slots};
use prism_runtime::value::{same_value, AnyValue, PrismArc, Value};
use std::sync::Arc;

const DOUBLE: usize = 0;
const ADD: usize = 1;
const SUM_ALL: usize = 2;
const EVEN_ONLY: usize = 3;
const NOTHING: usize = 4;

fn u32_of(v: &AnyValue) -> Option<u32> {
    match v {
        AnyValue::U32(x) => Some(*x),
        _ => None,
    }
}

fn dispatch(f: usize, xs: &Vec<AnyValue>) -> Option<AnyValue> {
    match f {
        DOUBLE => Some(AnyValue::U32(u32_of(&xs[0])? * 2)),
        ADD => Some(AnyValue::U32(u32_of(&xs[0])? + u32_of(&xs[1])?)),
        SUM_ALL => {
            let mut total = 0;
            for x in xs {
                total += u32_of(x)?;
            }
            Some(AnyValue::U32(total))
        }
        EVEN_ONLY => {
            let x = u32_of(&xs[0])?;
            if x % 2 == 0 {
                Some(AnyValue::U32(x))
            } else {
                None
            }
        }
        _ => None,
    }
}

fn heard(rt: &Runtime, log: &EventLog<u32>) -> Vec<u32> {
    rt.heard(log).iter().map(|v| u32_of(v).unwrap()).collect()
}

fn value_u32(v: Option<AnyValue>) -> u32 {
    u32_of(&v.unwrap()).unwrap()
}

#[test]
fn trigger_stays_scheduled_until_propagation() {
    let mut rt = Runtime::new();
    let (event, trigger) = Event::<u32>::external(&mut rt);
    let log = event.trace(&mut rt);
    assert!(!rt.is_scheduled(&trigger));
    rt.schedule_trigger(&trigger, Value::from(1u32));
    assert!(rt.is_scheduled(&trigger));
    assert!(!rt.is_propagating());
    assert!(rt.propagate(&dispatch).is_ok());
    // After propagating, the trigger can be scheduled again.
    assert!(!rt.is_scheduled(&trigger));
    rt.schedule_trigger(&trigger, Value::from(3u32));
    assert!(rt.propagate(&dispatch).is_ok());
    assert_eq!(heard(&rt, &log), vec![1, 3]);
}

#[test]
fn listener_hears_every_trigger_in_order() {
    let mut rt = Runtime::new();
    let (event, trigger) = Event::<u32>::external(&mut rt);
    let log = event.trace(&mut rt);
    for v in [5u32, 7, 5, 0] {
        rt.schedule_trigger(&trigger, Value::from(v));
        rt.propagate(&dispatch).unwrap();
    }
    assert_eq!(heard(&rt, &log), vec![5, 7, 5, 0]);
    assert_eq!(rt.heard_len(&log), 4);
    assert!(same_value(rt.heard_at(&log, 1), &AnyValue::U32(7)));
}

#[test]
fn stopped_listener_hears_nothing_more() {
    let mut rt = Runtime::new();
    let (event, trigger) = Event::<u32>::external(&mut rt);
    let log = event.trace(&mut rt);
    let other = event.trace(&mut rt);
    rt.schedule_trigger(&trigger, Value::from(1u32));
    rt.propagate(&dispatch).unwrap();
    rt.stop_listening(log);
    rt.schedule_trigger(&trigger, Value::from(2u32));
    rt.propagate(&dispatch).unwrap();
    assert_eq!(heard(&rt, &log), vec![1]);
    assert_eq!(heard(&rt, &other), vec![1, 2]);
}

#[test]
fn nothing_heard_without_propagating() {
    let mut rt = Runtime::new();
    let (event, trigger) = Event::<u32>::external(&mut rt);
    let log = event.trace(&mut rt);
    rt.schedule_trigger(&trigger, Value::from(1u32));
    assert_eq!(heard(&rt, &log), Vec::<u32>::new());
}

#[test]
fn never_never_fires_and_filter_filters() {
    let mut rt = Runtime::new();
    let never = Event::<u32>::never(&mut rt);
    let never_log = never.trace(&mut rt);
    let (event, trigger) = Event::<u32>::external(&mut rt);
    let evens: Event<u32> = event.filter_map(&mut rt, EVEN_ONLY);
    let log = evens.trace(&mut rt);
    for v in [1u32, 2, 3, 4] {
        rt.schedule_trigger(&trigger, Value::from(v));
        rt.propagate(&dispatch).unwrap();
    }
    assert_eq!(heard(&rt, &log), vec![2, 4]);
    assert_eq!(heard(&rt, &never_log), Vec::<u32>::new());
}

#[test]
fn behavior_values_follow_their_functions() {
    let mut rt = Runtime::new();
    let three = Behavior::constant(&mut rt, Value::from(3u32));
    let four = Behavior::constant(&mut rt, Value::from(4u32));
    let doubled: Behavior<u32> = three.map(&mut rt, DOUBLE);
    let sum: Behavior<u32> = Behavior::map2(&mut rt, ADD, &doubled, &four);
    let all: Behavior<u32> = Behavior::computation_behavior(
        &mut rt,
        BehaviorComputation { inputs: vec![three.id(), four.id(), sum.id()], function: SUM_ALL },
    );
    let broken: Behavior<u32> = three.map(&mut rt, NOTHING);
    assert_eq!(value_u32(three.query(&rt, &dispatch)), 3);
    assert_eq!(value_u32(doubled.query(&rt, &dispatch)), 6);
    assert_eq!(value_u32(sum.query(&rt, &dispatch)), 10);
    assert_eq!(value_u32(all.query(&rt, &dispatch)), 17);
    assert!(broken.query(&rt, &dispatch).is_none());
}

#[test]
fn join_follows_the_current_inner_behavior() {
    let mut rt = Runtime::new();
    let a = Behavior::constant(&mut rt, Value::from(1u32));
    let b = Behavior::constant(&mut rt, Value::from(2u32));
    let (switch, trigger) = Event::<Behavior<u32>>::external(&mut rt);
    let outer = Behavior::hold(&mut rt, Value::from(a), &switch);
    let joined = outer.join(&mut rt);
    assert_eq!(value_u32(joined.query(&rt, &dispatch)), 1);
    rt.schedule_trigger(&trigger, Value::from(b));
    rt.propagate(&dispatch).unwrap();
    assert_eq!(value_u32(joined.query(&rt, &dispatch)), 2);
}

#[test]
fn held_value_changes_only_after_the_occurrence() {
    let mut rt = Runtime::new();
    let (update, update_trigger) = Event::<u32>::external(&mut rt);
    let (query, query_trigger) = Event::<()>::external(&mut rt);
    let held = Behavior::hold(&mut rt, Value::from(0u32), &update);
    let tagged: Event<u32> = query.tag_map(&mut rt, 100, &held);
    let _ = tagged;
    assert_eq!(value_u32(held.query(&rt, &dispatch)), 0);
    rt.schedule_trigger(&update_trigger, Value::from(9u32));
    rt.schedule_trigger(&query_trigger, Value::from(()));
    rt.propagate(&dispatch).unwrap();
    assert_eq!(value_u32(held.query(&rt, &dispatch)), 9);
}

#[test]
fn tag_reads_the_value_before_the_occurrence() {
    let mut rt = Runtime::new();
    let (event, trigger) = Event::<u32>::external(&mut rt);
    let held = Behavior::hold(&mut rt, Value::from(1u32), &event);
    let tagged: Event<u32> = event.tag_map(&mut rt, ADD, &held);
    let log = tagged.trace(&mut rt);
    rt.schedule_trigger(&trigger, Value::from(10u32));
    rt.propagate(&dispatch).unwrap();
    rt.schedule_trigger(&trigger, Value::from(20u32));
    rt.propagate(&dispatch).unwrap();
    assert_eq!(heard(&rt, &log), vec![11, 30]);
    assert_eq!(value_u32(held.query(&rt, &dispatch)), 20);
}

#[test]
fn dynamics_move_both_sides_together() {
    let mut rt = Runtime::new();
    let (event, trigger) = Event::<u32>::external(&mut rt);
    let d = Dynamic::hold(&mut rt, Value::from(1u32), &event);
    let doubled: Dynamic<u32> = d.map(&mut rt, DOUBLE);
    let c = Dynamic::constant(&mut rt, Value::from(10u32));
    let sum: Dynamic<u32> = Dynamic::map2(&mut rt, &doubled, &c, ADD);
    let sum_log = sum.event().trace(&mut rt);
    let constant_log = c.event().trace(&mut rt);
    assert_eq!(value_u32(sum.behavior().query(&rt, &dispatch)), 12);
    rt.schedule_trigger(&trigger, Value::from(4u32));
    rt.propagate(&dispatch).unwrap();
    assert_eq!(value_u32(doubled.behavior().query(&rt, &dispatch)), 8);
    assert_eq!(value_u32(sum.behavior().query(&rt, &dispatch)), 18);
    assert_eq!(heard(&rt, &sum_log), vec![18]);
    assert_eq!(heard(&rt, &constant_log), Vec::<u32>::new());
    let as_behavior: Behavior<u32> = sum.clone().into();
    assert_eq!(as_behavior.id(), sum.behavior().id());
}

#[test]
fn map2_uses_both_new_values_when_both_change() {
    let mut rt = Runtime::new();
    let (ea, ta) = Event::<u32>::external(&mut rt);
    let (eb, tb) = Event::<u32>::external(&mut rt);
    let a = Dynamic::hold(&mut rt, Value::from(1u32), &ea);
    let b = Dynamic::hold(&mut rt, Value::from(2u32), &eb);
    let sum: Dynamic<u32> = Dynamic::map2(&mut rt, &a, &b, ADD);
    let log = sum.event().trace(&mut rt);
    rt.schedule_trigger(&ta, Value::from(10u32));
    rt.propagate(&dispatch).unwrap();
    rt.schedule_trigger(&ta, Value::from(20u32));
    rt.schedule_trigger(&tb, Value::from(30u32));
    rt.propagate(&dispatch).unwrap();
    rt.schedule_trigger(&tb, Value::from(5u32));
    rt.propagate(&dispatch).unwrap();
    assert_eq!(heard(&rt, &log), vec![12, 50, 25]);
    assert_eq!(value_u32(sum.behavior().query(&rt, &dispatch)), 25);
}

#[test]
fn slots_find_by_name_and_index() {
    let mut slots: Slots<u32> = Slots::default();
    assert_eq!(slots.len(), 0);
    assert_eq!(slots.add("a".to_string(), 1), 0);
    assert_eq!(slots.add("b".to_string(), 2), 1);
    assert_eq!(slots.len(), 2);
    assert_eq!(slots.index_for_name("b"), Some(1));
    assert_eq!(slots.index_for_name("c"), None);
    assert_eq!(slots.get_name("a"), Some(&1));
    assert_eq!(slots.get_index(1), Some(&2));
    assert_eq!(slots.get_index(2), None);
    assert!(slots.update_name("a", 7).is_ok());
    assert_eq!(slots.get_name("a"), Some(&7));
    assert!(matches!(slots.update_name("zzz", 3), Err(SlotError::NameNotFound(n)) if n == "zzz"));
    assert!(slots.update_index(1, 8).is_ok());
    assert_eq!(slots.get_index(1), Some(&8));
    assert!(matches!(slots.update_index(5, 3), Err(SlotError::IndexNotFound(5))));
    assert_eq!(slots.name_at(1), "b");
}

#[test]
fn erased_handles_give_back_only_their_type() {
    let mut rt = Runtime::new();
    let (event, trigger) = Event::<u32>::external(&mut rt);
    let any_event = AnyEvent::new(&mut rt, &event);
    assert!(any_event.matches_inner_type::<u32>());
    assert!(!any_event.matches_inner_type::<i32>());
    assert_eq!(any_event.try_get::<u32>().map(|e| e.id()), Some(event.id()));
    assert!(any_event.try_get::<()>().is_none());
    let (wrapped, _wrapped_trigger) = Event::<Arc<u32>>::external(&mut rt);
    let any_wrapped = AnyEvent::new(&mut rt, &wrapped);
    assert!(any_wrapped.try_get::<Arc<Value<u32>>>().is_none());
    assert!(any_wrapped.try_get::<Arc<u32>>().is_some());
    assert_eq!(any_event.get::<u32>().id(), event.id());
    let converted_log = any_event.as_any_event().trace(&mut rt);

    let any_trigger = AnyEventTrigger::new(&trigger);
    assert_eq!(any_trigger.value_type_name(), "u32");
    assert!(any_trigger.try_get::<Arc<u32>>().is_none());
    let back = any_trigger.get::<u32>();
    rt.schedule_trigger(&back, Value::from(6u32));
    rt.propagate(&dispatch).unwrap();
    assert_eq!(rt.heard(&converted_log).len(), 1);
    assert!(same_value(&rt.heard(&converted_log)[0], &AnyValue::U32(6)));

    let d = Dynamic::constant(&mut rt, Value::from(String::from("hi")));
    let any_dynamic = AnyDynamic::new(&mut rt, &d);
    assert!(any_dynamic.try_get::<u32>().is_none());
    assert_eq!(any_dynamic.get::<String>().behavior().id(), d.behavior().id());
    let value = any_dynamic.as_any_dynamic().behavior().query(&rt, &dispatch).unwrap();
    assert!(same_value(&value, &AnyValue::Str("hi".to_string())));
}

#[test]
fn test_values_compare_by_type_then_value() {
    assert!(5u32.assert_eq(AnyValue::U32(5)).is_ok());
    assert!(matches!(5u32.assert_eq(AnyValue::U32(6)), Err(Mismatch::Value { .. })));
    match 5u32.assert_eq(AnyValue::I32(5)) {
        Err(Mismatch::Type(m)) => {
            assert_eq!(m.expected, "u32");
            assert_eq!(m.actual, "i32");
        }
        _ => panic!("expected a type mismatch"),
    }
    let s = Arc::new("x".to_string());
    assert!(s.assert_eq(AnyValue::Heap(Box::new(AnyValue::Str("x".to_string())))).is_ok());

    let mut rt = Runtime::new();
    let (_event, trigger) = Event::<u32>::external(&mut rt);
    let any_trigger = AnyEventTrigger::new(&trigger);
    match 1i32.trigger(&mut rt, &any_trigger) {
        Err(Mismatch::Type(m)) => {
            assert_eq!(m.expected, "i32");
            assert_eq!(m.actual, "u32");
        }
        _ => panic!("expected a type mismatch"),
    }
    assert!(1u32.trigger(&mut rt, &any_trigger).is_ok());
}

#[test]
fn values_round_trip_through_their_representation() {
    let v = PrismArc::new(41u32);
    assert!(same_value(&v.to_any_value(), &AnyValue::Heap(Box::new(AnyValue::U32(41)))));
    assert_eq!(v.extract(), 41);
    let pair = Value::from((1u32, -2i32));
    let any: AnyValue = pair.into();
    assert_eq!(any.type_string(), "(u32, i32)");
    let back = any.try_downcast::<(u32, i32)>().unwrap();
    assert_eq!(back.get(), (1, -2));
    let wrong = AnyValue::U32(1).try_downcast::<i32>();
    match wrong {
        Err(m) => {
            assert_eq!(m.expected, "i32");
            assert_eq!(m.actual, "u32");
        }
        Ok(_) => panic!("expected a type mismatch"),
    }
}

#[test]
fn hold_keeps_its_value_when_its_event_does_not_fire() {
    let mut rt = Runtime::new();
    let (a, ta) = Event::<u32>::external(&mut rt);
    let (b, tb) = Event::<u32>::external(&mut rt);
    let held = Behavior::hold(&mut rt, Value::from(3u32), &a);
    let log = b.trace(&mut rt);
    rt.schedule_trigger(&tb, Value::from(9u32));
    rt.propagate(&dispatch).unwrap();
    assert_eq!(heard(&rt, &log), vec![9]);
    assert_eq!(value_u32(held.query(&rt, &dispatch)), 3);
    rt.schedule_trigger(&ta, Value::from(4u32));
    rt.propagate(&dispatch).unwrap();
    assert_eq!(value_u32(held.query(&rt, &dispatch)), 4);
}
