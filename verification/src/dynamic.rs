//! A [`Dynamic`] is a value that changes over time, implemented with both the
//! push and pull nature of push-pull FRP.
//!
//! It contains an [`Event`] and a [`Behavior`]. The event represents the
//! "push" nature and the behavior the "pull" nature: the event fires whenever
//! the behavior changes, and the behavior always holds the value the event
//! last fired with. Both sides are lazy, so using a dynamic only does work on
//! the side where it is used.

use crate::behavior::Behavior;
use crate::event::Event;
use crate::function::{FnRef, spec_call};
use crate::propagation::merge_pending;
use crate::value::AnyValue;
use crate::runtime::{BehaviorKind, EventKind, Runtime};
use crate::value::{Value, ValueType};
use std::sync::Arc;
use vstd::prelude::*;
use vstd::std_specs::convert::FromSpecImpl;

verus! {

/// What the event of [`Dynamic::map2`] with user function `f` fires with
/// equals what its behavior then holds, `f` of the first value and the
/// second: when only the first side fires with `x` while the second holds
/// `y`, when only the second fires with `y` while the first holds `x`, and
/// when both fire, in whichever order the two firings are merged.
pub proof fn lemma_map2_event_matches_behavior<D: Fn(usize, &Vec<AnyValue>) -> Option<AnyValue>>(
    d: D,
    f: usize,
    x: AnyValue,
    y: AnyValue,
    x_old: AnyValue,
    y_old: AnyValue,
)
    ensures
        spec_call(
            d,
            FnRef::Untag(f),
            seq![spec_call(d, FnRef::WrapFirst, seq![spec_call(d, FnRef::PairUp, seq![x, y])->0])->0],
        ) == spec_call(d, FnRef::User(f), seq![x, y]),
        spec_call(
            d,
            FnRef::Untag(f),
            seq![spec_call(d, FnRef::WrapSecond, seq![spec_call(d, FnRef::PairUp, seq![y, x])->0])->0],
        ) == spec_call(d, FnRef::User(f), seq![x, y]),
        ({
            let first = spec_call(d, FnRef::WrapFirst, seq![spec_call(d, FnRef::PairUp, seq![x, y_old])->0])->0;
            let second = spec_call(d, FnRef::WrapSecond, seq![spec_call(d, FnRef::PairUp, seq![y, x_old])->0])->0;
            &&& spec_call(d, FnRef::Untag(f), seq![merge_pending(second, Some(first))->0]) == spec_call(
                d,
                FnRef::User(f),
                seq![x, y],
            )
            &&& spec_call(d, FnRef::Untag(f), seq![merge_pending(first, Some(second))->0]) == spec_call(
                d,
                FnRef::User(f),
                seq![x, y],
            )
        }),
{
}

broadcast use crate::runtime::group_runtime_defs;

/// A value that changes over time: the event that fires when it changes and
/// the behavior that holds its current value.
#[derive(Debug)]
pub struct Dynamic<T> {
    event: Event<T>,
    behavior: Behavior<T>,
}

impl<T> View for Dynamic<T> {
    /// The event node and the behavior node of the dynamic.
    type V = (usize, usize);

    closed spec fn view(&self) -> (usize, usize) {
        (self.event@, self.behavior@)
    }
}

impl<T> Clone for Dynamic<T> {
    fn clone(&self) -> (r: Self)
        ensures
            r@ == self@,
    {
        Dynamic { event: self.event, behavior: self.behavior }
    }
}

impl<T: ValueType + 'static> Dynamic<T> {
    /// Construct a dynamic from a behavior and an event. The caller keeps
    /// the promise that the behavior always holds the last value the event
    /// fired with.
    pub fn new(behavior: Behavior<T>, event: Event<T>) -> (r: Self)
        ensures
            r@ == (event@, behavior@),
    {
        Dynamic { event, behavior }
    }

    /// The event that fires whenever the dynamic changes.
    pub fn event(&self) -> (r: Event<T>)
        ensures
            r@ == self@.0,
    {
        self.event
    }

    /// The behavior that holds the current value.
    pub fn behavior(&self) -> (r: Behavior<T>)
        ensures
            r@ == self@.1,
    {
        self.behavior
    }

    /// A dynamic that always has the last value of `event`, starting with
    /// the value `initial`.
    pub fn hold(rt: &mut Runtime, initial: Value<T>, event: &Event<T>) -> (r: Self)
        requires
            old(rt).wf(),
            event@ < old(rt).num_events(),
        ensures
            final(rt).wf(),
            r@.0 == event@,
            r@.1 == old(rt).num_behaviors(),
            final(rt).num_behaviors() == old(rt).num_behaviors() + 1,
            final(rt).num_events() == old(rt).num_events(),
            final(rt).behavior_node(r@.1 as int).kind == (BehaviorKind::Hold { event: event@ }),
            final(rt).behavior_node(r@.1 as int).value == initial.any(),
            final(rt).keeps_nodes(*old(rt)),
            old(rt).heights_ok() ==> final(rt).heights_ok(),
            old(rt).idle_queue() ==> final(rt).idle_queue(),
    {
        let behavior = Behavior::hold(rt, initial, event);
        Dynamic { event: *event, behavior }
    }

    /// A dynamic that always has the value `val`.
    pub fn constant(rt: &mut Runtime, val: Value<T>) -> (r: Self)
        requires
            old(rt).wf(),
        ensures
            final(rt).wf(),
            r@.0 == old(rt).num_events(),
            r@.1 == old(rt).num_behaviors(),
            final(rt).num_events() == old(rt).num_events() + 1,
            final(rt).num_behaviors() == old(rt).num_behaviors() + 1,
            final(rt).event_node(r@.0 as int).kind is Never,
            final(rt).behavior_node(r@.1 as int).kind is Constant,
            final(rt).behavior_node(r@.1 as int).value == val.any(),
            final(rt).keeps_nodes(*old(rt)),
            old(rt).heights_ok() ==> final(rt).heights_ok(),
            old(rt).idle_queue() ==> final(rt).idle_queue(),
    {
        let behavior = Behavior::constant(rt, val);
        let event = Event::never(rt);
        Dynamic { event, behavior }
    }

    /// A dynamic that always has the value `f(v)`, where `v` is the current
    /// value of this one and `f` the user function with number `f`.
    pub fn map<O: ValueType + 'static>(&self, rt: &mut Runtime, f: usize) -> (r: Dynamic<O>)
        requires
            old(rt).wf(),
            self@.0 < old(rt).num_events(),
            self@.1 < old(rt).num_behaviors(),
        ensures
            final(rt).wf(),
            r@.0 == old(rt).num_events(),
            r@.1 == old(rt).num_behaviors(),
            final(rt).num_events() == old(rt).num_events() + 1,
            final(rt).num_behaviors() == old(rt).num_behaviors() + 1,
            final(rt).event_node(r@.0 as int).kind == (EventKind::FilterMap {
                inner: self@.0,
                f: FnRef::User(f),
            }),
            final(rt).behavior_node(r@.1 as int).kind == (BehaviorKind::Apply {
                input: self@.1,
                f: FnRef::User(f),
            }),
            final(rt).keeps_nodes(*old(rt)),
            old(rt).heights_ok() ==> final(rt).heights_ok(),
            old(rt).idle_queue() ==> final(rt).idle_queue(),
    {
        self.map_with(rt, FnRef::User(f))
    }

    /// A dynamic that always has the value `f` of the value of this one.
    pub(crate) fn map_with<O: ValueType + 'static>(&self, rt: &mut Runtime, f: FnRef) -> (r: Dynamic<O>)
        requires
            old(rt).wf(),
            self@.0 < old(rt).num_events(),
            self@.1 < old(rt).num_behaviors(),
        ensures
            final(rt).wf(),
            r@.0 == old(rt).num_events(),
            r@.1 == old(rt).num_behaviors(),
            final(rt).num_events() == old(rt).num_events() + 1,
            final(rt).num_behaviors() == old(rt).num_behaviors() + 1,
            final(rt).event_node(r@.0 as int).kind == (EventKind::FilterMap { inner: self@.0, f }),
            final(rt).behavior_node(r@.1 as int).kind == (BehaviorKind::Apply {
                input: self@.1,
                f,
            }),
            final(rt).keeps_nodes(*old(rt)),
            old(rt).heights_ok() ==> final(rt).heights_ok(),
            old(rt).idle_queue() ==> final(rt).idle_queue(),
    {
        let behavior: Behavior<O> = self.behavior.map_with(rt, f);
        let id = rt.add_event(EventKind::FilterMap { inner: self.event.id(), f });
        Dynamic { event: Event::from_id(id), behavior }
    }

    /// Combine two dynamics with the user function `f`: the result always
    /// equals `f(a, b)` for the current values `a` and `b`, even when both
    /// change in the same occurrence. Its event fires when either fires,
    /// with `f` of the new value of the one that fired and the value the
    /// other had, or of both new values when both fired.
    pub fn map2<A: ValueType + 'static, B: ValueType + 'static>(
        rt: &mut Runtime,
        a: &Dynamic<A>,
        b: &Dynamic<B>,
        f: usize,
    ) -> (r: Self)
        requires
            old(rt).wf(),
            a@.0 < old(rt).num_events(),
            a@.1 < old(rt).num_behaviors(),
            b@.0 < old(rt).num_events(),
            b@.1 < old(rt).num_behaviors(),
        ensures
            final(rt).wf(),
            r@.1 == old(rt).num_behaviors(),
            r@.0 == old(rt).num_events() + 4,
            final(rt).num_behaviors() == old(rt).num_behaviors() + 1,
            final(rt).num_events() == old(rt).num_events() + 5,
            final(rt).behavior_node(r@.1 as int).kind == (BehaviorKind::Apply2 {
                a: a@.1,
                b: b@.1,
                f2: FnRef::User(f),
            }),
            final(rt).event_node(old(rt).num_events() as int).kind == (EventKind::Tag {
                event: a@.0,
                behavior: b@.1,
                tagger: FnRef::PairUp,
            }),
            final(rt).event_node(old(rt).num_events() + 1int).kind == (EventKind::Tag {
                event: b@.0,
                behavior: a@.1,
                tagger: FnRef::PairUp,
            }),
            final(rt).event_node(old(rt).num_events() + 2int).kind == (EventKind::FilterMap {
                inner: (old(rt).num_events()) as usize,
                f: FnRef::WrapFirst,
            }),
            final(rt).event_node(old(rt).num_events() + 3int).kind == (EventKind::FilterMap {
                inner: (old(rt).num_events() + 1) as usize,
                f: FnRef::WrapSecond,
            }),
            final(rt).event_node(r@.0 as int).kind == (EventKind::Combine {
                a: (old(rt).num_events() + 2) as usize,
                b: (old(rt).num_events() + 3) as usize,
                combiner: FnRef::Untag(f),
            }),
            final(rt).keeps_nodes(*old(rt)),
            old(rt).heights_ok() ==> final(rt).heights_ok(),
            old(rt).idle_queue() ==> final(rt).idle_queue(),
    {
        let ghost s0 = *rt;
        let behavior: Behavior<T> = Behavior::map2(rt, f, &a.behavior, &b.behavior);
        let a_event: Event<Arc<(Value<A>, Value<B>)>> = a.event.tag(rt, &b.behavior);
        let b_event: Event<Arc<(Value<B>, Value<A>)>> = b.event.tag(rt, &a.behavior);
        let event: Event<T> = Event::combine_with(rt, FnRef::Untag(f), &a_event, &b_event);
        Dynamic { event, behavior }
    }
}

impl<T: ValueType + 'static> From<Dynamic<T>> for Behavior<T> {
    /// The behavior of a dynamic.
    fn from(value: Dynamic<T>) -> (r: Behavior<T>) {
        value.behavior
    }
}

impl<T: ValueType + 'static> FromSpecImpl<Dynamic<T>> for Behavior<T> {
    open spec fn obeys_from_spec() -> bool {
        true
    }

    closed spec fn from_spec(v: Dynamic<T>) -> Behavior<T> {
        v.behavior
    }
}

} // verus!
