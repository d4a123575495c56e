//! Type-erased handles of events, dynamics and triggers, for code that holds
//! them without knowing their value type: a backend, a script. Each remembers
//! the name of its value type and hands the typed handle back only for that
//! type. Events and dynamics also offer a view of their values as
//! [`AnyValue`]s.

use crate::behavior::Behavior;
use crate::dynamic::Dynamic;
use crate::event::{Event, EventTrigger};
use crate::function::FnRef;
use crate::runtime::{BehaviorKind, EventKind, Runtime};
use crate::value::{AnyValue, ValueType};
use vstd::prelude::*;

verus! {

broadcast use crate::runtime::group_runtime_defs;

/// An event of some value type.
#[derive(Debug)]
pub struct AnyEvent {
    inner: usize,
    value_type: String,
    converted: Event<AnyValue>,
}

/// A dynamic of some value type.
#[derive(Debug)]
pub struct AnyDynamic {
    inner: Dynamic<AnyValue>,
    value_type: String,
    converted: Dynamic<AnyValue>,
}

/// A trigger of an external event of some value type.
#[derive(Debug)]
pub struct AnyEventTrigger {
    inner: usize,
    value_type: String,
}

/// An event whose value type is only known at run time.
pub type ErasedEvent = AnyEvent;

/// A dynamic whose value type is only known at run time.
pub type ErasedDynamic = AnyDynamic;

/// A trigger whose value type is only known at run time.
pub type ErasedEventTrigger = AnyEventTrigger;

impl AnyEvent {
    /// The event node held.
    pub closed spec fn inner(self) -> usize {
        self.inner
    }

    /// The name of the value type of the event held.
    pub closed spec fn spec_type_name(self) -> Seq<char> {
        self.value_type@
    }

    /// The event node that fires with the same values, seen as `AnyValue`s.
    pub closed spec fn converted(self) -> usize {
        self.converted@
    }

    /// Erase the value type of `event`.
    pub fn new<T: ValueType + 'static>(rt: &mut Runtime, event: &Event<T>) -> (r: AnyEvent)
        requires
            old(rt).wf(),
            event@ < old(rt).num_events(),
        ensures
            final(rt).wf(),
            r.inner() == event@,
            r.spec_type_name() == T::spec_type_name(),
            r.converted() == old(rt).num_events(),
            final(rt).num_events() == old(rt).num_events() + 1,
            final(rt).num_behaviors() == old(rt).num_behaviors(),
            final(rt).event_node(r.converted() as int).kind == (EventKind::FilterMap {
                inner: event@,
                f: FnRef::Identity,
            }),
            final(rt).keeps_nodes(*old(rt)),
            old(rt).heights_ok() ==> final(rt).heights_ok(),
            old(rt).idle_queue() ==> final(rt).idle_queue(),
    {
        let id = rt.add_event(EventKind::FilterMap { inner: event.id(), f: FnRef::Identity });
        AnyEvent { inner: event.id(), value_type: T::type_string(), converted: Event::from_id(id) }
    }

    /// The event held, if its value type is `T`.
    pub fn try_get<T: ValueType + 'static>(&self) -> (r: Option<Event<T>>)
        ensures
            r is Some <==> self.spec_type_name() == T::spec_type_name(),
            r matches Some(e) ==> e@ == self.inner(),
    {
        if self.matches_inner_type::<T>() {
            Some(Event::from_id(self.inner))
        } else {
            None
        }
    }

    /// The event held; its value type must be `T`.
    pub fn get<T: ValueType + 'static>(&self) -> (r: Event<T>)
        requires
            self.spec_type_name() == T::spec_type_name(),
        ensures
            r@ == self.inner(),
    {
        Event::from_id(self.inner)
    }

    /// Is the value type of the event held `T`?
    pub fn matches_inner_type<T: ValueType + 'static>(&self) -> (r: bool)
        ensures
            r == (self.spec_type_name() == T::spec_type_name()),
    {
        let name = T::type_string();
        self.value_type == name
    }

    /// The event that fires with the same values as the one held, as
    /// `AnyValue`s.
    pub fn as_any_event(&self) -> (r: Event<AnyValue>)
        ensures
            r@ == self.converted(),
    {
        self.converted
    }
}

impl AnyDynamic {
    /// The event node and behavior node of the dynamic held.
    pub closed spec fn inner(self) -> (usize, usize) {
        self.inner@
    }

    /// The name of the value type of the dynamic held.
    pub closed spec fn spec_type_name(self) -> Seq<char> {
        self.value_type@
    }

    /// The dynamic with the same values, seen as `AnyValue`s.
    pub closed spec fn converted(self) -> (usize, usize) {
        self.converted@
    }

    /// Erase the value type of `dynamic`.
    pub fn new<T: ValueType + 'static>(rt: &mut Runtime, dynamic: &Dynamic<T>) -> (r: AnyDynamic)
        requires
            old(rt).wf(),
            dynamic@.0 < old(rt).num_events(),
            dynamic@.1 < old(rt).num_behaviors(),
        ensures
            final(rt).wf(),
            r.inner() == dynamic@,
            r.spec_type_name() == T::spec_type_name(),
            r.converted() == (old(rt).num_events() as usize, old(rt).num_behaviors() as usize),
            final(rt).num_events() == old(rt).num_events() + 1,
            final(rt).num_behaviors() == old(rt).num_behaviors() + 1,
            final(rt).event_node(r.converted().0 as int).kind == (EventKind::FilterMap {
                inner: dynamic@.0,
                f: FnRef::Identity,
            }),
            final(rt).behavior_node(r.converted().1 as int).kind == (BehaviorKind::Apply {
                input: dynamic@.1,
                f: FnRef::Identity,
            }),
            final(rt).keeps_nodes(*old(rt)),
            old(rt).heights_ok() ==> final(rt).heights_ok(),
            old(rt).idle_queue() ==> final(rt).idle_queue(),
    {
        let converted: Dynamic<AnyValue> = dynamic.map_with(rt, FnRef::Identity);
        let inner: Dynamic<AnyValue> = Dynamic::new(
            Behavior::from_id(dynamic.behavior().id()),
            Event::from_id(dynamic.event().id()),
        );
        AnyDynamic { inner, value_type: T::type_string(), converted }
    }

    /// The dynamic held, if its value type is `T`.
    pub fn try_get<T: ValueType + 'static>(&self) -> (r: Option<Dynamic<T>>)
        ensures
            r is Some <==> self.spec_type_name() == T::spec_type_name(),
            r matches Some(d) ==> d@ == self.inner(),
    {
        let name = T::type_string();
        if self.value_type == name {
            Some(self.typed())
        } else {
            None
        }
    }

    /// The dynamic held; its value type must be `T`.
    pub fn get<T: ValueType + 'static>(&self) -> (r: Dynamic<T>)
        requires
            self.spec_type_name() == T::spec_type_name(),
        ensures
            r@ == self.inner(),
    {
        self.typed()
    }

    /// The dynamic held, as a `Dynamic<T>`.
    fn typed<T: ValueType + 'static>(&self) -> (r: Dynamic<T>)
        ensures
            r@ == self.inner(),
    {
        Dynamic::new(
            Behavior::from_id(self.inner.behavior().id()),
            Event::from_id(self.inner.event().id()),
        )
    }

    /// The dynamic with the same values as the one held, as `AnyValue`s.
    pub fn as_any_dynamic(&self) -> (r: Dynamic<AnyValue>)
        ensures
            r@ == self.converted(),
    {
        self.converted.clone()
    }
}

impl AnyEventTrigger {
    /// The external event node the trigger held fires.
    pub closed spec fn inner(self) -> usize {
        self.inner
    }

    /// The name of the value type of the trigger held.
    pub closed spec fn spec_type_name(self) -> Seq<char> {
        self.value_type@
    }

    /// Erase the value type of `trigger`.
    pub fn new<T: ValueType + 'static>(trigger: &EventTrigger<T>) -> (r: AnyEventTrigger)
        ensures
            r.inner() == trigger@,
            r.spec_type_name() == T::spec_type_name(),
    {
        AnyEventTrigger { inner: trigger.id(), value_type: T::type_string() }
    }

    /// The external event node the trigger held fires.
    pub fn inner_id(&self) -> (r: usize)
        ensures
            r == self.inner(),
    {
        self.inner
    }

    /// The name of the value type of the trigger held.
    pub fn value_type_name(&self) -> (r: &str)
        ensures
            r@ == self.spec_type_name(),
    {
        self.value_type.as_str()
    }

    /// The trigger held, if its value type is `T`.
    pub fn try_get<T: ValueType + 'static>(&self) -> (r: Option<EventTrigger<T>>)
        ensures
            r is Some <==> self.spec_type_name() == T::spec_type_name(),
            r matches Some(t) ==> t@ == self.inner(),
    {
        let name = T::type_string();
        if self.value_type == name {
            Some(EventTrigger::from_id(self.inner))
        } else {
            None
        }
    }

    /// The trigger held; its value type must be `T`.
    pub fn get<T: ValueType + 'static>(&self) -> (r: EventTrigger<T>)
        requires
            self.spec_type_name() == T::spec_type_name(),
        ensures
            r@ == self.inner(),
    {
        EventTrigger::from_id(self.inner)
    }
}

impl Clone for AnyEvent {
    fn clone(&self) -> (r: Self)
        ensures
            r.inner() == self.inner(),
            r.spec_type_name() == self.spec_type_name(),
            r.converted() == self.converted(),
    {
        AnyEvent { inner: self.inner, value_type: self.value_type.clone(), converted: self.converted }
    }
}

impl Clone for AnyDynamic {
    fn clone(&self) -> (r: Self)
        ensures
            r.inner() == self.inner(),
            r.spec_type_name() == self.spec_type_name(),
            r.converted() == self.converted(),
    {
        AnyDynamic {
            inner: self.inner.clone(),
            value_type: self.value_type.clone(),
            converted: self.converted.clone(),
        }
    }
}

impl Clone for AnyEventTrigger {
    fn clone(&self) -> (r: Self)
        ensures
            r.inner() == self.inner(),
            r.spec_type_name() == self.spec_type_name(),
    {
        AnyEventTrigger { inner: self.inner, value_type: self.value_type.clone() }
    }
}

} // verus!
