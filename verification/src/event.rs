//! An [`Event`] represents a potential value at every instant in time.
//! During an "occurrence," when the runtime processes a state change, an
//! [`Event`] can either be firing or not firing. If it is firing, it contains a
//! value for that occurrence.
//!
//! Events are the **push** component of the push-pull architecture. Events
//! trigger other events, but their values are ephemeral. Events only compute
//! their value if someone is subscribed to them.

use crate::behavior::Behavior;
use crate::function::FnRef;
use crate::runtime::{EventKind, Runtime, fixed_input, manager_count};
use crate::subscriber_list::Callback;
use crate::value::{AnyValue, Value, ValueType};
use std::marker::PhantomData;
use std::sync::Arc;
use vstd::prelude::*;
use vstd::string::StringExecFns;

verus! {

broadcast use crate::runtime::group_runtime_defs;

/// A handle for an event that contains a value of type `T` in any
/// occurrence for which it is fired.
#[derive(Debug)]
pub struct Event<T> {
    id: usize,
    phantom: PhantomData<T>,
}

impl<T> View for Event<T> {
    type V = usize;

    /// The node of the runtime this handle names.
    closed spec fn view(&self) -> usize {
        self.id
    }
}

impl<T> Clone for Event<T> {
    fn clone(&self) -> (r: Self)
        ensures
            r == *self,
    {
        Event { id: self.id, phantom: PhantomData }
    }
}

impl<T> Copy for Event<T> {
}

impl<T> Event<T> {
    /// The handle of event node `id`.
    pub(crate) fn from_id(id: usize) -> (r: Self)
        ensures
            r@ == id,
    {
        Event { id, phantom: PhantomData }
    }

    /// The node this handle names.
    pub fn id(&self) -> (r: usize)
        ensures
            r == self@,
    {
        self.id
    }
}

impl<T: ValueType> ValueType for Event<T> {
    open spec fn has_type(v: AnyValue) -> bool {
        v is Event
    }

    closed spec fn spec_to_any(self) -> AnyValue {
        AnyValue::Event(self.id)
    }

    closed spec fn spec_from_any(v: AnyValue) -> Self {
        Event { id: v->Event_0, phantom: PhantomData }
    }

    open spec fn spec_type_name() -> Seq<char> {
        "Event<"@ + T::spec_type_name() + ">"@
    }

    fn to_any(&self) -> (r: AnyValue) {
        AnyValue::Event(self.id)
    }

    fn from_any(v: &AnyValue) -> (r: Self) {
        match v {
            AnyValue::Event(id) => Event { id: *id, phantom: PhantomData },
            _ => Event { id: 0, phantom: PhantomData },
        }
    }

    fn check(v: &AnyValue) -> (b: bool) {
        match v {
            AnyValue::Event(_) => true,
            _ => false,
        }
    }

    fn type_string() -> (s: String) {
        let mut s = String::from_str("Event<");
        let inner = T::type_string();
        s.append(inner.as_str());
        s.append(">");
        s
    }
}

impl<T: ValueType> Event<T> {
    /// The dynamic representation of this event as a value.
    pub proof fn lemma_to_any(self)
        ensures
            self.spec_to_any() == AnyValue::Event(self@),
            Self::spec_from_any(AnyValue::Event(self@)) == self,
    {
    }
}

/// A handle used to schedule the triggering of an external event.
#[derive(Debug)]
pub struct EventTrigger<T> {
    id: usize,
    phantom: PhantomData<T>,
}

impl<T> View for EventTrigger<T> {
    type V = usize;

    /// The external event node this handle triggers.
    closed spec fn view(&self) -> usize {
        self.id
    }
}

impl<T> Clone for EventTrigger<T> {
    fn clone(&self) -> (r: Self)
        ensures
            r == *self,
    {
        EventTrigger { id: self.id, phantom: PhantomData }
    }
}

impl<T> EventTrigger<T> {
    /// The handle triggering event node `id`.
    pub(crate) fn from_id(id: usize) -> (r: Self)
        ensures
            r@ == id,
    {
        EventTrigger { id, phantom: PhantomData }
    }

    /// The event node this handle triggers.
    pub fn id(&self) -> (r: usize)
        ensures
            r == self@,
    {
        self.id
    }
}

/// An outside listener of an event: it records every firing.
#[derive(Debug)]
pub struct EventLog<T> {
    id: usize,
    phantom: PhantomData<T>,
}

impl<T> View for EventLog<T> {
    type V = usize;

    /// The log of the runtime this handle names.
    closed spec fn view(&self) -> usize {
        self.id
    }
}

impl<T> Clone for EventLog<T> {
    fn clone(&self) -> (r: Self)
        ensures
            r == *self,
    {
        EventLog { id: self.id, phantom: PhantomData }
    }
}

impl<T> Copy for EventLog<T> {
}

impl<T> EventLog<T> {
    /// The log this handle names.
    pub fn id(&self) -> (r: usize)
        ensures
            r == self@,
    {
        self.id
    }
}

/// Represents one or both of two values, used by [`Event::combine`].
#[derive(Debug)]
pub enum OneOrBoth<A, B> {
    /// Only the first event fired.
    A(A),
    /// Only the second event fired.
    B(B),
    /// Both events fired simultaneously.
    Both(A, B),
}

impl<A: Clone, B: Clone> Clone for OneOrBoth<A, B> {
    fn clone(&self) -> (r: Self) {
        match self {
            OneOrBoth::A(a) => OneOrBoth::A(a.clone()),
            OneOrBoth::B(b) => OneOrBoth::B(b.clone()),
            OneOrBoth::Both(a, b) => OneOrBoth::Both(a.clone(), b.clone()),
        }
    }
}

impl<A: ValueType, B: ValueType> ValueType for OneOrBoth<A, B> {
    open spec fn has_type(v: AnyValue) -> bool {
        match v {
            AnyValue::First(a) => A::has_type(*a),
            AnyValue::Second(b) => B::has_type(*b),
            AnyValue::Both(a, b) => A::has_type(*a) && B::has_type(*b),
            _ => false,
        }
    }

    open spec fn spec_to_any(self) -> AnyValue {
        match self {
            OneOrBoth::A(a) => AnyValue::First(Box::new(a.spec_to_any())),
            OneOrBoth::B(b) => AnyValue::Second(Box::new(b.spec_to_any())),
            OneOrBoth::Both(a, b) => AnyValue::Both(
                Box::new(a.spec_to_any()),
                Box::new(b.spec_to_any()),
            ),
        }
    }

    open spec fn spec_from_any(v: AnyValue) -> Self {
        match v {
            AnyValue::First(a) => OneOrBoth::A(A::spec_from_any(*a)),
            AnyValue::Second(b) => OneOrBoth::B(B::spec_from_any(*b)),
            AnyValue::Both(a, b) => OneOrBoth::Both(A::spec_from_any(*a), B::spec_from_any(*b)),
            _ => OneOrBoth::Both(A::spec_from_any(v), B::spec_from_any(v)),
        }
    }

    open spec fn spec_type_name() -> Seq<char> {
        "OneOrBoth<"@ + A::spec_type_name() + ", "@ + B::spec_type_name() + ">"@
    }

    fn to_any(&self) -> (r: AnyValue) {
        match self {
            OneOrBoth::A(a) => AnyValue::First(Box::new(a.to_any())),
            OneOrBoth::B(b) => AnyValue::Second(Box::new(b.to_any())),
            OneOrBoth::Both(a, b) => {
                let x = a.to_any();
                let y = b.to_any();
                AnyValue::Both(Box::new(x), Box::new(y))
            },
        }
    }

    fn from_any(v: &AnyValue) -> (r: Self) {
        match v {
            AnyValue::First(a) => OneOrBoth::A(A::from_any(&**a)),
            AnyValue::Second(b) => OneOrBoth::B(B::from_any(&**b)),
            AnyValue::Both(a, b) => OneOrBoth::Both(A::from_any(&**a), B::from_any(&**b)),
            _ => {
                assert(false);
                OneOrBoth::Both(A::from_any(v), B::from_any(v))
            },
        }
    }

    fn check(v: &AnyValue) -> (b: bool) {
        match v {
            AnyValue::First(a) => A::check(&**a),
            AnyValue::Second(b) => B::check(&**b),
            AnyValue::Both(a, b) => A::check(&**a) && B::check(&**b),
            _ => false,
        }
    }

    fn type_string() -> (s: String) {
        let mut s = String::from_str("OneOrBoth<");
        let a = A::type_string();
        let b = B::type_string();
        s.append(a.as_str());
        s.append(", ");
        s.append(b.as_str());
        s.append(">");
        s
    }
}

impl<T: ValueType + 'static> Event<T> {
    /// Return an event that represents an external event, and a way to
    /// trigger it in the runtime.
    pub fn external(rt: &mut Runtime) -> (r: (Event<T>, EventTrigger<T>))
        requires
            old(rt).wf(),
        ensures
            final(rt).wf(),
            r.0@ == old(rt).num_events(),
            r.1@ == r.0@,
            final(rt).num_events() == old(rt).num_events() + 1,
            final(rt).num_behaviors() == old(rt).num_behaviors(),
            final(rt).event_node(r.0@ as int).kind is External,
            !final(rt).event_node(r.0@ as int).scheduled,
            final(rt).keeps_nodes(*old(rt)),
            old(rt).heights_ok() ==> final(rt).heights_ok(),
            old(rt).idle_queue() ==> final(rt).idle_queue(),
    {
        let id = rt.add_event(EventKind::External);
        (Event::from_id(id), EventTrigger::from_id(id))
    }

    /// Returns an event that never fires.
    pub fn never(rt: &mut Runtime) -> (r: Self)
        requires
            old(rt).wf(),
        ensures
            final(rt).wf(),
            r@ == old(rt).num_events(),
            final(rt).num_events() == old(rt).num_events() + 1,
            final(rt).num_behaviors() == old(rt).num_behaviors(),
            final(rt).event_node(r@ as int).kind is Never,
            final(rt).keeps_nodes(*old(rt)),
            old(rt).heights_ok() ==> final(rt).heights_ok(),
            old(rt).idle_queue() ==> final(rt).idle_queue(),
    {
        let id = rt.add_event(EventKind::Never);
        Event::from_id(id)
    }

    /// Creates a new event based on this one and the user function `f`.
    ///
    /// If this event fires, run `f` on the value. If `f` returns
    /// `Some(value)`, the new event fires with `value`. If `f` returns `None`,
    /// the new event does not fire.
    pub fn filter_map<O>(&self, rt: &mut Runtime, f: usize) -> (r: Event<O>)
        requires
            old(rt).wf(),
            self@ < old(rt).num_events(),
        ensures
            final(rt).wf(),
            r@ == old(rt).num_events(),
            final(rt).num_events() == old(rt).num_events() + 1,
            final(rt).num_behaviors() == old(rt).num_behaviors(),
            final(rt).event_node(r@ as int).kind == (EventKind::FilterMap { inner: self@, f: FnRef::User(f) }),
            final(rt).quiet(r@ as int),
            final(rt).keeps_nodes(*old(rt)),
            old(rt).heights_ok() ==> final(rt).heights_ok(),
            old(rt).idle_queue() ==> final(rt).idle_queue(),
    {
        let id = rt.add_event(EventKind::FilterMap { inner: self.id, f: FnRef::User(f) });
        Event::from_id(id)
    }
}

impl<T: ValueType + 'static> Event<T> {
    /// Returns an event that fires, in each occurrence, with the value of the
    /// first of `events` (lowest index) that fires in it.
    pub fn leftmost(rt: &mut Runtime, events: &Vec<Event<T>>) -> (r: Self)
        requires
            old(rt).wf(),
            forall|i: int| 0 <= i < events@.len() ==> (#[trigger] events@[i])@ < old(rt).num_events(),
        ensures
            final(rt).wf(),
            r@ == old(rt).num_events(),
            final(rt).num_events() == old(rt).num_events() + 1,
            final(rt).num_behaviors() == old(rt).num_behaviors(),
            final(rt).event_node(r@ as int).kind matches EventKind::Leftmost { inputs } && inputs@.len()
                == events@.len() && forall|i: int|
                0 <= i < events@.len() ==> #[trigger] inputs@[i] == events@[i]@,
            final(rt).keeps_nodes(*old(rt)),
            old(rt).heights_ok() ==> final(rt).heights_ok(),
            old(rt).idle_queue() ==> final(rt).idle_queue(),
    {
        let mut inputs: Vec<usize> = Vec::new();
        let mut i: usize = 0;
        while i < events.len()
            invariant
                i <= events@.len(),
                inputs@.len() == i,
                forall|k: int| 0 <= k < i ==> #[trigger] inputs@[k] == events@[k]@,
            decreases events@.len() - i,
        {
            inputs.push(events[i].id());
            i = i + 1;
        }
        let ghost ins = inputs@;
        assert forall|k: int| 0 <= k < ins.len() implies #[trigger] ins[k] < rt.events@.len() by {
            assert(ins[k] == events@[k]@);
        }
        let id = rt.add_event(EventKind::Leftmost { inputs });
        Event::from_id(id)
    }

    /// Returns an event combining `a` and `b`: in an occurrence in which one
    /// or both of them fire, it fires with the user function `function`
    /// applied to what fired (a [`OneOrBoth`]), if that gives a value.
    pub fn combine<A: ValueType, B: ValueType>(
        rt: &mut Runtime,
        function: usize,
        a: &Event<A>,
        b: &Event<B>,
    ) -> (r: Self)
        requires
            old(rt).wf(),
            a@ < old(rt).num_events(),
            b@ < old(rt).num_events(),
        ensures
            final(rt).wf(),
            r@ == old(rt).num_events() + 2,
            final(rt).num_events() == old(rt).num_events() + 3,
            final(rt).num_behaviors() == old(rt).num_behaviors(),
            final(rt).event_node(old(rt).num_events() as int).kind == (EventKind::FilterMap {
                inner: a@,
                f: FnRef::WrapFirst,
            }),
            final(rt).event_node(old(rt).num_events() + 1int).kind == (EventKind::FilterMap {
                inner: b@,
                f: FnRef::WrapSecond,
            }),
            final(rt).event_node(r@ as int).kind == (EventKind::Combine {
                a: (old(rt).num_events()) as usize,
                b: (old(rt).num_events() + 1) as usize,
                combiner: FnRef::User(function),
            }),
            final(rt).keeps_nodes(*old(rt)),
            old(rt).heights_ok() ==> final(rt).heights_ok(),
            old(rt).idle_queue() ==> final(rt).idle_queue(),
    {
        Self::combine_with(rt, FnRef::User(function), a, b)
    }

    /// [`Event::combine`] with any combining function.
    pub(crate) fn combine_with<A: ValueType, B: ValueType>(
        rt: &mut Runtime,
        combiner: FnRef,
        a: &Event<A>,
        b: &Event<B>,
    ) -> (r: Self)
        requires
            old(rt).wf(),
            a@ < old(rt).num_events(),
            b@ < old(rt).num_events(),
        ensures
            final(rt).wf(),
            r@ == old(rt).num_events() + 2,
            final(rt).num_events() == old(rt).num_events() + 3,
            final(rt).num_behaviors() == old(rt).num_behaviors(),
            final(rt).event_node(old(rt).num_events() as int).kind == (EventKind::FilterMap {
                inner: a@,
                f: FnRef::WrapFirst,
            }),
            final(rt).event_node(old(rt).num_events() + 1int).kind == (EventKind::FilterMap {
                inner: b@,
                f: FnRef::WrapSecond,
            }),
            final(rt).event_node(r@ as int).kind == (EventKind::Combine {
                a: (old(rt).num_events()) as usize,
                b: (old(rt).num_events() + 1) as usize,
                combiner,
            }),
            final(rt).keeps_nodes(*old(rt)),
            old(rt).heights_ok() ==> final(rt).heights_ok(),
            old(rt).idle_queue() ==> final(rt).idle_queue(),
    {
        let ia = rt.add_event(EventKind::FilterMap { inner: a.id(), f: FnRef::WrapFirst });
        let ib = rt.add_event(EventKind::FilterMap { inner: b.id(), f: FnRef::WrapSecond });
        let id = rt.add_event(EventKind::Combine { a: ia, b: ib, combiner });
        Event::from_id(id)
    }

    /// An event that fires whenever this one fires, with its value paired
    /// with the value `behavior` had before the occurrence (not *prompt*:
    /// updates of the behavior in the same occurrence are not seen).
    pub fn tag<B: ValueType>(&self, rt: &mut Runtime, behavior: &Behavior<B>) -> (r: Event<
        Arc<(Value<T>, Value<B>)>,
    >)
        requires
            old(rt).wf(),
            self@ < old(rt).num_events(),
            behavior@ < old(rt).num_behaviors(),
        ensures
            final(rt).wf(),
            r@ == old(rt).num_events(),
            final(rt).num_events() == old(rt).num_events() + 1,
            final(rt).num_behaviors() == old(rt).num_behaviors(),
            final(rt).event_node(r@ as int).kind == (EventKind::Tag {
                event: self@,
                behavior: behavior@,
                tagger: FnRef::PairUp,
            }),
            final(rt).quiet(r@ as int),
            final(rt).keeps_nodes(*old(rt)),
            old(rt).heights_ok() ==> final(rt).heights_ok(),
            old(rt).idle_queue() ==> final(rt).idle_queue(),
    {
        self.tag_with(rt, FnRef::PairUp, behavior)
    }

    /// [`Event::tag`], but with the user function `function` combining the
    /// value of the event and that of the behavior; it also decides whether
    /// the new event fires.
    pub fn tag_map<B: ValueType, O: ValueType>(
        &self,
        rt: &mut Runtime,
        function: usize,
        behavior: &Behavior<B>,
    ) -> (r: Event<O>)
        requires
            old(rt).wf(),
            self@ < old(rt).num_events(),
            behavior@ < old(rt).num_behaviors(),
        ensures
            final(rt).wf(),
            r@ == old(rt).num_events(),
            final(rt).num_events() == old(rt).num_events() + 1,
            final(rt).num_behaviors() == old(rt).num_behaviors(),
            final(rt).event_node(r@ as int).kind == (EventKind::Tag {
                event: self@,
                behavior: behavior@,
                tagger: FnRef::User(function),
            }),
            final(rt).quiet(r@ as int),
            final(rt).keeps_nodes(*old(rt)),
            old(rt).heights_ok() ==> final(rt).heights_ok(),
            old(rt).idle_queue() ==> final(rt).idle_queue(),
    {
        self.tag_with(rt, FnRef::User(function), behavior)
    }

    /// An event tagging this one with `behavior` through `tagger`.
    pub(crate) fn tag_with<B: ValueType, O>(&self, rt: &mut Runtime, tagger: FnRef, behavior: &Behavior<B>) -> (r: Event<O>)
        requires
            old(rt).wf(),
            self@ < old(rt).num_events(),
            behavior@ < old(rt).num_behaviors(),
        ensures
            final(rt).wf(),
            r@ == old(rt).num_events(),
            final(rt).num_events() == old(rt).num_events() + 1,
            final(rt).num_behaviors() == old(rt).num_behaviors(),
            final(rt).event_node(r@ as int).kind == (EventKind::Tag {
                event: self@,
                behavior: behavior@,
                tagger,
            }),
            final(rt).quiet(r@ as int),
            final(rt).keeps_nodes(*old(rt)),
            old(rt).heights_ok() ==> final(rt).heights_ok(),
            old(rt).idle_queue() ==> final(rt).idle_queue(),
    {
        let id = rt.add_event(EventKind::Tag { event: self.id, behavior: behavior.id(), tagger });
        Event::from_id(id)
    }

    /// Record every firing of this event in a new log, for debugging and
    /// tests: the firing values can be read back with [`Runtime::heard`].
    pub fn trace(&self, rt: &mut Runtime) -> (r: EventLog<T>)
        requires
            old(rt).wf(),
            self@ < old(rt).num_events(),
        ensures
            final(rt).wf(),
            r@ == old(rt).num_logs(),
            final(rt).num_logs() == old(rt).num_logs() + 1,
            final(rt).log_of(r@ as int) == Seq::<AnyValue>::empty(),
            final(rt).log_alive(r@ as int),
            manager_count(old(rt).event_node(self@ as int).kind) > 0 ==> final(rt).listens(self@ as int, r@ as int),
            old(rt).quiet(self@ as int) && fixed_input(old(rt).event_node(self@ as int).kind) is Some && manager_count(
                old(rt).event_node(fixed_input(old(rt).event_node(self@ as int).kind)->0 as int).kind,
            ) > 0 ==> final(rt).hears(self@, fixed_input(old(rt).event_node(self@ as int).kind)->0),
            forall|ix: int|
                0 <= ix < manager_count(old(rt).event_node(self@ as int).kind) ==> (#[trigger] final(rt).manager(
                    old(rt).event_node(self@ as int).first_manager + ix,
                )).spec_subscribers().contains(Callback::Log { log: r@ }),
            final(rt).num_events() == old(rt).num_events(),
            final(rt).num_behaviors() == old(rt).num_behaviors(),
            final(rt).keeps_nodes(*old(rt)),
            old(rt).heights_ok() ==> final(rt).heights_ok(),
            old(rt).idle_queue() ==> final(rt).idle_queue(),
    {
        let l = rt.add_log();
        let ghost mid = *rt;
        rt.subscribe(self.id, Callback::Log { log: l });
        proof {
            if manager_count(mid.events@[self.id as int].kind) > 0 {
                assert(rt.managers@[mid.events@[self.id as int].first_manager + 0].spec_subscribers().contains(
                    Callback::Log { log: l },
                ));
            }
            if old(rt).quiet(self.id as int) && fixed_input(old(rt).events@[self.id as int].kind) is Some {
                assert(mid.managers@[mid.events@[self.id as int].first_manager + 0].spec_subscribers().len() == 0);
                assert(mid.spec_upstream(self.id as int, 0) == fixed_input(old(rt).events@[self.id as int].kind));
            }
        }
        EventLog { id: l, phantom: PhantomData }
    }
}

impl<T: ValueType + 'static> Event<Event<T>> {
    /// Given an event of events, keep track of the most recent inner event to
    /// have shown up on the outer event, and fire when it fires, with its
    /// value. A new inner event is followed only from the next occurrence on.
    pub fn switch_hold(&self, rt: &mut Runtime) -> (r: Event<T>)
        requires
            old(rt).wf(),
            self@ < old(rt).num_events(),
        ensures
            final(rt).wf(),
            r@ == old(rt).num_events(),
            final(rt).num_events() == old(rt).num_events() + 1,
            final(rt).num_behaviors() == old(rt).num_behaviors(),
            final(rt).event_node(r@ as int).kind == (EventKind::SwitchHold { outer: self@ }),
            final(rt).event_node(r@ as int).inner is None,
            forall|ix: int|
                0 <= ix < manager_count(old(rt).event_node(self@ as int).kind) ==> (#[trigger] final(rt).manager(
                    old(rt).event_node(self@ as int).first_manager + ix,
                )).spec_subscribers().contains(Callback::SwitchOuter { event: r@ }),
            final(rt).keeps_nodes(*old(rt)),
            old(rt).heights_ok() ==> final(rt).heights_ok(),
            old(rt).idle_queue() ==> final(rt).idle_queue(),
    {
        let id = rt.add_event(EventKind::SwitchHold { outer: self.id });
        rt.subscribe(self.id, Callback::SwitchOuter { event: id });
        Event::from_id(id)
    }
}

impl Runtime {
    /// The values heard so far by `log`, oldest first.
    pub fn heard<T>(&self, log: &EventLog<T>) -> (r: Vec<AnyValue>)
        requires
            self.wf(),
            log@ < self.num_logs(),
        ensures
            r@ == self.log_of(log@ as int),
    {
        let l = log.id;
        let mut out: Vec<AnyValue> = Vec::new();
        let mut i: usize = 0;
        while i < self.logs[l].len()
            invariant
                l < self.logs@.len(),
                i <= self.logs@[l as int]@.len(),
                out@ == self.logs@[l as int]@.take(i as int),
            decreases self.logs@[l as int]@.len() - i,
        {
            out.push(self.logs[l][i].clone());
            i = i + 1;
            assert(out@ =~= self.logs@[l as int]@.take(i as int));
        }
        assert(self.logs@[l as int]@.take(i as int) =~= self.logs@[l as int]@);
        out
    }

    /// How many values `log` has heard.
    pub fn heard_len<T>(&self, log: &EventLog<T>) -> (r: usize)
        requires
            self.wf(),
            log@ < self.num_logs(),
        ensures
            r == self.log_of(log@ as int).len(),
    {
        self.logs[log.id].len()
    }

    /// The value number `i` that `log` heard.
    pub fn heard_at<T>(&self, log: &EventLog<T>, i: usize) -> (r: &AnyValue)
        requires
            self.wf(),
            log@ < self.num_logs(),
            i < self.log_of(log@ as int).len(),
        ensures
            *r == self.log_of(log@ as int)[i as int],
    {
        &self.logs[log.id][i]
    }

    /// Stop listening with `log`: its subscription is dropped the next time
    /// the event it listens to is notified, and it hears nothing more.
    pub fn stop_listening<T>(&mut self, log: EventLog<T>)
        requires
            old(self).wf(),
            log@ < old(self).num_logs(),
        ensures
            final(self).wf(),
            !final(self).log_alive(log@ as int),
            final(self).num_logs() == old(self).num_logs(),
            forall|l: int| 0 <= l < final(self).num_logs() ==> #[trigger] final(self).log_of(l) == old(self).log_of(l),
            forall|l: int| 0 <= l < final(self).num_logs() && l != log@ ==> #[trigger] final(self).log_alive(l) == old(self).log_alive(l),
            old(self).heights_ok() ==> final(self).heights_ok(),
            old(self).idle_queue() ==> final(self).idle_queue(),
    {
        let ghost s0 = *self;
        self.live.logs.set(log.id, false);
        proof {
            crate::runtime::lemma_inv_frame(s0, *self);
            if s0.heights_ok() {
                crate::runtime::lemma_heights_frame(s0, *self);
            }
        }
    }
}

} // verus!
