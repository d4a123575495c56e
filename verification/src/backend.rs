//! A backend that runs test scripts against a graph. It names the triggers,
//! the public events and the public dynamics of the graph's root node,
//! listens to the public events, and checks each step of a script against
//! what happened.

use crate::any::{AnyDynamic, AnyEvent, AnyEventTrigger};
use crate::dynamic::Dynamic;
use crate::event::{Event, EventLog};
use crate::function::is_dispatcher;
use crate::runtime::{Action, PropagationError, Runtime};
use crate::script::{
    EventRecord, Mismatch, Path, ScriptError, StepError, TestAction, TestScript, TestStep,
};
use crate::slots::Slots;
use crate::value::{AnyValue, TypeMismatch, ValueType, same, same_value, spec_shape_name};
use vstd::prelude::*;

verus! {

broadcast use crate::runtime::group_runtime_defs;

/// The root node of a graph under test, as a script sees it.
#[derive(Debug)]
pub struct TestBackend {
    triggers: Slots<AnyEventTrigger>,
    dynamics: Slots<AnyDynamic>,
    events: Slots<EventLog<AnyValue>>,
    read: Vec<usize>,
}

/// Compare a value that was found with the one expected: of another shape,
/// it is a type mismatch; of the same shape but different, a value mismatch.
pub fn check_value(expected: &AnyValue, actual: AnyValue) -> (r: Result<(), Mismatch>)
    ensures
        spec_shape_name(*expected) != spec_shape_name(actual) ==> (r matches Err(Mismatch::Type(m))
            && m.expected@ == spec_shape_name(*expected) && m.actual@ == spec_shape_name(actual)),
        spec_shape_name(*expected) == spec_shape_name(actual) && !same(*expected, actual) ==> (r matches Err(
            Mismatch::Value { expected: e, actual: a },
        ) && e == *expected && a == actual),
        spec_shape_name(*expected) == spec_shape_name(actual) && same(*expected, actual) ==> r is Ok,
{
    let se = expected.type_string();
    let sa = actual.type_string();
    if se != sa {
        return Err(Mismatch::Type(TypeMismatch { expected: se, actual: sa }));
    }
    if same_value(expected, &actual) {
        Ok(())
    } else {
        Err(Mismatch::Value { expected: expected.clone(), actual })
    }
}

/// What a script run relies on of a propagation of `rt` that left `rt2`
/// and gave `r`.
pub open spec fn propagated(rt: Runtime, rt2: Runtime, r: Result<(), PropagationError>) -> bool {
    &&& rt2.wf()
    &&& rt2.keeps(rt)
    &&& rt.propagating() ==> r is Err && rt2 == rt
    &&& r is Ok ==> !rt2.propagating() && rt2.queue_empty()
    &&& !rt.propagating() && rt.heights_ok() && rt.idle_queue() && rt.num_events() < usize::MAX ==> r is Ok
    &&& r is Ok ==> rt2.idle_queue()
    &&& r is Ok && rt.heights_ok() && (forall|e: int|
        0 <= e < rt.num_events() ==> !(#[trigger] rt.event_node(e).kind is SwitchHold)) ==> rt2.heights_ok()
}

/// A run of the first `i` steps of `steps` that all succeeded: `bs` and
/// `rts` are the root nodes and runtimes before each step and after the
/// last, `mids` the runtimes right after each step. Every step ran as
/// [`TestBackend::step_post`] says, and was followed by a propagation when it
/// triggers an event at once.
pub open spec fn ran<D: Fn(usize, &Vec<AnyValue>) -> Option<AnyValue>>(
    d: D,
    steps: Seq<TestStep>,
    bs: Seq<TestBackend>,
    rts: Seq<Runtime>,
    mids: Seq<Runtime>,
    i: nat,
) -> bool {
    &&& i <= steps.len()
    &&& bs.len() == i + 1
    &&& rts.len() == i + 1
    &&& mids.len() == i
    &&& forall|j: int|
        0 <= j < i ==> #[trigger] bs[j].step_post(rts[j], d, steps[j], bs[j + 1], mids[j], Ok(())) && (if steps[j].action is TriggerEvent {
            propagated(mids[j], rts[j + 1], Ok(()))
        } else {
            rts[j + 1] == mids[j]
        })
}

/// What running `steps` from `(b0, rt0)` gives: all steps succeed and
/// leave `(b, rt)`; or step `index` is the first to fail, by its own error
/// or by the propagation that follows it.
pub open spec fn script_post<D: Fn(usize, &Vec<AnyValue>) -> Option<AnyValue>>(
    b0: TestBackend,
    rt0: Runtime,
    d: D,
    steps: Seq<TestStep>,
    b: TestBackend,
    rt: Runtime,
    r: Result<(), ScriptError>,
) -> bool {
    &&& b.wf(rt)
    &&& r is Ok ==> exists|bs: Seq<TestBackend>, rts: Seq<Runtime>, mids: Seq<Runtime>|
        #[trigger] ran(d, steps, bs, rts, mids, steps.len()) && bs[0] == b0 && rts[0] == rt0 && bs.last() == b
            && rts.last() == rt
    &&& r matches Err(e) ==> {
        &&& e.index < steps.len()
        &&& exists|bs: Seq<TestBackend>, rts: Seq<Runtime>, mids: Seq<Runtime>|
            #[trigger] ran(d, steps, bs, rts, mids, e.index as nat) && bs[0] == b0 && rts[0] == rt0 && {
                ||| bs.last().step_post(rts.last(), d, steps[e.index as int], b, rt, Err(e.error))
                ||| exists|rtm: Runtime|
                    #[trigger] bs.last().step_post(rts.last(), d, steps[e.index as int], b, rtm, Ok(()))
                        && steps[e.index as int].action is TriggerEvent && (e.error matches StepError::Propagation(pe)
                        && propagated(rtm, rt, Err(pe)))
            }
    }
}

impl TestBackend {
    /// The triggers, by slot.
    pub closed spec fn triggers(self) -> Slots<AnyEventTrigger> {
        self.triggers
    }

    /// The public dynamics, by slot.
    pub closed spec fn dynamics(self) -> Slots<AnyDynamic> {
        self.dynamics
    }

    /// The logs of the public events, by slot.
    pub closed spec fn events(self) -> Slots<EventLog<AnyValue>> {
        self.events
    }

    /// How many values of each public event the script has checked.
    pub closed spec fn read(self) -> Seq<usize> {
        self.read@
    }

    /// The values public event `k` fired with that the script has not
    /// checked yet.
    pub open spec fn unread(self, rt: Runtime, k: int) -> Seq<AnyValue> {
        rt.log_of(self.events().values()[k]@ as int).subrange(
            self.read()[k] as int,
            rt.log_of(self.events().values()[k]@ as int).len() as int,
        )
    }

    /// Public event `k` is the first, by slot, with a value not checked yet.
    pub open spec fn first_unread_is(self, rt: Runtime, k: int) -> bool {
        &&& 0 <= k < self.events().values().len()
        &&& self.unread(rt, k).len() > 0
        &&& forall|j: int| 0 <= j < k ==> #[trigger] self.unread(rt, j).len() == 0
    }

    /// Every value fired by a public event has been checked.
    pub open spec fn all_read(self, rt: Runtime) -> bool {
        forall|k: int| 0 <= k < self.events().values().len() ==> #[trigger] self.unread(rt, k).len() == 0
    }

    /// The items named name existing nodes of `rt`.
    pub open spec fn wf(self, rt: Runtime) -> bool {
        &&& rt.wf()
        &&& self.read().len() == self.events().values().len()
        &&& self.triggers().values().len() == self.triggers().names().len()
        &&& self.dynamics().values().len() == self.dynamics().names().len()
        &&& self.events().values().len() == self.events().names().len()
        &&& forall|k: int|
            0 <= k < self.events().values().len() ==> (#[trigger] self.events().values()[k])@
                < rt.num_logs() && self.read()[k] <= rt.log_of(self.events().values()[k]@ as int).len()
        &&& forall|k: int|
            0 <= k < self.triggers().values().len() ==> (#[trigger] self.triggers().values()[k]).inner()
                < rt.num_events() && rt.event_node(self.triggers().values()[k].inner() as int).kind is External
        &&& forall|k: int|
            0 <= k < self.dynamics().values().len() ==> (#[trigger] self.dynamics().values()[k]).converted().0
                < rt.num_events() && self.dynamics().values()[k].converted().1 < rt.num_behaviors()
    }

    /// Propagation keeps the items of a root node valid.
    pub proof fn lemma_wf_kept(self, old_rt: Runtime, new_rt: Runtime)
        requires
            self.wf(old_rt),
            new_rt.wf(),
            new_rt.keeps(old_rt),
        ensures
            self.wf(new_rt),
    {
        new_rt.lemma_keeps_nodes(old_rt);
        assert forall|k: int|
            0 <= k < self.events().values().len() implies (#[trigger] self.events().values()[k])@
                < new_rt.num_logs() && self.read()[k] <= new_rt.log_of(self.events().values()[k]@ as int).len() by {
            new_rt.lemma_keeps_logs(old_rt, self.events().values()[k]@ as int);
        }
        assert forall|k: int|
            0 <= k < self.triggers().values().len() implies (#[trigger] self.triggers().values()[k]).inner()
                < new_rt.num_events() && new_rt.event_node(self.triggers().values()[k].inner() as int).kind is External by {
            assert(old_rt.event_node(self.triggers().values()[k].inner() as int).kind is External);
        }
    }

    /// A root node with nothing in it.
    pub fn new() -> (r: Self)
        ensures
            r.triggers().values().len() == 0,
            r.dynamics().values().len() == 0,
            r.events().values().len() == 0,
            r.read().len() == 0,
            r.triggers().names().len() == 0,
            r.dynamics().names().len() == 0,
            r.events().names().len() == 0,
    {
        TestBackend {
            triggers: Slots::new(),
            dynamics: Slots::new(),
            events: Slots::new(),
            read: Vec::new(),
        }
    }

    /// An external event that a script triggers by `name`.
    pub fn add_external_event<T: ValueType + 'static>(&mut self, rt: &mut Runtime, name: &str) -> (r: Event<T>)
        requires
            old(self).wf(*old(rt)),
            !old(self).triggers().names().contains(name@),
        ensures
            final(self).wf(*final(rt)),
            r@ == old(rt).num_events(),
            final(rt).event_node(r@ as int).kind is External,
            final(rt).num_events() == old(rt).num_events() + 1,
            final(rt).keeps_nodes(*old(rt)),
            final(self).triggers().names() == old(self).triggers().names().push(name@),
            final(self).triggers().values().last().inner() == r@,
            final(self).dynamics() == old(self).dynamics(),
            final(self).events() == old(self).events(),
            final(self).read() == old(self).read(),
            old(rt).heights_ok() ==> final(rt).heights_ok(),
            old(rt).idle_queue() ==> final(rt).idle_queue(),
    {
        let (event, trigger) = Event::<T>::external(rt);
        let any = AnyEventTrigger::new(&trigger);
        self.triggers.add(name.to_owned(), any);
        proof {
            assert(self.triggers().values().len() == self.triggers().names().len());
        }
        event
    }

    /// Make `event` public under `name`: a script expects its firings.
    pub fn add_public_event<T: ValueType + 'static>(&mut self, rt: &mut Runtime, name: &str, event: &Event<T>)
        requires
            old(self).wf(*old(rt)),
            event@ < old(rt).num_events(),
            !old(self).events().names().contains(name@),
        ensures
            final(self).wf(*final(rt)),
            final(rt).keeps_nodes(*old(rt)),
            final(self).events().names() == old(self).events().names().push(name@),
            final(self).read() == old(self).read().push(0),
            final(self).triggers() == old(self).triggers(),
            final(self).dynamics() == old(self).dynamics(),
            old(rt).heights_ok() ==> final(rt).heights_ok(),
            old(rt).idle_queue() ==> final(rt).idle_queue(),
    {
        let any = AnyEvent::new(rt, event);
        let converted = any.as_any_event();
        let log = converted.trace(rt);
        self.events.add(name.to_owned(), log);
        self.read.push(0);
        proof {
            assert forall|k: int| 0 <= k < self.events().values().len() implies (#[trigger] self.events().values()[k])@
                < rt.num_logs() && self.read()[k] <= rt.log_of(self.events().values()[k]@ as int).len() by {
                if k < self.events().values().len() - 1 {
                    assert(old(self).events().values()[k] == self.events().values()[k]);
                }
            }
        }
    }

    /// Make `dynamic` public under `name`: a script queries its value.
    pub fn add_public_dynamic<T: ValueType + 'static>(&mut self, rt: &mut Runtime, name: &str, dynamic: &Dynamic<T>)
        requires
            old(self).wf(*old(rt)),
            dynamic@.0 < old(rt).num_events(),
            dynamic@.1 < old(rt).num_behaviors(),
            !old(self).dynamics().names().contains(name@),
        ensures
            final(self).wf(*final(rt)),
            final(rt).keeps_nodes(*old(rt)),
            final(self).dynamics().names() == old(self).dynamics().names().push(name@),
            final(self).triggers() == old(self).triggers(),
            final(self).events() == old(self).events(),
            final(self).read() == old(self).read(),
            old(rt).heights_ok() ==> final(rt).heights_ok(),
            old(rt).idle_queue() ==> final(rt).idle_queue(),
    {
        let any = AnyDynamic::new(rt, dynamic);
        self.dynamics.add(name.to_owned(), any);
        proof {
            assert forall|k: int| 0 <= k < self.dynamics().values().len() implies (#[trigger] self.dynamics().values()[k]).converted().0
                < rt.num_events() && self.dynamics().values()[k].converted().1 < rt.num_behaviors() by {
                if k < self.dynamics().values().len() - 1 {
                    assert(old(self).dynamics().values()[k] == self.dynamics().values()[k]);
                }
            }
        }
    }

    /// The first public event, by slot, with a value not checked yet.
    fn first_unread(&self, rt: &Runtime) -> (r: Option<usize>)
        requires
            self.wf(*rt),
        ensures
            r is None ==> self.all_read(*rt),
            r matches Some(k) ==> k < self.events().values().len() && self.unread(*rt, k as int).len() > 0
                && forall|j: int| 0 <= j < k ==> #[trigger] self.unread(*rt, j).len() == 0,
    {
        let n = self.events.len();
        let mut k: usize = 0;
        while k < n
            invariant
                self.wf(*rt),
                n == self.events().values().len(),
                k <= n,
                forall|j: int| 0 <= j < k ==> #[trigger] self.unread(*rt, j).len() == 0,
            decreases n - k,
        {
            let log = self.events.get_index(k).unwrap();
            assert(self.events().values()[k as int]@ < rt.num_logs());
            if self.read[k] < rt.heard_len(log) {
                return Some(k);
            }
            k = k + 1;
        }
        None
    }

    /// What one step of a script does: run on `(self, rt)`, it leaves the
    /// root node `b` and the runtime `rt2` and gives `r`.
    pub open spec fn step_post<D: Fn(usize, &Vec<AnyValue>) -> Option<AnyValue>>(
        self,
        rt: Runtime,
        d: D,
        step: TestStep,
        b: TestBackend,
        rt2: Runtime,
        r: Result<(), StepError>,
    ) -> bool {
        &&& b.wf(rt2)
        &&& rt.heights_ok() ==> rt2.heights_ok()
        &&& rt.idle_queue() ==> rt2.idle_queue()
        &&& b.triggers() == self.triggers()
        &&& b.dynamics() == self.dynamics()
        &&& b.events() == self.events()
        &&& (step.action is Crickets ==> (r is Ok <==> self.all_read(rt)) && rt2 == rt)
        &&& (step.action is Crickets && self.all_read(rt) ==> b.read() == self.read())
        &&& (step.action is Crickets ==> forall|k: int|
            #[trigger] self.first_unread_is(rt, k) ==> (r matches Err(
                StepError::ExtraEvents(rec),
            ) && rec.path.indexes@.len() == 0 && rec.path.name@ == self.events().names()[k]
                && rec.value == self.unread(rt, k)[0]) && b.read() == self.read().update(
                k,
                (self.read()[k] + 1) as usize,
            ))
        &&& ((step.action is TriggerEvent || step.action is DelayTriggerEvent) ==> {
            &&& b.read() == self.read()
            &&& step.path.indexes@.len() != 0 ==> (r matches Err(StepError::NoDelegateAtPath { path: p })
                && p.indexes@ == step.path.indexes@ && p.name@ == step.path.name@) && rt2 == rt
            &&& step.path.indexes@.len() == 0 && !self.triggers().names().contains(
                step.path.name@,
            ) ==> (r matches Err(StepError::MissingTriggerName(n)) && n@ == step.path.name@)
                && rt2 == rt
            &&& step.path.indexes@.len() == 0 ==> forall|k: int|
                0 <= k < self.triggers().names().len() && #[trigger] self.triggers().names()[k]
                    == step.path.name@ ==> {
                    let t = self.triggers().values()[k];
                    &&& t.spec_type_name() != spec_shape_name(step.value) ==> (r matches Err(
                        StepError::BadEventTrigger { path: p, mismatch: Mismatch::Type(m) },
                    ) && p.name@ == step.path.name@ && m.expected@ == spec_shape_name(step.value) && m.actual@
                        == t.spec_type_name())
                        && rt2 == rt
                    &&& t.spec_type_name() == spec_shape_name(step.value) && rt.event_node(
                        t.inner() as int,
                    ).scheduled ==> (r matches Err(
                        StepError::Propagation(PropagationError::AlreadyScheduled),
                    )) && rt2 == rt
                    &&& t.spec_type_name() == spec_shape_name(step.value) && !rt.event_node(
                        t.inner() as int,
                    ).scheduled && rt.propagating() ==> (r matches Err(
                        StepError::Propagation(PropagationError::HeightNotIncreasing { .. }),
                    )) && rt2 == rt
                    &&& t.spec_type_name() == spec_shape_name(step.value) && !rt.event_node(
                        t.inner() as int,
                    ).scheduled && !rt.propagating() ==> r is Ok && rt2.pending_at(0)
                        == rt.pending_at(0).push(
                        Action::Trigger { event: t.inner(), value: step.value },
                    ) && rt2.only_flag_changed(rt, t.inner() as int)
                }
        })
        &&& (step.action is ExpectEvent ==> {
            &&& rt2 == rt
            &&& self.all_read(rt) ==> (r matches Err(StepError::EventsDone))
                && b.read() == self.read()
            &&& forall|k: int|
                #[trigger] self.first_unread_is(rt, k) ==> {
                    let found = self.unread(rt, k)[0];
                    let name = self.events().names()[k];
                    &&& b.read() == self.read().update(
                        k,
                        (self.read()[k] + 1) as usize,
                    )
                    &&& (step.path.indexes@.len() != 0 || step.path.name@ != name) ==> (r matches Err(
                        StepError::BadEventPath { expected, actual },
                    ) && expected.indexes@ == step.path.indexes@ && expected.name@ == step.path.name@
                        && actual.indexes@.len() == 0 && actual.name@ == name)
                    &&& step.path.indexes@.len() == 0 && step.path.name@ == name && spec_shape_name(
                        step.value,
                    ) != spec_shape_name(found) ==> (r matches Err(
                        StepError::BadEventValue { path: p, mismatch: Mismatch::Type(m) },
                    ) && p.name@ == name && m.expected@ == spec_shape_name(step.value) && m.actual@ == spec_shape_name(
                        found,
                    ))
                    &&& step.path.indexes@.len() == 0 && step.path.name@ == name && spec_shape_name(
                        step.value,
                    ) == spec_shape_name(found) ==> (r is Ok <==> same(step.value, found))
                    &&& step.path.indexes@.len() == 0 && step.path.name@ == name && spec_shape_name(
                        step.value,
                    ) == spec_shape_name(found) && !same(step.value, found) ==> (r matches Err(
                        StepError::BadEventValue { path: p, mismatch: Mismatch::Value { expected: e, actual: a } },
                    ) && p.name@ == name && e == step.value && a == found)
                }
        })
        &&& (step.action is ExpectDynamic ==> {
            &&& rt2 == rt
            &&& b.read() == self.read()
            &&& step.path.indexes@.len() != 0 ==> (r matches Err(StepError::NoDelegateAtPath { path: p })
                && p.indexes@ == step.path.indexes@ && p.name@ == step.path.name@)
            &&& step.path.indexes@.len() == 0 && !self.dynamics().names().contains(
                step.path.name@,
            ) ==> (r matches Err(StepError::MissingDynamicName(n)) && n@ == step.path.name@)
            &&& step.path.indexes@.len() == 0 ==> forall|k: int|
                0 <= k < self.dynamics().names().len() && #[trigger] self.dynamics().names()[k]
                    == step.path.name@ ==> match rt.value_of(
                    d,
                    self.dynamics().values()[k].converted().1 as int,
                ) {
                    None => r matches Err(StepError::BadDynamic { path: p, mismatch: Mismatch::Missing { expected: e } })
                        && p.name@ == step.path.name@ && e == step.value,
                    Some(v) => (spec_shape_name(step.value) != spec_shape_name(v) ==> (r matches Err(
                        StepError::BadDynamic { path: p, mismatch: Mismatch::Type(m) },
                    ) && p.name@ == step.path.name@ && m.expected@ == spec_shape_name(step.value) && m.actual@
                        == spec_shape_name(v))) && (spec_shape_name(step.value) == spec_shape_name(v) ==> (r is Ok
                        <==> same(step.value, v))) && (spec_shape_name(step.value) == spec_shape_name(v) && !same(
                        step.value,
                        v,
                    ) ==> (r matches Err(
                        StepError::BadDynamic { path: p, mismatch: Mismatch::Value { expected: e, actual: a } },
                    ) && p.name@ == step.path.name@ && e == step.value && a == v)),
                }
        })
    }

    /// Run one step of a script: trigger an event (without propagating),
    /// check the next event that fired, check the value of a dynamic, or
    /// check that no event fired.
    pub fn step<D: Fn(usize, &Vec<AnyValue>) -> Option<AnyValue>>(
        &mut self,
        rt: &mut Runtime,
        d: &D,
        step: TestStep,
    ) -> (r: Result<(), StepError>)
        requires
            old(self).wf(*old(rt)),
            is_dispatcher(*d),
        ensures
            old(self).step_post(*old(rt), *d, step, *final(self), *final(rt), r),
    {
        let TestStep { path, action, value } = step;
        match action {
            TestAction::Crickets => {
                match self.first_unread(rt) {
                    None => Ok(()),
                    Some(k) => {
                        proof {
                            assert forall|k2: int| #[trigger] self.first_unread_is(*rt, k2) implies k2 == k by {
                                if k2 < k {
                                    assert(self.unread(*rt, k2).len() == 0);
                                } else if k2 > k {
                                    assert(self.unread(*rt, k as int).len() == 0);
                                }
                            }
                        }
                        let log = *self.events.get_index(k).unwrap();
                        let at = self.read[k];
                        let len = rt.heard_len(&log);
                        assert(self.unread(*rt, k as int)[0] == rt.log_of(log@ as int)[at as int]);
                        let v = rt.heard_at(&log, at).clone();
                        self.read.set(k, at + 1);
                        let name = self.event_name(k);
                        Err(StepError::ExtraEvents(EventRecord { path: Path::new(Vec::new(), name.as_str()), value: v }))
                    },
                }
            },
            TestAction::TriggerEvent | TestAction::DelayTriggerEvent => {
                if path.indexes.len() != 0 {
                    return Err(StepError::NoDelegateAtPath { path });
                }
                let ix = self.triggers.index_for_name(path.name.as_str());
                match ix {
                    None => Err(StepError::MissingTriggerName(path.name)),
                    Some(ix) => {
                        let trigger = self.triggers.get_index(ix).unwrap();
                        let expected = value.type_string();
                        let actual = trigger.value_type_name().to_owned();
                        if expected != actual {
                            return Err(
                                StepError::BadEventTrigger {
                                    path,
                                    mismatch: Mismatch::Type(TypeMismatch { expected, actual }),
                                },
                            );
                        }
                        let e = trigger.inner_id();
                        assert(self.triggers().values()[ix as int].inner() < rt.num_events());
                        match rt.schedule_any(e, value) {
                            Ok(()) => Ok(()),
                            Err(err) => Err(StepError::Propagation(err)),
                        }
                    },
                }
            },
            TestAction::ExpectEvent => {
                match self.first_unread(rt) {
                    None => Err(StepError::EventsDone),
                    Some(k) => {
                        proof {
                            assert forall|k2: int| #[trigger] self.first_unread_is(*rt, k2) implies k2 == k by {
                                if k2 < k {
                                    assert(self.unread(*rt, k2).len() == 0);
                                } else if k2 > k {
                                    assert(self.unread(*rt, k as int).len() == 0);
                                }
                            }
                        }
                        let log = *self.events.get_index(k).unwrap();
                        let at = self.read[k];
                        let len = rt.heard_len(&log);
                        assert(self.unread(*rt, k as int)[0] == rt.log_of(log@ as int)[at as int]);
                        let v = rt.heard_at(&log, at).clone();
                        self.read.set(k, at + 1);
                        let name = self.event_name(k);
                        let actual = Path::new(Vec::new(), name.as_str());
                        proof {
                            if path.indexes@.len() == 0 {
                                assert(path.indexes@ =~= actual.indexes@);
                            }
                        }
                        if !actual.same_as(&path) {
                            return Err(StepError::BadEventPath { expected: path, actual });
                        }
                        match check_value(&value, v) {
                            Ok(()) => Ok(()),
                            Err(mismatch) => Err(StepError::BadEventValue { path, mismatch }),
                        }
                    },
                }
            },
            TestAction::ExpectDynamic => {
                if path.indexes.len() != 0 {
                    return Err(StepError::NoDelegateAtPath { path });
                }
                let ix = self.dynamics.index_for_name(path.name.as_str());
                match ix {
                    None => Err(StepError::MissingDynamicName(path.name)),
                    Some(ix) => {
                        let dynamic = self.dynamics.get_index(ix).unwrap();
                        let b = dynamic.as_any_dynamic().behavior();
                        match b.query(rt, d) {
                            None => Err(
                                StepError::BadDynamic { path, mismatch: Mismatch::Missing { expected: value } },
                            ),
                            Some(v) => match check_value(&value, v) {
                                Ok(()) => Ok(()),
                                Err(mismatch) => Err(StepError::BadDynamic { path, mismatch }),
                            },
                        }
                    },
                }
            },
        }
    }

    /// The name of public event `k`.
    fn event_name(&self, k: usize) -> (r: String)
        requires
            k < self.events().names().len(),
        ensures
            r@ == self.events().names()[k as int],
    {
        self.events.name_at(k)
    }

    /// Run a script, step by step; after each step that triggers an event
    /// immediately, propagate. Stops at the first step that fails.
    pub fn main_loop<D: Fn(usize, &Vec<AnyValue>) -> Option<AnyValue>>(
        &mut self,
        rt: &mut Runtime,
        d: &D,
        script: TestScript,
    ) -> (r: Result<(), ScriptError>)
        requires
            old(self).wf(*old(rt)),
            is_dispatcher(*d),
        ensures
            script_post(*old(self), *old(rt), *d, script.steps@, *final(self), *final(rt), r),
    {
        let ghost all = script.steps@;
        let ghost b0 = *self;
        let ghost rt0 = *rt;
        let ghost mut bs: Seq<TestBackend> = seq![*self];
        let ghost mut rts: Seq<Runtime> = seq![*rt];
        let ghost mut mids: Seq<Runtime> = Seq::empty();
        let TestScript { steps } = script;
        let n = steps.len();
        let mut index: usize = 0;
        let mut steps = steps;
        proof {
            assert(steps@ == all.subrange(0, n as int));
        }
        while index < n
            invariant
                self.wf(*rt),
                is_dispatcher(*d),
                index <= n,
                n == all.len(),
                all == script.steps@,
                b0 == *old(self),
                rt0 == *old(rt),
                steps@ == all.subrange(index as int, n as int),
                ran(*d, all, bs, rts, mids, index as nat),
                bs[0] == b0,
                rts[0] == rt0,
                bs.last() == *self,
                rts.last() == *rt,
            decreases n - index,
        {
            let step = steps.remove(0);
            proof {
                assert(step == all[index as int]);
                assert(steps@ == all.subrange(index + 1, n as int));
            }
            let propagate = step.action == TestAction::TriggerEvent;
            match self.step(rt, d, step) {
                Ok(()) => {},
                Err(error) => {
                    proof {
                        assert(ran(*d, all, bs, rts, mids, index as nat));
                    }
                    return Err(ScriptError { index, error });
                },
            }
            let ghost rtm = *rt;
            if propagate {
                let res = rt.propagate(d);
                proof {
                    self.lemma_wf_kept(rtm, *rt);
                }
                match res {
                    Ok(()) => {},
                    Err(err) => {
                        proof {
                            assert(ran(*d, all, bs, rts, mids, index as nat));
                            assert(bs.last().step_post(rts.last(), *d, all[index as int], *self, rtm, Ok(())));
                        }
                        return Err(ScriptError { index, error: StepError::Propagation(err) });
                    },
                }
            }
            proof {
                let bs2 = bs.push(*self);
                let rts2 = rts.push(*rt);
                let mids2 = mids.push(rtm);
                assert forall|j: int| 0 <= j < index + 1 implies #[trigger] bs2[j].step_post(
                    rts2[j],
                    *d,
                    all[j],
                    bs2[j + 1],
                    mids2[j],
                    Ok(()),
                ) && (if all[j].action is TriggerEvent {
                    propagated(mids2[j], rts2[j + 1], Ok(()))
                } else {
                    rts2[j + 1] == mids2[j]
                }) by {
                    if j < index {
                        assert(bs[j].step_post(rts[j], *d, all[j], bs[j + 1], mids[j], Ok(())));
                    } else {
                        assert(bs2[j] == bs.last());
                        assert(rts2[j] == rts.last());
                        assert(bs2[j + 1] == *self);
                        assert(mids2[j] == rtm);
                        assert(rts2[j + 1] == *rt);
                        if all[j].action is TriggerEvent {
                            assert(propagate);
                        } else {
                            assert(!propagate);
                        }
                    }
                }
                assert(bs2[0] == bs[0]);
                assert(rts2[0] == rts[0]);
                assert(ran(*d, all, bs2, rts2, mids2, (index + 1) as nat));
                bs = bs2;
                rts = rts2;
                mids = mids2;
            }
            index = index + 1;
        }
        proof {
            assert(ran(*d, all, bs, rts, mids, all.len()));
        }
        Ok(())
    }
}

impl TestScript {
    /// Run this script on the graph whose root node is `backend`.
    pub fn run<D: Fn(usize, &Vec<AnyValue>) -> Option<AnyValue>>(
        self,
        backend: &mut TestBackend,
        rt: &mut Runtime,
        d: &D,
    ) -> (r: Result<(), ScriptError>)
        requires
            old(backend).wf(*old(rt)),
            is_dispatcher(*d),
        ensures
            script_post(*old(backend), *old(rt), *d, self.steps@, *final(backend), *final(rt), r),
    {
        backend.main_loop(rt, d, self)
    }
}

} // verus!
