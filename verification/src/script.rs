//! The vocabulary of test scripts: steps that trigger external events and
//! state which events should fire and which values dynamics should have,
//! and the ways a step can fail.

use crate::any::AnyEventTrigger;
use crate::runtime::{Action, PropagationError, Runtime};
use crate::value::{AnyValue, TypeMismatch, Value, ValueType, same, same_value, spec_shape_name};
use vstd::prelude::*;

verus! {

broadcast use crate::runtime::group_runtime_defs;

/// Where an event, dynamic or trigger is: the path from the root node, and
/// the name of the item at that node.
#[derive(Debug)]
pub struct Path {
    /// How to navigate from the root node.
    pub indexes: Vec<usize>,
    /// Which item to look at once there: an event, dynamic or trigger name.
    pub name: String,
}

impl Path {
    /// A path from its parts.
    pub fn new(indexes: Vec<usize>, name: &str) -> (r: Path)
        ensures
            r.indexes@ == indexes@,
            r.name@ == name@,
    {
        Path { indexes, name: name.to_owned() }
    }

    /// Do the two paths lead to the same item?
    pub fn same_as(&self, other: &Path) -> (r: bool)
        ensures
            r == (self.indexes@ == other.indexes@ && self.name@ == other.name@),
    {
        if self.indexes.len() != other.indexes.len() {
            return false;
        }
        let mut i: usize = 0;
        while i < self.indexes.len()
            invariant
                self.indexes@.len() == other.indexes@.len(),
                i <= self.indexes@.len(),
                forall|k: int| 0 <= k < i ==> self.indexes@[k] == other.indexes@[k],
            decreases self.indexes@.len() - i,
        {
            if self.indexes[i] != other.indexes[i] {
                return false;
            }
            i = i + 1;
        }
        assert(self.indexes@ =~= other.indexes@);
        self.name == other.name
    }
}

impl Clone for Path {
    fn clone(&self) -> (r: Self)
        ensures
            r.indexes@ == self.indexes@,
            r.name@ == self.name@,
    {
        Path { indexes: self.indexes.clone(), name: self.name.clone() }
    }
}

/// What a step does.
#[derive(Debug, Clone, Copy, PartialEq, Eq, Structural)]
pub enum TestAction {
    /// Trigger an event, and propagate immediately.
    TriggerEvent,
    /// Trigger an event, to propagate with the next full trigger.
    DelayTriggerEvent,
    /// Expect the next event that fired.
    ExpectEvent,
    /// Query a dynamic and expect its value.
    ExpectDynamic,
    /// Expect that no event fired.
    Crickets,
}

/// One step of a script.
#[derive(Debug)]
pub struct TestStep {
    /// Where the item of the step is.
    pub path: Path,
    /// What the step does.
    pub action: TestAction,
    /// The value to trigger with or to expect.
    pub value: AnyValue,
}

/// A script: steps to run in order.
#[derive(Debug)]
pub struct TestScript {
    /// The steps.
    pub steps: Vec<TestStep>,
}

/// A script of the given steps.
pub fn script(steps: Vec<TestStep>) -> (r: TestScript)
    ensures
        r.steps@ == steps@,
{
    TestScript { steps }
}

/// A step of the given action, at `node_path` and `name`, with a value.
fn step<T: ValueType>(node_path: Vec<usize>, name: &str, action: TestAction, test_value: T) -> (r:
    TestStep)
    ensures
        r.path.indexes@ == node_path@,
        r.path.name@ == name@,
        r.action == action,
        r.value == test_value.spec_to_any(),
{
    TestStep { path: Path::new(node_path, name), action, value: test_value.to_any() }
}

/// Trigger the event named `name`, and propagate immediately.
pub fn trigger<T: ValueType>(node_path: Vec<usize>, name: &str, test_value: T) -> (r: TestStep)
    ensures
        r.path.indexes@ == node_path@,
        r.path.name@ == name@,
        r.action == TestAction::TriggerEvent,
        r.value == test_value.spec_to_any(),
{
    step(node_path, name, TestAction::TriggerEvent, test_value)
}

/// Trigger the event named `name`, but don't propagate yet.
pub fn delay_trigger<T: ValueType>(node_path: Vec<usize>, name: &str, test_value: T) -> (r: TestStep)
    ensures
        r.path.indexes@ == node_path@,
        r.path.name@ == name@,
        r.action == TestAction::DelayTriggerEvent,
        r.value == test_value.spec_to_any(),
{
    step(node_path, name, TestAction::DelayTriggerEvent, test_value)
}

/// Expect that no event fires at all.
pub fn crickets() -> (r: TestStep)
    ensures
        r.path.indexes@ == Seq::<usize>::empty(),
        r.path.name@ == Seq::<char>::empty(),
        r.action == TestAction::Crickets,
        r.value == AnyValue::Unit,
{
    let r = step(Vec::new(), "", TestAction::Crickets, ());
    proof {
        reveal_strlit("");
    }
    r
}

/// Expect that the event named `name` fires, with `test_value`.
pub fn event<T: ValueType>(node_path: Vec<usize>, name: &str, test_value: T) -> (r: TestStep)
    ensures
        r.path.indexes@ == node_path@,
        r.path.name@ == name@,
        r.action == TestAction::ExpectEvent,
        r.value == test_value.spec_to_any(),
{
    step(node_path, name, TestAction::ExpectEvent, test_value)
}

/// Expect that the dynamic named `name` has the value `test_value`.
pub fn dynamic<T: ValueType>(node_path: Vec<usize>, name: &str, test_value: T) -> (r: TestStep)
    ensures
        r.path.indexes@ == node_path@,
        r.path.name@ == name@,
        r.action == TestAction::ExpectDynamic,
        r.value == test_value.spec_to_any(),
{
    step(node_path, name, TestAction::ExpectDynamic, test_value)
}

/// A value that is not the one expected.
#[derive(Debug)]
pub enum Mismatch {
    /// Same type, another value.
    Value { expected: AnyValue, actual: AnyValue },
    /// Another type.
    Type(TypeMismatch),
    /// No value at all: a user function gave none.
    Missing { expected: AnyValue },
}

/// An event that fired, where, with which value.
#[derive(Debug)]
pub struct EventRecord {
    /// Where the event is.
    pub path: Path,
    /// The value it fired with.
    pub value: AnyValue,
}

/// Why a step failed.
#[derive(Debug)]
pub enum StepError {
    MissingDynamicName(String),
    MissingEventName(String),
    MissingTriggerName(String),
    BadEventTrigger { path: Path, mismatch: Mismatch },
    BadEventPath { expected: Path, actual: Path },
    BadEventValue { path: Path, mismatch: Mismatch },
    BadDynamic { path: Path, mismatch: Mismatch },
    NoDelegateAtPath { path: Path },
    NoItemAtPath { path: Path },
    EventsDone,
    ExtraEvents(EventRecord),
    /// Scheduling or propagating failed.
    Propagation(PropagationError),
}

/// Why a script failed: the step, by index, and its error.
#[derive(Debug)]
pub struct ScriptError {
    /// The index of the step that failed.
    pub index: usize,
    /// Why it failed.
    pub error: StepError,
}

/// The values a script can trigger events with and expect.
pub trait TestValue: ValueType + Sized + 'static {
    /// Schedule the event of `trigger` with this value, when the trigger's
    /// value type is this type.
    fn trigger(self, rt: &mut Runtime, trigger: &AnyEventTrigger) -> (r: Result<(), Mismatch>)
        requires
            old(rt).wf(),
            trigger.inner() < old(rt).num_events(),
            old(rt).event_node(trigger.inner() as int).kind is External,
            !old(rt).event_node(trigger.inner() as int).scheduled,
            !old(rt).propagating(),
        ensures
            final(rt).wf(),
            trigger.spec_type_name() != Self::spec_type_name() ==> (r matches Err(Mismatch::Type(m))
                && m.expected@ == Self::spec_type_name() && m.actual@ == trigger.spec_type_name())
                && *final(rt) == *old(rt),
            trigger.spec_type_name() == Self::spec_type_name() ==> {
                &&& r is Ok
                &&& final(rt).event_node(trigger.inner() as int).scheduled
                &&& final(rt).only_flag_changed(*old(rt), trigger.inner() as int)
                &&& final(rt).pending_at(0) == old(rt).pending_at(0).push(
                    Action::Trigger { event: trigger.inner(), value: self.spec_to_any() },
                )
                &&& forall|h: usize|
                    h != 0 ==> #[trigger] final(rt).pending_at(h) == old(rt).pending_at(h)
            },
    ;

    /// Check that `other` is this value.
    fn assert_eq(self, other: AnyValue) -> (r: Result<(), Mismatch>)
        ensures
            !Self::has_type(other) ==> (r matches Err(Mismatch::Type(m)) && m.expected@
                == Self::spec_type_name() && m.actual@ == spec_shape_name(other)),
            Self::has_type(other) && !same(self.spec_to_any(), other) ==> (r matches Err(
                Mismatch::Value { expected, actual },
            ) && expected == self.spec_to_any() && actual == other),
            Self::has_type(other) && same(self.spec_to_any(), other) ==> r is Ok,
    ;
}

impl<T: ValueType + 'static> TestValue for T {
    fn trigger(self, rt: &mut Runtime, trigger: &AnyEventTrigger) -> (r: Result<(), Mismatch>) {
        match trigger.try_get::<T>() {
            None => {
                let expected = T::type_string();
                let actual = trigger.value_type_name().to_owned();
                Err(Mismatch::Type(TypeMismatch { expected, actual }))
            },
            Some(t) => {
                rt.schedule_trigger(&t, Value::wrap(self));
                Ok(())
            },
        }
    }

    fn assert_eq(self, other: AnyValue) -> (r: Result<(), Mismatch>) {
        if !T::check(&other) {
            let expected = T::type_string();
            let actual = other.type_string();
            return Err(Mismatch::Type(TypeMismatch { expected, actual }));
        }
        let mine = self.to_any();
        if same_value(&mine, &other) {
            Ok(())
        } else {
            Err(Mismatch::Value { expected: mine, actual: other })
        }
    }
}

} // verus!
