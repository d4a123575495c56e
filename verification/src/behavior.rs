//! A [`Behavior`] represents the ability to query at any time for a lazy value that
//! changes over time.
//!
//! [`Behavior`] is the **pull** component of push-pull propagation. When you
//! query a value, it goes and finds out what the current value should be,
//! pulling the data. Behavior values are only computed when they are queried.
//!
//! Behaviors can originate from:
//!
//! 1. Holding the last fired value of an event.
//! 2. A constant value.
//! 3. A pure function of other behaviors.

use crate::event::Event;
use crate::function::{FnRef, is_dispatcher, spec_call};
use crate::runtime::{BehaviorKind, Runtime, join_depth, manager_count, spec_values};
use crate::subscriber_list::Callback;
use crate::value::{AnyValue, Value, ValueType};
use std::marker::PhantomData;
use vstd::prelude::*;
use vstd::string::StringExecFns;

verus! {

broadcast use crate::runtime::group_runtime_defs;

/// A handle of a behavior, useful for querying the value and constructing
/// other behaviors.
#[derive(Debug)]
pub struct Behavior<T> {
    id: usize,
    phantom: PhantomData<T>,
}

impl<T> View for Behavior<T> {
    type V = usize;

    /// The node of the runtime this handle names.
    closed spec fn view(&self) -> usize {
        self.id
    }
}

impl<T> Clone for Behavior<T> {
    fn clone(&self) -> (r: Self)
        ensures
            r == *self,
    {
        Behavior { id: self.id, phantom: PhantomData }
    }
}

impl<T> Copy for Behavior<T> {
}

impl<T> Behavior<T> {
    /// The handle of behavior node `id`.
    pub(crate) fn from_id(id: usize) -> (r: Self)
        ensures
            r@ == id,
    {
        Behavior { id, phantom: PhantomData }
    }

    /// The node this handle names.
    pub fn id(&self) -> (r: usize)
        ensures
            r == self@,
    {
        self.id
    }
}

impl<T: ValueType> ValueType for Behavior<T> {
    open spec fn has_type(v: AnyValue) -> bool {
        v is Behavior
    }

    closed spec fn spec_to_any(self) -> AnyValue {
        AnyValue::Behavior(self.id)
    }

    closed spec fn spec_from_any(v: AnyValue) -> Self {
        Behavior { id: v->Behavior_0, phantom: PhantomData }
    }

    open spec fn spec_type_name() -> Seq<char> {
        "Behavior<"@ + T::spec_type_name() + ">"@
    }

    fn to_any(&self) -> (r: AnyValue) {
        AnyValue::Behavior(self.id)
    }

    fn from_any(v: &AnyValue) -> (r: Self) {
        match v {
            AnyValue::Behavior(id) => Behavior { id: *id, phantom: PhantomData },
            _ => Behavior { id: 0, phantom: PhantomData },
        }
    }

    fn check(v: &AnyValue) -> (b: bool) {
        match v {
            AnyValue::Behavior(_) => true,
            _ => false,
        }
    }

    fn type_string() -> (s: String) {
        let mut s = String::from_str("Behavior<");
        let inner = T::type_string();
        s.append(inner.as_str());
        s.append(">");
        s
    }
}

impl<T: ValueType> Behavior<T> {
    /// The dynamic representation of this behavior as a value.
    pub proof fn lemma_to_any(self)
        ensures
            self.spec_to_any() == AnyValue::Behavior(self@),
            Self::spec_from_any(AnyValue::Behavior(self@)) == self,
    {
    }
}

/// How to compute a derived behavior: a user function applied to the
/// current values of the behaviors it reads, in order.
pub struct BehaviorComputation {
    /// The behaviors read, by node.
    pub inputs: Vec<usize>,
    /// The number of the user function.
    pub function: usize,
}

impl<T: ValueType> Behavior<T> {
    /// This returns a behavior whose value is and always will be the value
    /// you pass in.
    pub fn constant(rt: &mut Runtime, value: Value<T>) -> (r: Self)
        requires
            old(rt).wf(),
        ensures
            final(rt).wf(),
            r@ == old(rt).num_behaviors(),
            final(rt).num_behaviors() == old(rt).num_behaviors() + 1,
            final(rt).num_events() == old(rt).num_events(),
            final(rt).behavior_node(r@ as int).kind is Constant,
            final(rt).behavior_node(r@ as int).value == value.any(),
            final(rt).keeps_nodes(*old(rt)),
            old(rt).heights_ok() ==> final(rt).heights_ok(),
            old(rt).idle_queue() ==> final(rt).idle_queue(),
    {
        let v = value.to_any_value();
        let id = rt.add_behavior(BehaviorKind::Constant, v);
        Behavior::from_id(id)
    }

    /// Creates a behavior that has the value of `event` from the last
    /// occurrence in which the event fired. If it has never fired, it has
    /// the `initial` value.
    pub fn hold(rt: &mut Runtime, initial: Value<T>, event: &Event<T>) -> (r: Self)
        requires
            old(rt).wf(),
            event@ < old(rt).num_events(),
        ensures
            final(rt).wf(),
            r@ == old(rt).num_behaviors(),
            final(rt).num_behaviors() == old(rt).num_behaviors() + 1,
            final(rt).num_events() == old(rt).num_events(),
            final(rt).behavior_node(r@ as int).kind == (BehaviorKind::Hold { event: event@ }),
            final(rt).behavior_node(r@ as int).value == initial.any(),
            final(rt).keeps_nodes(*old(rt)),
            forall|ix: int|
                0 <= ix < manager_count(old(rt).event_node(event@ as int).kind) ==> (#[trigger] final(rt).manager(
                    old(rt).event_node(event@ as int).first_manager + ix,
                )).spec_subscribers().contains(Callback::Hold { behavior: r@ }),
            old(rt).heights_ok() ==> final(rt).heights_ok(),
            old(rt).idle_queue() ==> final(rt).idle_queue(),
    {
        let v = initial.to_any_value();
        let e = event.id();
        let id = rt.add_behavior(BehaviorKind::Hold { event: e }, v);
        rt.subscribe(e, Callback::Hold { behavior: id });
        Behavior::from_id(id)
    }

    /// Returns a behavior whose value is always `f(a)`, where `a` is the
    /// value of this behavior and `f` the user function with number `f`.
    pub fn map<O: ValueType>(&self, rt: &mut Runtime, f: usize) -> (r: Behavior<O>)
        requires
            old(rt).wf(),
            self@ < old(rt).num_behaviors(),
        ensures
            final(rt).wf(),
            r@ == old(rt).num_behaviors(),
            final(rt).num_behaviors() == old(rt).num_behaviors() + 1,
            final(rt).num_events() == old(rt).num_events(),
            final(rt).behavior_node(r@ as int).kind == (BehaviorKind::Apply {
                input: self@,
                f: FnRef::User(f),
            }),
            final(rt).keeps_nodes(*old(rt)),
            old(rt).heights_ok() ==> final(rt).heights_ok(),
            old(rt).idle_queue() ==> final(rt).idle_queue(),
    {
        self.map_with(rt, FnRef::User(f))
    }

    /// Returns a behavior whose value is always `f` of the value of this one.
    pub(crate) fn map_with<O: ValueType>(&self, rt: &mut Runtime, f: FnRef) -> (r: Behavior<O>)
        requires
            old(rt).wf(),
            self@ < old(rt).num_behaviors(),
        ensures
            final(rt).wf(),
            r@ == old(rt).num_behaviors(),
            final(rt).num_behaviors() == old(rt).num_behaviors() + 1,
            final(rt).num_events() == old(rt).num_events(),
            final(rt).behavior_node(r@ as int).kind == (BehaviorKind::Apply { input: self@, f }),
            final(rt).keeps_nodes(*old(rt)),
            old(rt).heights_ok() ==> final(rt).heights_ok(),
            old(rt).idle_queue() ==> final(rt).idle_queue(),
    {
        let id = rt.add_behavior(BehaviorKind::Apply { input: self.id, f }, AnyValue::Unit);
        Behavior::from_id(id)
    }

    /// Returns a behavior whose value is always `f(a, b)`, where `a` and `b`
    /// are the values of the two behaviors and `f` the user function with
    /// number `f`.
    pub fn map2<A: ValueType, B: ValueType>(
        rt: &mut Runtime,
        f: usize,
        a: &Behavior<A>,
        b: &Behavior<B>,
    ) -> (r: Self)
        requires
            old(rt).wf(),
            a@ < old(rt).num_behaviors(),
            b@ < old(rt).num_behaviors(),
        ensures
            final(rt).wf(),
            r@ == old(rt).num_behaviors(),
            final(rt).num_behaviors() == old(rt).num_behaviors() + 1,
            final(rt).num_events() == old(rt).num_events(),
            final(rt).behavior_node(r@ as int).kind == (BehaviorKind::Apply2 {
                a: a@,
                b: b@,
                f2: FnRef::User(f),
            }),
            final(rt).keeps_nodes(*old(rt)),
            old(rt).heights_ok() ==> final(rt).heights_ok(),
            old(rt).idle_queue() ==> final(rt).idle_queue(),
    {
        let id = rt.add_behavior(
            BehaviorKind::Apply2 { a: a.id, b: b.id, f2: FnRef::User(f) },
            AnyValue::Unit,
        );
        Behavior::from_id(id)
    }

    /// Construct a new behavior from a [`BehaviorComputation`]: its value is
    /// always the computation's function applied to the values of its inputs.
    pub fn computation_behavior(rt: &mut Runtime, computation: BehaviorComputation) -> (r: Self)
        requires
            old(rt).wf(),
            forall|i: int|
                0 <= i < computation.inputs@.len() ==> #[trigger] computation.inputs@[i]
                    < old(rt).num_behaviors(),
        ensures
            final(rt).wf(),
            r@ == old(rt).num_behaviors(),
            final(rt).num_behaviors() == old(rt).num_behaviors() + 1,
            final(rt).num_events() == old(rt).num_events(),
            final(rt).behavior_node(r@ as int).kind matches BehaviorKind::Computation { inputs, fn_n }
                && inputs@ == computation.inputs@ && fn_n == FnRef::User(computation.function),
            final(rt).keeps_nodes(*old(rt)),
            old(rt).heights_ok() ==> final(rt).heights_ok(),
            old(rt).idle_queue() ==> final(rt).idle_queue(),
    {
        let BehaviorComputation { inputs, function } = computation;
        let id = rt.add_behavior(
            BehaviorKind::Computation { inputs, fn_n: FnRef::User(function) },
            AnyValue::Unit,
        );
        Behavior::from_id(id)
    }

    /// The current value of this behavior, user functions interpreted by `d`.
    pub fn query<D: Fn(usize, &Vec<AnyValue>) -> Option<AnyValue>>(&self, rt: &Runtime, d: &D) -> (r:
        Option<AnyValue>)
        requires
            rt.wf(),
            is_dispatcher(*d),
            self@ < rt.num_behaviors(),
        ensures
            r == rt.value_of(*d, self@ as int),
    {
        rt.query(d, self.id)
    }
}

impl<T: ValueType> Behavior<Behavior<T>> {
    /// Given a behavior whose values are behaviors, a behavior that always
    /// has the current value of the current inner behavior.
    pub fn join(&self, rt: &mut Runtime) -> (r: Behavior<T>)
        requires
            old(rt).wf(),
            self@ < old(rt).num_behaviors(),
        ensures
            final(rt).wf(),
            r@ == old(rt).num_behaviors(),
            final(rt).num_behaviors() == old(rt).num_behaviors() + 1,
            final(rt).num_events() == old(rt).num_events(),
            final(rt).behavior_node(r@ as int).kind == (BehaviorKind::Join { outer: self@ }),
            final(rt).keeps_nodes(*old(rt)),
            old(rt).heights_ok() ==> final(rt).heights_ok(),
            old(rt).idle_queue() ==> final(rt).idle_queue(),
    {
        let id = rt.add_behavior(BehaviorKind::Join { outer: self.id }, AnyValue::Unit);
        Behavior::from_id(id)
    }
}

/// The values of the behaviors `ins`, in order, if all of them have one.
pub open spec fn values_of<D: Fn(usize, &Vec<AnyValue>) -> Option<AnyValue>>(
    rt: Runtime,
    d: D,
    ins: Seq<usize>,
) -> Option<Seq<AnyValue>>
    decreases ins.len(),
{
    if ins.len() == 0 {
        Some(Seq::empty())
    } else {
        match (values_of(rt, d, ins.drop_last()), rt.value_of(d, ins.last() as int)) {
            (Some(xs), Some(x)) => Some(xs.push(x)),
            _ => None,
        }
    }
}

/// A constant behavior, or one that holds an event, has the value stored in
/// its node.
pub proof fn lemma_stored_value<D: Fn(usize, &Vec<AnyValue>) -> Option<AnyValue>>(rt: Runtime, d: D, b: int)
    requires
        rt.wf(),
        0 <= b < rt.num_behaviors(),
        rt.behavior_node(b).kind is Constant || rt.behavior_node(b).kind is Hold,
    ensures
        rt.value_of(d, b) == Some(rt.behavior_node(b).value),
{
}

/// A mapped behavior's value is always its function of its input's value.
pub proof fn lemma_map_value<D: Fn(usize, &Vec<AnyValue>) -> Option<AnyValue>>(rt: Runtime, d: D, b: int)
    requires
        rt.wf(),
        0 <= b < rt.num_behaviors(),
        rt.behavior_node(b).kind is Apply,
    ensures
        rt.behavior_node(b).kind matches BehaviorKind::Apply { input, f } && rt.value_of(d, b)
            == match rt.value_of(d, input as int) {
            Some(x) => spec_call(d, f, seq![x]),
            None => None,
        },
{
    assert(rt.behavior_ok(b));
}

/// A behavior mapped from two is always its function of their values.
pub proof fn lemma_map2_value<D: Fn(usize, &Vec<AnyValue>) -> Option<AnyValue>>(rt: Runtime, d: D, b: int)
    requires
        rt.wf(),
        0 <= b < rt.num_behaviors(),
        rt.behavior_node(b).kind is Apply2,
    ensures
        rt.behavior_node(b).kind matches BehaviorKind::Apply2 { a, b: bb, f2 } && rt.value_of(d, b)
            == match (rt.value_of(d, a as int), rt.value_of(d, bb as int)) {
            (Some(x), Some(y)) => spec_call(d, f2, seq![x, y]),
            _ => None,
        },
{
    assert(rt.behavior_ok(b));
}

/// A joined behavior has the value of the behavior its outer behavior
/// currently holds; following it spends one level of depth.
pub proof fn lemma_join_value<D: Fn(usize, &Vec<AnyValue>) -> Option<AnyValue>>(
    rt: Runtime,
    d: D,
    b: int,
    depth: nat,
)
    requires
        rt.wf(),
        0 <= b < rt.num_behaviors(),
        rt.behavior_node(b).kind is Join,
    ensures
        rt.value_of(d, b) == rt.value_at_depth(d, b, join_depth()),
        rt.behavior_node(b).kind matches BehaviorKind::Join { outer } && rt.value_at_depth(d, b, depth)
            == match rt.value_at_depth(d, outer as int, depth) {
            Some(AnyValue::Behavior(j)) => if depth == 0 {
                None
            } else {
                rt.value_at_depth(d, j as int, (depth - 1) as nat)
            },
            _ => None,
        },
        rt.behavior_node(b).kind matches BehaviorKind::Join { outer } && rt.value_at_depth(d, outer as int, join_depth())
            == rt.value_of(d, outer as int),
{
    assert(rt.behavior_ok(b));
}

/// The values computed for the inputs of a computation are their values.
proof fn lemma_spec_values<D: Fn(usize, &Vec<AnyValue>) -> Option<AnyValue>>(
    rt: Runtime,
    d: D,
    ins: Seq<usize>,
    k: nat,
    owner: int,
)
    requires
        k <= ins.len(),
        forall|i: int| 0 <= i < ins.len() ==> #[trigger] ins[i] < owner,
    ensures
        spec_values(d, rt.behaviors@, ins, k, join_depth(), owner) == values_of(rt, d, ins.take(k as int)),
    decreases k,
{
    if k > 0 {
        lemma_spec_values(rt, d, ins, (k - 1) as nat, owner);
        assert(ins.take(k as int).drop_last() =~= ins.take(k - 1));
        assert(ins.take(k as int).last() == ins[k - 1]);
    } else {
        assert(ins.take(0) =~= Seq::<usize>::empty());
    }
}

/// A computed behavior's value is always its function of the values of its
/// inputs.
pub proof fn lemma_computation_value<D: Fn(usize, &Vec<AnyValue>) -> Option<AnyValue>>(rt: Runtime, d: D, b: int)
    requires
        rt.wf(),
        0 <= b < rt.num_behaviors(),
        rt.behavior_node(b).kind is Computation,
    ensures
        rt.behavior_node(b).kind matches BehaviorKind::Computation { inputs, fn_n } && rt.value_of(d, b)
            == match values_of(rt, d, inputs@) {
            Some(xs) => spec_call(d, fn_n, xs),
            None => None,
        },
{
    assert(rt.behavior_ok(b));
    let inputs = rt.behavior_node(b).kind->inputs;
    lemma_spec_values(rt, d, inputs@, inputs@.len(), b);
    assert(inputs@.take(inputs@.len() as int) =~= inputs@);
}

} // verus!
