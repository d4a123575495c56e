//! A [`Runtime`] represents a graph of behaviors, events, and dynamics.
//!
//! Its key method is `propagate()`. During propagation of an *occurrence*, every event
//! is either fired or not, and if it's fired it has a value.
//!
//! Then, behaviors are updated to reflect any changes that occurred as a
//! result of those events.
//!
//! Prior to propagation, external actors can explicitly trigger
//! events. Those events don't actually do anything until propagation
//! begins.
//!
//! The runtime owns every node of the graph; the handles given out
//! ([`crate::event::Event`], [`crate::behavior::Behavior`], ...) name nodes of it.

use crate::function::{FnRef, spec_call};
use crate::subscriber_list::{Callback, Liveness, SubscriptionManager, live_only, lemma_live_only, lemma_live_only_keeps};
use crate::value::AnyValue;
use vstd::prelude::*;

verus! {

/// What an event node computes.
pub enum EventKind {
    /// Fired from outside by scheduling a trigger.
    External,
    /// Never fires.
    Never,
    /// Fires with `f(v)` when `inner` fires with `v` and `f(v)` is a value.
    FilterMap { inner: usize, f: FnRef },
    /// Fires with the value of the first of `inputs` that fired.
    Leftmost { inputs: Vec<usize> },
    /// Fires with `f` of the firings of `a` and `b` (each already tagged as
    /// first or second).
    Combine { a: usize, b: usize, combiner: FnRef },
    /// Fires with `f(v, w)` when `event` fires with `v`, where `w` is the value
    /// of `behavior` before the occurrence.
    Tag { event: usize, behavior: usize, tagger: FnRef },
    /// Fires when the event last carried by `outer` fires.
    SwitchHold { outer: usize },
}

/// An event of the graph, with its per-occurrence state.
pub struct EventNode {
    /// What the event computes.
    pub kind: EventKind,
    /// Index of its first subscriber list; it has `manager_count(kind)` of them.
    pub first_manager: usize,
    /// For an external event: a trigger is scheduled and not yet processed.
    pub scheduled: bool,
    /// For a leftmost event: the best firing seen in this occurrence, with the
    /// index of the input it came from.
    pub winner: Option<(AnyValue, usize)>,
    /// For a combined event: the firings seen in this occurrence.
    pub pending: Option<AnyValue>,
    /// For a switching event: the event it currently follows.
    pub inner: Option<usize>,
}

/// What a behavior node computes.
pub enum BehaviorKind {
    /// Always the stored value.
    Constant,
    /// The value of the last firing of `event`, stored.
    Hold { event: usize },
    /// `f` of the value of `input`.
    Apply { input: usize, f: FnRef },
    /// `f` of the values of `a` and `b`.
    Apply2 { a: usize, b: usize, f2: FnRef },
    /// The value of the behavior that `outer` currently has as its value.
    Join { outer: usize },
    /// `f` of the values of `inputs`.
    Computation { inputs: Vec<usize>, fn_n: FnRef },
}

/// A behavior of the graph.
pub struct BehaviorNode {
    /// What the behavior computes.
    pub kind: BehaviorKind,
    /// The stored value of a constant or held behavior.
    pub value: AnyValue,
}

/// Work scheduled during an occurrence.
pub enum Action {
    /// An external event fires with `value`.
    Trigger { event: usize, value: AnyValue },
    /// A derived event handles a firing of its input number `tag`.
    Main { event: usize, value: AnyValue, tag: usize },
    /// A held behavior takes `value`.
    Hold { behavior: usize, value: AnyValue },
    /// A switching event starts following `inner`.
    Switch { event: usize, inner: usize },
}

impl Clone for Action {
    fn clone(&self) -> (r: Self)
        ensures
            r == *self,
    {
        match self {
            Action::Trigger { event, value } => Action::Trigger { event: *event, value: value.clone() },
            Action::Main { event, value, tag } => Action::Main {
                event: *event,
                value: value.clone(),
                tag: *tag,
            },
            Action::Hold { behavior, value } => Action::Hold {
                behavior: *behavior,
                value: value.clone(),
            },
            Action::Switch { event, inner } => Action::Switch { event: *event, inner: *inner },
        }
    }
}

/// The actions scheduled at one height.
pub struct Round {
    /// The height of the actions.
    pub height: usize,
    /// The actions, in the order they were scheduled.
    pub actions: Vec<Action>,
}

/// Why propagation stopped.
#[derive(Debug)]
pub enum PropagationError {
    /// An action was scheduled at a height not above the one being processed.
    HeightNotIncreasing { height: usize, current: usize },
    /// Propagation was started while another one had not finished.
    AlreadyPropagating,
    /// The same external event was triggered twice before propagating.
    AlreadyScheduled,
}

/// An instance of a reactive graph.
pub struct Runtime {
    pub(crate) events: Vec<EventNode>,
    pub(crate) managers: Vec<SubscriptionManager>,
    pub(crate) behaviors: Vec<BehaviorNode>,
    pub(crate) live: Liveness,
    pub(crate) logs: Vec<Vec<AnyValue>>,
    pub(crate) queue: Vec<Round>,
    pub(crate) height: Option<usize>,
}

/// Inside the crate, well-formedness is its definition.
pub(crate) broadcast proof fn lemma_wf_def(rt: Runtime)
    ensures
        #[trigger] rt.wf() <==> rt.inv(),
{
}

/// The definition of the public view of the queue.
pub(crate) broadcast proof fn lemma_pending_def(rt: Runtime, h: usize)
    ensures
        #[trigger] rt.pending_at(h) == actions_at(rt.queue@, h),
{
}

/// The definition of `Runtime::num_events`, for the modules of this crate.
pub(crate) broadcast proof fn lemma_num_events_def(rt: Runtime)
    ensures
        #[trigger] rt.num_events() == rt.events@.len(),
{
}

/// The definition of `Runtime::num_behaviors`, for the modules of this crate.
pub(crate) broadcast proof fn lemma_num_behaviors_def(rt: Runtime)
    ensures
        #[trigger] rt.num_behaviors() == rt.behaviors@.len(),
{
}

/// The definition of `Runtime::num_logs`, for the modules of this crate.
pub(crate) broadcast proof fn lemma_num_logs_def(rt: Runtime)
    ensures
        #[trigger] rt.num_logs() == rt.logs@.len(),
{
}

/// The definition of `Runtime::propagating`, for the modules of this crate.
pub(crate) broadcast proof fn lemma_propagating_def(rt: Runtime)
    ensures
        #[trigger] rt.propagating() == rt.height is Some,
{
}

/// The definition of `Runtime::queue_empty`, for the modules of this crate.
pub(crate) broadcast proof fn lemma_queue_empty_def(rt: Runtime)
    ensures
        #[trigger] rt.queue_empty() == (rt.queue@.len() == 0),
{
}

/// The definition of `Runtime::liveness`, for the modules of this crate.
pub(crate) broadcast proof fn lemma_liveness_def(rt: Runtime)
    ensures
        #[trigger] rt.liveness() == rt.live,
{
}

/// The definition of `Runtime::log_of`, for the modules of this crate.
pub(crate) broadcast proof fn lemma_log_of_def(rt: Runtime, i: int)
    ensures
        #[trigger] rt.log_of(i) == rt.logs@[i]@,
{
}

/// The definition of `Runtime::log_alive`, for the modules of this crate.
pub(crate) broadcast proof fn lemma_log_alive_def(rt: Runtime, i: int)
    ensures
        #[trigger] rt.log_alive(i) == rt.live.logs@[i],
{
}

/// The definition of `Runtime::event_node`, for the modules of this crate.
pub(crate) broadcast proof fn lemma_event_node_def(rt: Runtime, i: int)
    ensures
        #[trigger] rt.event_node(i) == rt.events@[i],
{
}

/// The definition of `Runtime::behavior_node`, for the modules of this crate.
pub(crate) broadcast proof fn lemma_behavior_node_def(rt: Runtime, i: int)
    ensures
        #[trigger] rt.behavior_node(i) == rt.behaviors@[i],
{
}

/// The definition of `Runtime::value_of`, for the modules of this crate.
pub(crate) broadcast proof fn lemma_value_of_def<D: Fn(usize, &Vec<AnyValue>) -> Option<AnyValue>>(rt: Runtime, d: D, i: int)
    ensures
        #[trigger] rt.value_of(d, i) == spec_value(d, rt.behaviors@, i, join_depth()),
{
}

/// The definition of `Runtime::value_at_depth`, for the modules of this crate.
pub(crate) broadcast proof fn lemma_value_at_depth_def<D: Fn(usize, &Vec<AnyValue>) -> Option<AnyValue>>(rt: Runtime, d: D, i: int, n: nat)
    ensures
        #[trigger] rt.value_at_depth(d, i, n) == spec_value(d, rt.behaviors@, i, n),
{
}

/// The definition of `Runtime::height_of`, for the modules of this crate.
pub(crate) broadcast proof fn lemma_height_of_def(rt: Runtime, i: int)
    ensures
        #[trigger] rt.height_of(i) == spec_height(rt.events@, i, rt.events@.len()),
{
}

/// The definition of `Runtime::manager`, for the modules of this crate.
pub(crate) broadcast proof fn lemma_manager_def(rt: Runtime, i: int)
    ensures
        #[trigger] rt.manager(i) == rt.managers@[i],
{
}

/// The definition of `Runtime::hears`, for the modules of this crate.
pub(crate) broadcast proof fn lemma_hears_def(rt: Runtime, z: usize, u: usize)
    ensures
        #[trigger] rt.hears(z, u) == exists|t: usize, tok: usize|
            #[trigger] rt.managers@[rt.events@[u as int].first_manager as int].spec_subscribers().contains(
                Callback::Main { event: z, tag: t, token: tok },
            ) && rt.live.alive(Callback::Main { event: z, tag: t, token: tok }),
{
}

/// The definition of `Runtime::quiet`, for the modules of this crate.
pub(crate) broadcast proof fn lemma_quiet_def(rt: Runtime, e: int)
    ensures
        #[trigger] rt.quiet(e) == forall|ix: int|
            0 <= ix < manager_count(rt.events@[e].kind) ==> (#[trigger] rt.managers@[rt.events@[e].first_manager
                + ix]).spec_subscribers().len() == 0 && rt.managers@[rt.events@[e].first_manager
                + ix].spec_subscription() is None,
{
}

/// A subscription that stays subscribed and alive keeps `z` hearing `u`.
pub(crate) proof fn lemma_hears_kept(a: Runtime, b: Runtime, z: usize, u: usize)
    requires
        a.wf(),
        a.hears(z, u),
        (u as int) < a.events@.len(),
        manager_count(a.events@[u as int].kind) > 0,
        b.subs_kept(a),
        b.tokens_kept(a),
        b.events@[u as int].first_manager == a.events@[u as int].first_manager,
    ensures
        b.hears(z, u),
{
    let m = a.events@[u as int].first_manager as int;
    assert(a.event_ok(u as int));
    assert(a.managers@[a.events@[u as int].first_manager + 0] == a.managers@[m]);
    let (t, tok) = choose|t: usize, tok: usize|
        #[trigger] a.managers@[m].spec_subscribers().contains(Callback::Main { event: z, tag: t, token: tok })
            && a.live.alive(Callback::Main { event: z, tag: t, token: tok });
    let c = Callback::Main { event: z, tag: t, token: tok };
    assert(b.managers@[m].spec_subscribers().contains(c));
    assert(b.live.alive(c));
}

/// The definition of `Runtime::keeps_nodes`, for the modules of this crate.
pub(crate) broadcast proof fn lemma_keeps_nodes_def(rt: Runtime, old: Runtime)
    ensures
        #[trigger] rt.keeps_nodes(old) == {
        &&& rt.events@.len() >= old.events@.len()
        &&& (forall|e: int| 0 <= e < old.events@.len() ==> #[trigger] rt.events@[e] == old.events@[e])
        &&& rt.behaviors@.len() >= old.behaviors@.len()
        &&& (forall|b: int|
            0 <= b < old.behaviors@.len() ==> #[trigger] rt.behaviors@[b] == old.behaviors@[b])
        &&& rt.logs@.len() >= old.logs@.len()
        &&& (forall|l: int| 0 <= l < old.logs@.len() ==> #[trigger] rt.logs@[l] == old.logs@[l])
        &&& (forall|l: int| 0 <= l < old.logs@.len() ==> #[trigger] rt.live.logs@[l] == old.live.logs@[l])
        &&& rt.queue@ == old.queue@
        &&& rt.height == old.height
        },
{
}

/// The definition of `Runtime::only_flag_changed`, for the modules of this crate.
pub(crate) broadcast proof fn lemma_only_flag_changed_def(rt: Runtime, old: Runtime, e: int)
    ensures
        #[trigger] rt.only_flag_changed(old, e) == {
        &&& rt.events@.len() == old.events@.len()
        &&& (forall|f: int|
            0 <= f < rt.events@.len() && f != e ==> #[trigger] rt.events@[f] == old.events@[f])
        &&& rt.events@[e].kind == old.events@[e].kind
        &&& rt.events@[e].first_manager == old.events@[e].first_manager
        &&& rt.events@[e].winner == old.events@[e].winner
        &&& rt.events@[e].pending == old.events@[e].pending
        &&& rt.events@[e].inner == old.events@[e].inner
        &&& rt.managers@ == old.managers@
        &&& rt.behaviors@ == old.behaviors@
        &&& rt.live == old.live
        &&& rt.logs@ == old.logs@
        &&& rt.height == old.height
        },
{
}

/// The definitions of the public views of a runtime.
pub(crate) broadcast group group_runtime_defs {
    lemma_keeps_nodes_def,
    lemma_wf_def,
    lemma_pending_def,
    lemma_num_events_def,
    lemma_num_behaviors_def,
    lemma_num_logs_def,
    lemma_propagating_def,
    lemma_queue_empty_def,
    lemma_liveness_def,
    lemma_log_of_def,
    lemma_log_alive_def,
    lemma_event_node_def,
    lemma_behavior_node_def,
    lemma_value_of_def,
    lemma_value_at_depth_def,
    lemma_height_of_def,
    lemma_manager_def,
    lemma_hears_def,
    lemma_quiet_def,
    lemma_only_flag_changed_def,
    lemma_heights_ok_def,
    lemma_idle_queue_def,
}

/// An event that names existing nodes still does once nodes are added.
pub(crate) proof fn lemma_event_ok_grow(a: Runtime, b: Runtime, e: int)
    requires
        0 <= e < a.events@.len(),
        a.event_ok(e),
        b.events@[e] == a.events@[e],
        b.events@.len() >= a.events@.len(),
        b.behaviors@.len() >= a.behaviors@.len(),
        b.managers@.len() >= a.managers@.len(),
        forall|m: int| 0 <= m < a.managers@.len() ==> #[trigger] b.managers@[m] == a.managers@[m],
    ensures
        b.event_ok(e),
{
    let n = a.events@[e];
    match n.kind {
        EventKind::Leftmost { inputs } => {
            assert forall|i: int| 0 <= i < inputs@.len() implies #[trigger] inputs@[i] < b.events@.len() by {
                assert(inputs@[i] < a.events@.len());
            }
        },
        _ => {},
    }
    assert forall|ix: int| 0 <= ix < manager_count(n.kind) implies #[trigger] b.managers@[n.first_manager + ix].spec_owner() == e
        && b.managers@[n.first_manager + ix].spec_tag() == ix by {
        assert(a.managers@[n.first_manager + ix].spec_owner() == e);
        assert(b.managers@[n.first_manager + ix] == a.managers@[n.first_manager + ix]);
    }
}

/// With events above what they listen to and no higher than their number,
/// the height of an event does not change with a search at least as deep as
/// the height itself.
pub(crate) proof fn lemma_height_stable(s: Runtime, e: int, f: nat)
    requires
        s.inv(),
        s.spec_heights_ok(),
        0 <= e < s.events@.len(),
        f >= s.height_of(e),
    ensures
        spec_height(s.events@, e, f) == s.height_of(e),
    decreases s.height_of(e), 1nat, 0nat,
{
    let ev = s.events@;
    let n = ev.len();
    assert(s.event_ok(e));
    match ev[e].kind {
        EventKind::FilterMap { inner, .. } => {
            assert(s.spec_upstream(e, 0) == Some(inner));
            lemma_height_stable(s, inner as int, (n - 1) as nat);
            lemma_height_stable(s, inner as int, (f - 1) as nat);
        },
        EventKind::Tag { event, .. } => {
            assert(s.spec_upstream(e, 0) == Some(event));
            lemma_height_stable(s, event as int, (n - 1) as nat);
            lemma_height_stable(s, event as int, (f - 1) as nat);
        },
        EventKind::SwitchHold { .. } => {
            if let Some(i) = ev[e].inner {
                assert(s.spec_upstream(e, 0) == Some(i));
                lemma_height_stable(s, i as int, (n - 1) as nat);
                lemma_height_stable(s, i as int, (f - 1) as nat);
            }
        },
        EventKind::Combine { a, b, .. } => {
            assert(s.spec_upstream(e, 0) == Some(a));
            assert(s.spec_upstream(e, 1) == Some(b));
            lemma_height_stable(s, a as int, (n - 1) as nat);
            lemma_height_stable(s, a as int, (f - 1) as nat);
            lemma_height_stable(s, b as int, (n - 1) as nat);
            lemma_height_stable(s, b as int, (f - 1) as nat);
        },
        EventKind::Leftmost { inputs } => {
            assert forall|i: int| 0 <= i < inputs@.len() implies s.height_of(#[trigger] inputs@[i] as int) < s.height_of(e) by {
                assert(s.spec_upstream(e, i) == Some(inputs@[i]));
            }
            lemma_max_height_stable(s, e, inputs@, inputs@.len(), (f - 1) as nat, (n - 1) as nat);
        },
        _ => {},
    }
}

/// [`lemma_height_stable`] for the highest of the heights of the first `k`
/// inputs of event `p`.
pub(crate) proof fn lemma_max_height_stable(s: Runtime, p: int, ins: Seq<usize>, k: nat, f: nat, g: nat)
    requires
        s.inv(),
        s.spec_heights_ok(),
        0 <= p < s.events@.len(),
        k <= ins.len(),
        forall|i: int| 0 <= i < ins.len() ==> #[trigger] ins[i] < s.events@.len(),
        forall|i: int| 0 <= i < ins.len() ==> s.height_of(#[trigger] ins[i] as int) < s.height_of(p),
        f + 1 >= s.height_of(p),
        g + 1 >= s.height_of(p),
    ensures
        max_height(s.events@, ins, k, f) == max_height(s.events@, ins, k, g),
    decreases s.height_of(p), 0nat, k,
{
    if k > 0 {
        lemma_max_height_stable(s, p, ins, (k - 1) as nat, f, g);
        let u = ins[k - 1] as int;
        assert(s.height_of(u) < s.height_of(p));
        lemma_height_stable(s, u, f);
        lemma_height_stable(s, u, g);
    }
}

/// Adding a node at the end changes no height of the nodes before it, which
/// only name nodes before it.
pub(crate) proof fn lemma_height_push(a: Runtime, x: EventNode, e: int, f: nat)
    requires
        a.inv(),
        0 <= e < a.events@.len(),
    ensures
        spec_height(a.events@.push(x), e, f) == spec_height(a.events@, e, f),
    decreases f, 0nat,
{
    let ev = a.events@;
    let ev2 = ev.push(x);
    assert(ev2[e] == ev[e]);
    assert(a.event_ok(e));
    if f > 0 {
        let g = (f - 1) as nat;
        match ev[e].kind {
            EventKind::FilterMap { inner, .. } => lemma_height_push(a, x, inner as int, g),
            EventKind::Tag { event, .. } => lemma_height_push(a, x, event as int, g),
            EventKind::SwitchHold { .. } => {
                if let Some(i) = ev[e].inner {
                    lemma_height_push(a, x, i as int, g);
                }
            },
            EventKind::Combine { a: p, b: q, .. } => {
                lemma_height_push(a, x, p as int, g);
                lemma_height_push(a, x, q as int, g);
            },
            EventKind::Leftmost { inputs } => lemma_max_height_push(a, x, inputs@, inputs@.len(), g),
            _ => {},
        }
    }
}

/// [`lemma_height_push`] for the highest of the heights of `k` nodes.
pub(crate) proof fn lemma_max_height_push(a: Runtime, x: EventNode, ins: Seq<usize>, k: nat, f: nat)
    requires
        a.inv(),
        k <= ins.len(),
        forall|i: int| 0 <= i < ins.len() ==> #[trigger] ins[i] < a.events@.len(),
    ensures
        max_height(a.events@.push(x), ins, k, f) == max_height(a.events@, ins, k, f),
    decreases f, k + 1,
{
    if k > 0 {
        lemma_max_height_push(a, x, ins, (k - 1) as nat, f);
        lemma_height_push(a, x, ins[k - 1] as int, f);
    }
}

/// The highest of `k` heights is at least each of them, and at most any
/// bound above all of them.
pub(crate) proof fn lemma_max_height_bounds(ev: Seq<EventNode>, ins: Seq<usize>, k: nat, f: nat, bound: nat)
    requires
        k <= ins.len(),
        forall|i: int| 0 <= i < k ==> spec_height(ev, #[trigger] ins[i] as int, f) <= bound,
    ensures
        forall|i: int| 0 <= i < k ==> spec_height(ev, #[trigger] ins[i] as int, f) <= max_height(ev, ins, k, f),
        max_height(ev, ins, k, f) <= bound,
    decreases k,
{
    if k > 0 {
        lemma_max_height_bounds(ev, ins, (k - 1) as nat, f, bound);
    }
}

/// Adding an event that names earlier events keeps events above what they
/// listen to and below their number.
pub(crate) proof fn lemma_heights_add_event(a: Runtime, b: Runtime)
    requires
        a.inv(),
        a.spec_heights_ok(),
        b.events@.len() == a.events@.len() + 1,
        forall|e: int| 0 <= e < a.events@.len() ==> #[trigger] b.events@[e] == a.events@[e],
        a.kind_ok(b.events@[a.events@.len() as int].kind),
        b.events@[a.events@.len() as int].inner is None,
        b.managers@.len() >= a.managers@.len(),
        forall|m: int| 0 <= m < a.managers@.len() ==> #[trigger] b.managers@[m] == a.managers@[m],
        forall|m: int| a.managers@.len() <= m < b.managers@.len() ==> (#[trigger] b.managers@[m]).spec_subscribers().len() == 0,
        b.live == a.live,
    ensures
        b.spec_heights_ok(),
{
    let n = a.events@.len();
    let x = b.events@[n as int];
    assert(b.events@ =~= a.events@.push(x));
    assert forall|e: int| 0 <= e < n implies #[trigger] b.height_of(e) == a.height_of(e) by {
        lemma_height_push(a, x, e, n + 1);
        lemma_height_stable(a, e, n + 1);
    }
    assert(b.height_of(n as int) <= n + 1) by {
        assert(b.height_of(n as int) == spec_height(b.events@, n as int, n + 1));
        assert(b.events@[n as int] == x);
        match x.kind {
            EventKind::FilterMap { inner, .. } => {
                lemma_height_push(a, x, inner as int, n);
                assert(a.height_of(inner as int) <= n);
                assert(spec_height(b.events@, inner as int, n) <= n);
                assert(b.events@[n as int].kind == x.kind);
                assert(spec_height(b.events@, n as int, n + 1) == spec_height(b.events@, inner as int, n) + 1);
                assert(b.height_of(n as int) == spec_height(b.events@, n as int, n + 1));
            },
            EventKind::Tag { event, .. } => {
                lemma_height_push(a, x, event as int, n);
                assert(a.height_of(event as int) <= n);
                assert(spec_height(b.events@, event as int, n) <= n);
            },
            EventKind::Combine { a: p, b: q, .. } => {
                lemma_height_push(a, x, p as int, n);
                lemma_height_push(a, x, q as int, n);
                assert(a.height_of(p as int) <= n);
                assert(a.height_of(q as int) <= n);
                assert(spec_height(b.events@, p as int, n) <= n);
                assert(spec_height(b.events@, q as int, n) <= n);
            },
            EventKind::Leftmost { inputs } => {
                lemma_max_height_push(a, x, inputs@, inputs@.len(), n);
                assert forall|i: int| 0 <= i < inputs@.len() implies spec_height(a.events@, #[trigger] inputs@[i] as int, n) <= n by {
                    assert(a.height_of(inputs@[i] as int) <= n);
                }
                lemma_max_height_bounds(a.events@, inputs@, inputs@.len(), n, n);
                assert(max_height(b.events@, inputs@, inputs@.len(), n) <= n);
            },
            EventKind::SwitchHold { .. } => {
                assert(x.inner is None);
            },
            _ => {},
        }
    }
    assert forall|e: int, ix: int|
        0 <= e < b.events@.len() && 0 <= ix < manager_count(b.events@[e].kind) && #[trigger] b.spec_upstream(e, ix) is Some
            implies b.height_of(b.spec_upstream(e, ix)->0 as int) < b.height_of(e) by {
        if e < n {
            assert(a.spec_upstream(e, ix) == b.spec_upstream(e, ix));
            assert(a.event_ok(e));
        } else {
            match x.kind {
                EventKind::FilterMap { inner, .. } => lemma_height_push(a, x, inner as int, n),
                EventKind::Tag { event, .. } => lemma_height_push(a, x, event as int, n),
                EventKind::Combine { a: p, b: q, .. } => {
                    lemma_height_push(a, x, p as int, n);
                    lemma_height_push(a, x, q as int, n);
                },
                EventKind::Leftmost { inputs } => {
                    lemma_max_height_push(a, x, inputs@, inputs@.len(), n);
                    assert forall|i: int| 0 <= i < inputs@.len() implies spec_height(a.events@, #[trigger] inputs@[i] as int, n) <= n by {
                        assert(a.height_of(inputs@[i] as int) <= n);
                    }
                    lemma_max_height_bounds(a.events@, inputs@, inputs@.len(), n, n);
                    assert(spec_height(a.events@, inputs@[ix] as int, n) <= max_height(a.events@, inputs@, inputs@.len(), n));
                },
                _ => {},
            }
        }
    }
    assert forall|m: int, c: Callback|
        0 <= m < b.managers@.len() && #[trigger] b.managers@[m].spec_subscribers().contains(c) && b.live.alive(c) implies match c {
            Callback::Main { event, .. } => b.height_of(b.managers@[m].spec_owner() as int) < b.height_of(event as int),
            _ => true,
        } by {
        if m < a.managers@.len() {
            assert(a.managers@[m].spec_subscribers().contains(c));
            if let Callback::Main { event, .. } = c {
                let i = choose|i: int| 0 <= i < a.managers@[m].spec_subscribers().len() && a.managers@[m].spec_subscribers()[i] == c;
                assert(a.cb_ok(a.managers@[m].spec_subscribers()[i]));
            }
        }
    }
}

/// Events stay above what they listen to while the nodes, the lists and
/// the subscription tokens stay the same.
pub(crate) proof fn lemma_heights_frame(a: Runtime, b: Runtime)
    requires
        a.spec_heights_ok(),
        b.events@ == a.events@,
        b.managers@ == a.managers@,
        b.live.tokens@ == a.live.tokens@,
    ensures
        b.spec_heights_ok(),
{
    assert forall|e: int| #[trigger] b.height_of(e) == a.height_of(e) by {}
    assert forall|e: int| 0 <= e < b.events@.len() implies #[trigger] b.height_of(e) <= b.events@.len() by {
        assert(a.height_of(e) <= a.events@.len());
    }
    assert forall|e: int, ix: int|
        0 <= e < b.events@.len() && 0 <= ix < manager_count(b.events@[e].kind) && #[trigger] b.spec_upstream(e, ix) is Some
            implies b.height_of(b.spec_upstream(e, ix)->0 as int) < b.height_of(e) by {
        assert(a.spec_upstream(e, ix) == b.spec_upstream(e, ix));
    }
    assert forall|m: int, c: Callback|
        0 <= m < b.managers@.len() && #[trigger] b.managers@[m].spec_subscribers().contains(c) && b.live.alive(c) implies match c {
            Callback::Main { event, .. } => b.height_of(b.managers@[m].spec_owner() as int) < b.height_of(event as int),
            _ => true,
        } by {
        if c is Main {
            assert(a.live.alive(c));
        }
    }
}

/// Only sound new subscriptions on the same nodes keep events above what
/// they listen to.
pub(crate) proof fn lemma_heights_subs(a: Runtime, b: Runtime)
    requires
        a.spec_heights_ok(),
        b.subs_delta_ok(a),
        b.events@ == a.events@,
        b.managers@.len() == a.managers@.len(),
        forall|m: int| 0 <= m < b.managers@.len() ==> #[trigger] b.managers@[m].spec_owner() == a.managers@[m].spec_owner(),
    ensures
        b.spec_heights_ok(),
{
    assert forall|e: int| #[trigger] b.height_of(e) == a.height_of(e) by {}
    assert forall|e: int, ix: int|
        0 <= e < b.events@.len() && 0 <= ix < manager_count(b.events@[e].kind) && #[trigger] b.spec_upstream(e, ix) is Some
            implies b.height_of(b.spec_upstream(e, ix)->0 as int) < b.height_of(e) by {
        assert(a.spec_upstream(e, ix) == b.spec_upstream(e, ix));
    }
    assert forall|e: int| 0 <= e < b.events@.len() implies #[trigger] b.height_of(e) <= b.events@.len() by {
        assert(a.height_of(e) <= a.events@.len());
    }
    assert forall|m: int, c: Callback|
        0 <= m < b.managers@.len() && #[trigger] b.managers@[m].spec_subscribers().contains(c) && b.live.alive(c) implies match c {
            Callback::Main { event, .. } => b.height_of(b.managers@[m].spec_owner() as int) < b.height_of(event as int),
            _ => true,
        } by {
        if let Callback::Main { event, tag, .. } = c {
            if m < a.managers@.len() && a.managers@[m].spec_subscribers().contains(c) && a.live.alive(c) {
            } else {
                assert(b.main_sound(m, c));
                assert(a.spec_upstream(event as int, tag as int) is Some);
            }
        }
    }
}

/// An event names existing nodes and owns its lists as long as the nodes
/// and the owners and tags of the lists stay the same.
pub(crate) proof fn lemma_event_ok_frame(a: Runtime, b: Runtime, e: int)
    requires
        0 <= e < a.events@.len(),
        a.event_ok(e),
        b.events@ == a.events@,
        b.behaviors@.len() == a.behaviors@.len(),
        b.managers@.len() == a.managers@.len(),
        forall|m: int|
            0 <= m < b.managers@.len() ==> #[trigger] b.managers@[m].spec_owner() == a.managers@[m].spec_owner()
                && b.managers@[m].spec_tag() == a.managers@[m].spec_tag(),
    ensures
        b.event_ok(e),
{
    let n = a.events@[e];
    assert(b.events@[e] == n);
    assert forall|ix: int| 0 <= ix < manager_count(n.kind) implies #[trigger] b.managers@[n.first_manager + ix].spec_owner() == e
        && b.managers@[n.first_manager + ix].spec_tag() == ix by {
        let m = n.first_manager + ix;
        assert(0 <= m < a.managers@.len());
        assert(a.managers@[m].spec_owner() == e);
        assert(a.managers@[m].spec_tag() == ix);
        assert(b.managers@[m].spec_owner() == a.managers@[m].spec_owner());
    }
    match n.kind {
        EventKind::Leftmost { inputs } => {
            assert forall|i: int| 0 <= i < inputs@.len() implies #[trigger] inputs@[i] < b.events@.len() by {
                assert(inputs@[i] < a.events@.len());
            }
        },
        _ => {},
    }
}

/// Sound new subscriptions compose over steps that keep the nodes and the
/// owners of the lists.
pub(crate) proof fn lemma_subs_delta_trans(a: Runtime, b: Runtime, c: Runtime)
    requires
        b.subs_delta_ok(a),
        c.subs_delta_ok(b),
        b.events@ == a.events@,
        c.events@ == b.events@,
        c.managers@.len() == b.managers@.len(),
        forall|m: int| 0 <= m < c.managers@.len() ==> #[trigger] c.managers@[m].spec_owner() == b.managers@[m].spec_owner(),
    ensures
        c.subs_delta_ok(a),
{
    assert forall|m: int, x: Callback|
        0 <= m < c.managers@.len() && #[trigger] c.managers@[m].spec_subscribers().contains(x) && x is Main
            && c.live.alive(x) implies (m < a.managers@.len() && a.managers@[m].spec_subscribers().contains(x)
            && a.live.alive(x)) || c.main_sound(m, x) by {
        if m < b.managers@.len() && b.managers@[m].spec_subscribers().contains(x) && b.live.alive(x) {
            if !(m < a.managers@.len() && a.managers@[m].spec_subscribers().contains(x) && a.live.alive(x)) {
                assert(b.main_sound(m, x));
            }
        }
    }
}

/// Event heights read only the kind and the current inner event of nodes:
/// two node lists that agree on those give every event the same height.
pub(crate) proof fn lemma_height_frame(a: Seq<EventNode>, b: Seq<EventNode>, e: int, fuel: nat)
    requires
        a.len() == b.len(),
        forall|i: int| 0 <= i < a.len() ==> (#[trigger] a[i]).kind == b[i].kind && a[i].inner == b[i].inner,
    ensures
        spec_height(a, e, fuel) == spec_height(b, e, fuel),
    decreases fuel, 0nat,
{
    if fuel > 0 && 0 <= e < a.len() {
        assert(a[e].kind == b[e].kind && a[e].inner == b[e].inner);
        let f = (fuel - 1) as nat;
        match a[e].kind {
            EventKind::FilterMap { inner, .. } => lemma_height_frame(a, b, inner as int, f),
            EventKind::Tag { event, .. } => lemma_height_frame(a, b, event as int, f),
            EventKind::Leftmost { inputs } => lemma_max_height_frame(a, b, inputs@, inputs@.len(), f),
            EventKind::Combine { a: x, b: y, .. } => {
                lemma_height_frame(a, b, x as int, f);
                lemma_height_frame(a, b, y as int, f);
            },
            EventKind::SwitchHold { .. } => {
                if let Some(i) = a[e].inner {
                    lemma_height_frame(a, b, i as int, f);
                }
            },
            _ => {},
        }
    }
}

/// [`lemma_height_frame`] for the highest of several heights.
pub(crate) proof fn lemma_max_height_frame(a: Seq<EventNode>, b: Seq<EventNode>, ins: Seq<usize>, k: nat, fuel: nat)
    requires
        a.len() == b.len(),
        forall|i: int| 0 <= i < a.len() ==> (#[trigger] a[i]).kind == b[i].kind && a[i].inner == b[i].inner,
    ensures
        max_height(a, ins, k, fuel) == max_height(b, ins, k, fuel),
    decreases fuel, k + 1,
{
    if k > 0 && k <= ins.len() {
        lemma_max_height_frame(a, b, ins, (k - 1) as nat, fuel);
        lemma_height_frame(a, b, ins[k - 1] as int, fuel);
    }
}

/// The definition of `Runtime::heights_ok`, for the modules of this crate.
pub(crate) broadcast proof fn lemma_heights_ok_def(rt: Runtime)
    ensures
        #[trigger] rt.heights_ok() == rt.spec_heights_ok(),
{
}

/// The definition of `Runtime::idle_queue`, for the modules of this crate.
pub(crate) broadcast proof fn lemma_idle_queue_def(rt: Runtime)
    ensures
        #[trigger] rt.idle_queue() == (forall|i: int, k: int|
            0 <= i < rt.queue@.len() && 0 <= k < rt.queue@[i].actions@.len() ==> rt.queue@[i].height == 0
                && (#[trigger] rt.queue@[i].actions@[k]) is Trigger),
{
}

/// The invariant depends only on what the nodes name; a runtime with the
/// same nodes, kinds, subscriber lists and lengths as a well-formed one, whose
/// queue is in order, is well formed.
pub(crate) proof fn lemma_inv_frame(a: Runtime, b: Runtime)
    requires
        a.inv(),
        b.events@.len() == a.events@.len(),
        forall|e: int|
            0 <= e < b.events@.len() ==> (#[trigger] b.events@[e]).kind == a.events@[e].kind
                && b.events@[e].first_manager == a.events@[e].first_manager && (b.events@[e].inner
                == a.events@[e].inner || (b.events@[e].inner is Some ==> b.events@[e].inner->0
                < b.events@.len())),
        b.managers@.len() == a.managers@.len(),
        forall|m: int| 0 <= m < b.managers@.len() ==> (#[trigger] b.managers@[m]).spec_subscribers()
            == a.managers@[m].spec_subscribers() && b.managers@[m].spec_owner() == a.managers@[m].spec_owner()
            && b.managers@[m].spec_tag() == a.managers@[m].spec_tag(),
        b.behaviors@.len() == a.behaviors@.len(),
        forall|x: int| 0 <= x < b.behaviors@.len() ==> (#[trigger] b.behaviors@[x]).kind
            == a.behaviors@[x].kind,
        b.logs@.len() == a.logs@.len(),
        b.live.logs@.len() == a.live.logs@.len(),
        b.live.tokens@.len() >= a.live.tokens@.len(),
        forall|e: int| 0 <= e < b.events@.len() && a.events@[e].inner is Some ==> (#[trigger] b.events@[e]).inner is Some,
        forall|m: int|
            0 <= m < b.managers@.len() && (#[trigger] b.managers@[m]).spec_subscription() is Some ==> a.managers@[m].spec_subscription() is Some
                || b.spec_upstream(b.managers@[m].spec_owner() as int, b.managers@[m].spec_tag() as int) is Some,
        b.queue_ok(),
        b.flags_ok() || (a.height == b.height && (forall|e: int|
            0 <= e < b.events@.len() && (#[trigger] b.events@[e]).scheduled ==> a.events@[e].scheduled)
            && (forall|e: int| trigger_pending(a.queue@, e) ==> #[trigger] trigger_pending(b.queue@, e))),
    ensures
        b.inv(),
{
    if !b.flags_ok() {
        assert forall|e: int| 0 <= e < b.events@.len() && (#[trigger] b.events@[e]).scheduled implies trigger_pending(
            b.queue@,
            e,
        ) by {
            if b.height is None {
                assert(a.events@[e].scheduled);
                assert(trigger_pending(a.queue@, e));
            }
        }
    }
    assert forall|e: int| 0 <= e < b.events@.len() implies #[trigger] b.event_ok(e) by {
        assert(a.event_ok(e));
        assert(b.events@[e].kind == a.events@[e].kind);
    }
    assert forall|x: int| 0 <= x < b.behaviors@.len() implies #[trigger] b.behavior_ok(x) by {
        assert(a.behavior_ok(x));
        assert(b.behaviors@[x].kind == a.behaviors@[x].kind);
    }
    assert forall|m: int, i: int|
        0 <= m < b.managers@.len() && 0 <= i < b.managers@[m].spec_subscribers().len() implies b.cb_ok(
        #[trigger] b.managers@[m].spec_subscribers()[i],
    ) by {
        assert(b.managers@[m].spec_subscribers() == a.managers@[m].spec_subscribers());
        assert(a.cb_ok(a.managers@[m].spec_subscribers()[i]));
    }
}

/// `same_graph` composes.
pub(crate) proof fn lemma_same_graph_trans(a: Runtime, b: Runtime, c: Runtime)
    requires
        b.same_graph(a),
        c.same_graph(b),
    ensures
        c.same_graph(a),
{
    assert forall|e: int| 0 <= e < c.events@.len() implies (#[trigger] c.events@[e]).kind
        == a.events@[e].kind && c.events@[e].first_manager == a.events@[e].first_manager by {
        assert(b.events@[e].kind == a.events@[e].kind);
    }
    assert forall|x: int| 0 <= x < c.behaviors@.len() implies (#[trigger] c.behaviors@[x]).kind
        == a.behaviors@[x].kind && (a.behaviors@[x].kind is Hold || c.behaviors@[x].value
        == a.behaviors@[x].value) by {
        assert(b.behaviors@[x].kind == a.behaviors@[x].kind);
    }
    assert forall|m: int| 0 <= m < c.managers@.len() implies (#[trigger] c.managers@[m]).spec_tag()
        == a.managers@[m].spec_tag() && c.managers@[m].spec_owner() == a.managers@[m].spec_owner() by {
        assert(b.managers@[m].spec_tag() == a.managers@[m].spec_tag());
        assert(b.managers@[m].spec_owner() == a.managers@[m].spec_owner());
    }
}

/// How many subscriber lists an event of this kind has.
/// The one input of a filtering or tagging event.
pub open spec fn fixed_input(k: EventKind) -> Option<usize> {
    match k {
        EventKind::FilterMap { inner, .. } => Some(inner),
        EventKind::Tag { event, .. } => Some(event),
        _ => None,
    }
}

pub open spec fn manager_count(k: EventKind) -> nat {
    match k {
        EventKind::Never => 0,
        EventKind::Leftmost { inputs } => inputs@.len(),
        EventKind::Combine { .. } => 2,
        _ => 1,
    }
}

/// How many lists in `ms` have no subscriber.
pub open spec fn num_empty(ms: Seq<SubscriptionManager>) -> nat
    decreases ms.len(),
{
    if ms.len() == 0 {
        0
    } else {
        num_empty(ms.drop_last()) + if ms.last().spec_subscribers().len() == 0 {
            1nat
        } else {
            0nat
        }
    }
}

/// Replacing one list changes the count of empty lists by what the
/// replacement changes at that place.
pub proof fn lemma_num_empty_update(ms: Seq<SubscriptionManager>, i: int, m: SubscriptionManager)
    requires
        0 <= i < ms.len(),
    ensures
        num_empty(ms.update(i, m)) + (if ms[i].spec_subscribers().len() == 0 {
            1int
        } else {
            0int
        }) == num_empty(ms) + (if m.spec_subscribers().len() == 0 {
            1int
        } else {
            0int
        }),
    decreases ms.len(),
{
    if i < ms.len() - 1 {
        lemma_num_empty_update(ms.drop_last(), i, m);
        assert(ms.update(i, m).drop_last() =~= ms.drop_last().update(i, m));
    } else {
        assert(ms.update(i, m).drop_last() =~= ms.drop_last());
    }
}

/// The height of event `e`: one more than the highest of the events it
/// listens to. `fuel` bounds the depth of the search.
pub open spec fn spec_height(events: Seq<EventNode>, e: int, fuel: nat) -> nat
    decreases fuel, 0nat,
{
    if fuel == 0 || !(0 <= e < events.len()) {
        0
    } else {
        match events[e].kind {
            EventKind::External => 0,
            EventKind::Never => 0,
            EventKind::FilterMap { inner, .. } => spec_height(events, inner as int, (fuel - 1) as nat)
                + 1,
            EventKind::Tag { event, .. } => spec_height(events, event as int, (fuel - 1) as nat) + 1,
            EventKind::Leftmost { inputs } => max_height(
                events,
                inputs@,
                inputs@.len(),
                (fuel - 1) as nat,
            ) + 1,
            EventKind::Combine { a, b, .. } => {
                let ha = spec_height(events, a as int, (fuel - 1) as nat);
                let hb = spec_height(events, b as int, (fuel - 1) as nat);
                (if ha >= hb {
                    ha
                } else {
                    hb
                }) + 1
            },
            EventKind::SwitchHold { .. } => match events[e].inner {
                Some(i) => spec_height(events, i as int, (fuel - 1) as nat) + 1,
                None => 0,
            },
        }
    }
}

/// The highest height among the first `k` events of `ins`.
pub open spec fn max_height(events: Seq<EventNode>, ins: Seq<usize>, k: nat, fuel: nat) -> nat
    decreases fuel, k + 1,
{
    if k == 0 || k > ins.len() {
        0
    } else {
        let rest = max_height(events, ins, (k - 1) as nat, fuel);
        let h = spec_height(events, ins[k - 1] as int, fuel);
        if rest >= h {
            rest
        } else {
            h
        }
    }
}

/// The value of behavior `b` under dispatcher `d`. A behavior reads the
/// behaviors it was built from, which are older than it; a join also reads
/// the behavior its outer behavior currently holds, which may be any one, and
/// each such step spends one unit of `fuel`.
pub open spec fn spec_value<D: Fn(usize, &Vec<AnyValue>) -> Option<AnyValue>>(
    d: D,
    behaviors: Seq<BehaviorNode>,
    b: int,
    fuel: nat,
) -> Option<AnyValue>
    decreases fuel, b + 1, 0nat,
{
    if !(0 <= b < behaviors.len()) {
        None
    } else {
        match behaviors[b].kind {
            BehaviorKind::Constant => Some(behaviors[b].value),
            BehaviorKind::Hold { .. } => Some(behaviors[b].value),
            BehaviorKind::Apply { input, f } => if input < b {
                match spec_value(d, behaviors, input as int, fuel) {
                    Some(x) => spec_call(d, f, seq![x]),
                    None => None,
                }
            } else {
                None
            },
            BehaviorKind::Apply2 { a, b: bb, f2 } => if a < b && bb < b {
                match (
                    spec_value(d, behaviors, a as int, fuel),
                    spec_value(d, behaviors, bb as int, fuel),
                ) {
                    (Some(x), Some(y)) => spec_call(d, f2, seq![x, y]),
                    _ => None,
                }
            } else {
                None
            },
            BehaviorKind::Join { outer } => if outer < b {
                match spec_value(d, behaviors, outer as int, fuel) {
                    Some(AnyValue::Behavior(j)) => if fuel == 0 {
                        None
                    } else {
                        spec_value(d, behaviors, j as int, (fuel - 1) as nat)
                    },
                    _ => None,
                }
            } else {
                None
            },
            BehaviorKind::Computation { inputs, fn_n } => match spec_values(
                d,
                behaviors,
                inputs@,
                inputs@.len(),
                fuel,
                b,
            ) {
                Some(xs) => spec_call(d, fn_n, xs),
                None => None,
            },
        }
    }
}

/// The values of the first `k` behaviors of `ins`, all older than behavior
/// `owner`, if all of them have one.
pub open spec fn spec_values<D: Fn(usize, &Vec<AnyValue>) -> Option<AnyValue>>(
    d: D,
    behaviors: Seq<BehaviorNode>,
    ins: Seq<usize>,
    k: nat,
    fuel: nat,
    owner: int,
) -> Option<Seq<AnyValue>>
    decreases fuel, owner, k + 1,
{
    if k == 0 || k > ins.len() {
        Some(Seq::empty())
    } else if !(ins[k - 1] < owner) {
        None
    } else {
        match (
            spec_values(d, behaviors, ins, (k - 1) as nat, fuel, owner),
            spec_value(d, behaviors, ins[k - 1] as int, fuel),
        ) {
            (Some(xs), Some(x)) => Some(xs.push(x)),
            _ => None,
        }
    }
}

/// How many joins deep a query follows the behaviors that joins hold.
pub open spec fn join_depth() -> nat {
    usize::MAX as nat
}

/// An action that fires external event `e` waits in `q`.
pub open spec fn trigger_pending(q: Seq<Round>, e: int) -> bool {
    exists|i: int, k: int|
        0 <= i < q.len() && 0 <= k < q[i].actions@.len() && (#[trigger] q[i].actions@[k] matches Action::Trigger {
            event,
            ..
        } && event == e)
}

/// Action `a` waits in `q`.
pub open spec fn action_pending(q: Seq<Round>, a: Action) -> bool {
    exists|i: int, k: int| 0 <= i < q.len() && 0 <= k < q[i].actions@.len() && #[trigger] q[i].actions@[k] == a
}

/// The actions scheduled at height `h`.
pub open spec fn actions_at(q: Seq<Round>, h: usize) -> Seq<Action> {
    if exists|i: int| 0 <= i < q.len() && q[i].height == h {
        q[choose|i: int| 0 <= i < q.len() && q[i].height == h].actions@
    } else {
        Seq::empty()
    }
}

/// Heights strictly increase along the queue.
pub open spec fn queue_sorted(q: Seq<Round>) -> bool {
    forall|i: int, j: int| 0 <= i < j < q.len() ==> q[i].height < q[j].height
}

/// In a sorted queue, the round at position `i` holds all actions of its height.
pub proof fn lemma_actions_at(q: Seq<Round>, i: int)
    requires
        queue_sorted(q),
        0 <= i < q.len(),
    ensures
        actions_at(q, q[i].height) == q[i].actions@,
{
    let k = choose|k: int| 0 <= k < q.len() && q[k].height == q[i].height;
    assert(k == i) by {
        if k < i {
            assert(q[k].height < q[i].height);
        } else if k > i {
            assert(q[i].height < q[k].height);
        }
    }
}

/// A callback alive in `a` is alive in `b` when `b` only added tokens and
/// kept the listeners.
pub(crate) proof fn lemma_alive_kept(a: Runtime, b: Runtime, c: Callback)
    requires
        b.tokens_kept(a),
        b.live.logs@ == a.live.logs@,
        a.live.alive(c),
    ensures
        b.live.alive(c),
{
}

/// Keeping the live subscribers composes.
pub(crate) proof fn lemma_subs_kept_trans(a: Runtime, b: Runtime, c: Runtime)
    requires
        b.subs_kept(a),
        c.subs_kept(b),
        b.tokens_kept(a),
        b.live.logs@ == a.live.logs@,
        b.managers@.len() == a.managers@.len(),
    ensures
        c.subs_kept(a),
{
    assert forall|m: int, x: Callback|
        0 <= m < a.managers@.len() && #[trigger] a.managers@[m].spec_subscribers().contains(x) && a.live.alive(x)
            implies c.managers@[m].spec_subscribers().contains(x) by {
        assert(b.managers@[m].spec_subscribers().contains(x));
        lemma_alive_kept(a, b, x);
    }
}

impl Runtime {
    /// A callback names existing nodes.
    pub(crate) open spec fn cb_ok(self, cb: Callback) -> bool {
        match cb {
            Callback::Main { event, token, .. } => event < self.events@.len() && token < self.live.tokens@.len(),
            Callback::Hold { behavior } => behavior < self.behaviors@.len(),
            Callback::SwitchOuter { event } => event < self.events@.len(),
            Callback::Log { log } => log < self.logs@.len(),
        }
    }

    /// An action names existing nodes.
    pub(crate) open spec fn action_ok(self, a: Action) -> bool {
        match a {
            Action::Trigger { event, .. } => event < self.events@.len(),
            Action::Main { event, .. } => event < self.events@.len(),
            Action::Hold { behavior, .. } => behavior < self.behaviors@.len(),
            Action::Switch { event, inner } => event < self.events@.len() && inner
                < self.events@.len(),
        }
    }

    /// Event `e` names existing nodes and owns its subscriber lists.
    pub(crate) open spec fn event_ok(self, e: int) -> bool {
        let n = self.events@[e];
        &&& n.first_manager + manager_count(n.kind) <= self.managers@.len()
        &&& match n.kind {
            EventKind::FilterMap { inner, .. } => inner < self.events@.len(),
            EventKind::Leftmost { inputs } => forall|i: int|
                0 <= i < inputs@.len() ==> #[trigger] inputs@[i] < self.events@.len(),
            EventKind::Combine { a, b, .. } => a < self.events@.len() && b < self.events@.len(),
            EventKind::Tag { event, behavior, .. } => event < self.events@.len() && behavior
                < self.behaviors@.len(),
            EventKind::SwitchHold { outer } => outer < self.events@.len(),
            _ => true,
        }
        &&& (n.inner is Some ==> n.inner->0 < self.events@.len())
        &&& forall|ix: int|
            0 <= ix < manager_count(n.kind) ==> #[trigger] self.managers@[n.first_manager + ix].spec_owner() == e
                && self.managers@[n.first_manager + ix].spec_tag() == ix
    }

    /// Behavior `b` names existing nodes.
    pub(crate) open spec fn behavior_ok(self, b: int) -> bool {
        match self.behaviors@[b].kind {
            BehaviorKind::Hold { event } => event < self.events@.len(),
            BehaviorKind::Apply { input, .. } => input < b,
            BehaviorKind::Apply2 { a, b: bb, .. } => a < b && bb < b,
            BehaviorKind::Join { outer } => outer < b,
            BehaviorKind::Computation { inputs, .. } => forall|i: int|
                0 <= i < inputs@.len() ==> #[trigger] inputs@[i] < b,
            _ => true,
        }
    }

    /// The scheduled rounds are sorted, above the current height, and name
    /// existing nodes.
    pub(crate) open spec fn queue_ok(self) -> bool {
        &&& queue_sorted(self.queue@)
        &&& forall|i: int|
            0 <= i < self.queue@.len() ==> (self.height is Some ==> #[trigger] self.queue@[i].height
                > self.height->0)
        &&& forall|i: int, k: int|
            0 <= i < self.queue@.len() && 0 <= k < self.queue@[i].actions@.len() ==> self.action_ok(
                #[trigger] self.queue@[i].actions@[k],
            )
    }

    /// The graph is well formed.
    pub closed spec fn wf(self) -> bool {
        self.inv()
    }

    /// The body of [`Runtime::wf`], for the modules of this crate.
    pub(crate) open spec fn inv(self) -> bool {
        &&& forall|e: int| 0 <= e < self.events@.len() ==> #[trigger] self.event_ok(e)
        &&& forall|b: int| 0 <= b < self.behaviors@.len() ==> #[trigger] self.behavior_ok(b)
        &&& forall|m: int, i: int|
            0 <= m < self.managers@.len() && 0 <= i < self.managers@[m].spec_subscribers().len()
                ==> self.cb_ok(#[trigger] self.managers@[m].spec_subscribers()[i])
        &&& self.queue_ok()
        &&& self.logs@.len() == self.live.logs@.len()
        &&& self.flags_ok()
        &&& self.holds_placed()
        &&& self.switches_placed()
        &&& forall|m: int| 0 <= m < self.managers@.len() ==> #[trigger] self.managers@[m].spec_owner() < self.events@.len()
        &&& self.subs_listen()
    }

    /// The callback of a held behavior only subscribes to the lists of the
    /// event it holds.
    pub(crate) open spec fn holds_placed(self) -> bool {
        forall|m: int, b: usize|
            0 <= m < self.managers@.len() && #[trigger] self.managers@[m].spec_subscribers().contains(
                Callback::Hold { behavior: b },
            ) ==> b < self.behaviors@.len() && self.behaviors@[b as int].kind == (BehaviorKind::Hold {
                event: self.managers@[m].spec_owner(),
            })
    }

    /// A list holds a subscription only when it has an input to listen to.
    pub(crate) open spec fn subs_listen(self) -> bool {
        forall|m: int|
            0 <= m < self.managers@.len() && (#[trigger] self.managers@[m]).spec_subscription() is Some
                ==> self.spec_upstream(self.managers@[m].spec_owner() as int, self.managers@[m].spec_tag() as int) is Some
    }

    /// The callback through which a switching event hears its outer event
    /// only subscribes to the lists of that outer event.
    pub(crate) open spec fn switches_placed(self) -> bool {
        forall|m: int, s: usize|
            0 <= m < self.managers@.len() && #[trigger] self.managers@[m].spec_subscribers().contains(
                Callback::SwitchOuter { event: s },
            ) ==> s < self.events@.len() && self.events@[s as int].kind == (EventKind::SwitchHold {
                outer: self.managers@[m].spec_owner(),
            })
    }

    /// Outside a propagation, an external event is marked as scheduled only
    /// while an action that fires it waits in the queue.
    pub(crate) open spec fn flags_ok(self) -> bool {
        self.height is None ==> forall|e: int|
            0 <= e < self.events@.len() && (#[trigger] self.events@[e]).scheduled ==> trigger_pending(
                self.queue@,
                e,
            )
    }

    /// `self` has the same nodes as `old`, with the same kinds; only their
    /// per-occurrence state, the subscriptions and the logs may differ.
    pub(crate) open spec fn same_graph(self, old: Runtime) -> bool {
        &&& self.events@.len() == old.events@.len()
        &&& self.managers@.len() == old.managers@.len()
        &&& self.behaviors@.len() == old.behaviors@.len()
        &&& self.logs@.len() == old.logs@.len()
        &&& self.live.logs@ == old.live.logs@
        &&& self.live.tokens@.len() >= old.live.tokens@.len()
        &&& forall|e: int|
            0 <= e < self.events@.len() ==> (#[trigger] self.events@[e]).kind == old.events@[e].kind
                && self.events@[e].first_manager == old.events@[e].first_manager
        &&& forall|b: int|
            0 <= b < self.behaviors@.len() ==> (#[trigger] self.behaviors@[b]).kind
                == old.behaviors@[b].kind && (old.behaviors@[b].kind is Hold
                || self.behaviors@[b].value == old.behaviors@[b].value)
        &&& forall|m: int|
            0 <= m < self.managers@.len() ==> (#[trigger] self.managers@[m]).spec_tag()
                == old.managers@[m].spec_tag() && self.managers@[m].spec_owner() == old.managers@[m].spec_owner()
    }

    /// Every callback subscribed in `old` that was alive there is still
    /// subscribed in `self`.
    pub(crate) open spec fn subs_kept(self, old: Runtime) -> bool {
        forall|m: int, c: Callback|
            0 <= m < old.managers@.len() && #[trigger] old.managers@[m].spec_subscribers().contains(c)
                && old.live.alive(c) ==> self.managers@[m].spec_subscribers().contains(c)
    }

    /// Subscribing only ever adds live tokens.
    pub(crate) open spec fn tokens_kept(self, old: Runtime) -> bool {
        &&& self.live.tokens@.len() >= old.live.tokens@.len()
        &&& forall|t: int|
            0 <= t < old.live.tokens@.len() ==> #[trigger] self.live.tokens@[t]
                == old.live.tokens@[t]
    }

    /// Number of events in the graph.
    pub closed spec fn num_events(self) -> nat {
        self.events@.len()
    }

    /// Number of behaviors in the graph.
    pub closed spec fn num_behaviors(self) -> nat {
        self.behaviors@.len()
    }

    /// Number of outside listeners ever registered.
    pub closed spec fn num_logs(self) -> nat {
        self.logs@.len()
    }

    /// The values heard so far by outside listener `l`.
    pub closed spec fn log_of(self, l: int) -> Seq<AnyValue> {
        self.logs@[l]@
    }

    /// Is outside listener `l` still listening?
    pub closed spec fn log_alive(self, l: int) -> bool {
        self.live.logs@[l]
    }

    /// The node of event `e`.
    pub closed spec fn event_node(self, e: int) -> EventNode {
        self.events@[e]
    }

    /// The node of behavior `b`.
    pub closed spec fn behavior_node(self, b: int) -> BehaviorNode {
        self.behaviors@[b]
    }

    /// The current value of behavior `b`, user functions interpreted by `d`.
    pub closed spec fn value_of<D: Fn(usize, &Vec<AnyValue>) -> Option<AnyValue>>(self, d: D, b: int) -> Option<AnyValue> {
        spec_value(d, self.behaviors@, b, join_depth())
    }

    /// The value of behavior `b`, following at most `depth` joins.
    pub closed spec fn value_at_depth<D: Fn(usize, &Vec<AnyValue>) -> Option<AnyValue>>(self, d: D, b: int, depth: nat) -> Option<AnyValue> {
        spec_value(d, self.behaviors@, b, depth)
    }

    /// Every event lies above each event that one of its subscriber lists
    /// listens to, and no higher than the number of events, and every live
    /// subscription goes from an event to a higher one: each firing is then
    /// handled at a height above the one being processed. This holds unless
    /// a switching event was made to follow an event that depends on it.
    pub closed spec fn heights_ok(self) -> bool {
        self.spec_heights_ok()
    }

    /// The body of [`Runtime::heights_ok`].
    pub(crate) open spec fn spec_heights_ok(self) -> bool {
        &&& forall|e: int| 0 <= e < self.events@.len() ==> #[trigger] self.height_of(e) <= self.events@.len()
        &&& forall|e: int, ix: int|
            0 <= e < self.events@.len() && 0 <= ix < manager_count(self.events@[e].kind) && #[trigger] self.spec_upstream(
                e,
                ix,
            ) is Some ==> self.height_of(self.spec_upstream(e, ix)->0 as int) < self.height_of(e)
        &&& forall|m: int, c: Callback|
            0 <= m < self.managers@.len() && #[trigger] self.managers@[m].spec_subscribers().contains(c)
                && self.live.alive(c) ==> match c {
                Callback::Main { event, .. } => self.height_of(self.managers@[m].spec_owner() as int) < self.height_of(
                    event as int,
                ),
                _ => true,
            }
    }

    /// Outside a propagation, only firings of external events wait, all at
    /// height 0.
    pub closed spec fn idle_queue(self) -> bool {
        forall|i: int, k: int|
            0 <= i < self.queue@.len() && 0 <= k < self.queue@[i].actions@.len() ==> self.queue@[i].height == 0
                && (#[trigger] self.queue@[i].actions@[k]) is Trigger
    }

    /// `self` has the nodes of `old` with the same kinds and inner events,
    /// hence the same heights and inputs.
    pub(crate) open spec fn events_kept(self, old: Runtime) -> bool {
        &&& self.events@.len() == old.events@.len()
        &&& forall|e: int|
            0 <= e < self.events@.len() ==> (#[trigger] self.events@[e]).kind == old.events@[e].kind
                && self.events@[e].inner == old.events@[e].inner
    }

    /// Callback `c` in list `m` is the subscription of a subscriber list of
    /// another event on the owner of `m`, the input of that list.
    pub(crate) open spec fn main_sound(self, m: int, c: Callback) -> bool {
        match c {
            Callback::Main { event, tag, .. } => event < self.events@.len() && tag < manager_count(
                self.events@[event as int].kind,
            ) && self.spec_upstream(event as int, tag as int) == Some(self.managers@[m].spec_owner()),
            _ => true,
        }
    }

    /// Every live subscription of `self` on another event's list was live in
    /// `old` already, or is sound.
    pub(crate) open spec fn subs_delta_ok(self, old: Runtime) -> bool {
        forall|m: int, c: Callback|
            0 <= m < self.managers@.len() && #[trigger] self.managers@[m].spec_subscribers().contains(c) && c is Main
                && self.live.alive(c) ==> (m < old.managers@.len() && old.managers@[m].spec_subscribers().contains(c)
                && old.live.alive(c)) || self.main_sound(m, c)
    }

    /// Delivering to `c` schedules above the height being processed.
    pub(crate) open spec fn fires_ok(self, c: Callback) -> bool {
        self.height is Some ==> match c {
            Callback::Main { event, .. } => self.height->0 < self.height_of(event as int),
            Callback::Log { .. } => true,
            _ => self.height->0 < usize::MAX,
        }
    }

    /// Delivering to every live callback of list `m` schedules above the
    /// height being processed.
    pub(crate) open spec fn list_fires_ok(self, m: int) -> bool {
        forall|c: Callback|
            #[trigger] self.managers@[m].spec_subscribers().contains(c) && self.live.alive(c) ==> self.fires_ok(c)
    }

    /// Running `a` schedules above the height being processed.
    pub(crate) open spec fn action_fires_ok(self, a: Action) -> bool {
        match a {
            Action::Trigger { event, .. } => forall|ix: int|
                0 <= ix < manager_count(self.events@[event as int].kind) ==> #[trigger] self.list_fires_ok(
                    self.events@[event as int].first_manager + ix,
                ),
            Action::Main { event, .. } => forall|ix: int|
                0 <= ix < manager_count(self.events@[event as int].kind) ==> #[trigger] self.list_fires_ok(
                    self.events@[event as int].first_manager + ix,
                ),
            _ => true,
        }
    }

    /// Action `x` waits at the height where it belongs: a firing of an
    /// external event at 0, the handling of a firing at the height of its
    /// event, the update of a behavior or a switch above every event.
    pub(crate) open spec fn action_height_ok(self, h: usize, x: Action) -> bool {
        match x {
            Action::Trigger { .. } => h == 0,
            Action::Main { event, .. } => h == self.height_of(event as int),
            _ => h == usize::MAX,
        }
    }

    /// Every waiting action waits where it belongs.
    pub(crate) open spec fn q_consistent(self) -> bool {
        forall|h: usize, x: Action| #[trigger] actions_at(self.queue@, h).contains(x) ==> self.action_height_ok(h, x)
    }

    /// The height of event `e`.
    pub closed spec fn height_of(self, e: int) -> nat {
        spec_height(self.events@, e, self.events@.len())
    }

    /// Is a propagation in progress?
    pub closed spec fn propagating(self) -> bool {
        self.height is Some
    }

    /// The actions waiting at height `h`.
    pub closed spec fn pending_at(self, h: usize) -> Seq<Action> {
        actions_at(self.queue@, h)
    }

    /// Has nothing been scheduled?
    pub closed spec fn queue_empty(self) -> bool {
        self.queue@.len() == 0
    }

    /// The subscriber list number `m`.
    pub closed spec fn manager(self, m: int) -> SubscriptionManager {
        self.managers@[m]
    }

    /// Event `z` hears event `u`: a live subscription of `z` stands in the
    /// first subscriber list of `u`.
    pub closed spec fn hears(self, z: usize, u: usize) -> bool {
        exists|t: usize, tok: usize|
            #[trigger] self.managers@[self.events@[u as int].first_manager as int].spec_subscribers().contains(
                Callback::Main { event: z, tag: t, token: tok },
            ) && self.live.alive(Callback::Main { event: z, tag: t, token: tok })
    }

    /// Nobody listens to event `e` yet: its subscriber lists are empty and
    /// hold no subscription of their own.
    pub closed spec fn quiet(self, e: int) -> bool {
        forall|ix: int|
            0 <= ix < manager_count(self.events@[e].kind) ==> (#[trigger] self.managers@[self.events@[e].first_manager
                + ix]).spec_subscribers().len() == 0 && self.managers@[self.events@[e].first_manager
                + ix].spec_subscription() is None
    }

    /// The liveness table.
    pub closed spec fn liveness(self) -> Liveness {
        self.live
    }

    /// `self` is `old` with, at most, the per-occurrence flag of event `e`
    /// changed and actions added to the queue.
    pub closed spec fn only_flag_changed(self, old: Runtime, e: int) -> bool {
        &&& self.events@.len() == old.events@.len()
        &&& forall|f: int|
            0 <= f < self.events@.len() && f != e ==> #[trigger] self.events@[f] == old.events@[f]
        &&& self.events@[e].kind == old.events@[e].kind
        &&& self.events@[e].first_manager == old.events@[e].first_manager
        &&& self.events@[e].winner == old.events@[e].winner
        &&& self.events@[e].pending == old.events@[e].pending
        &&& self.events@[e].inner == old.events@[e].inner
        &&& self.managers@ == old.managers@
        &&& self.behaviors@ == old.behaviors@
        &&& self.live == old.live
        &&& self.logs@ == old.logs@
        &&& self.height == old.height
    }

    /// Construct a fresh runtime.
    pub fn new() -> (r: Self)
        ensures
            r.wf(),
            r.num_events() == 0,
            r.num_behaviors() == 0,
            r.num_logs() == 0,
            !r.propagating(),
            r.queue_empty(),
            r.heights_ok(),
            r.idle_queue(),
    {
        Runtime {
            events: Vec::new(),
            managers: Vec::new(),
            behaviors: Vec::new(),
            live: Liveness::new(),
            logs: Vec::new(),
            queue: Vec::new(),
            height: None,
        }
    }

    /// Number of events in the graph.
    pub fn event_count(&self) -> (r: usize)
        ensures
            r == self.num_events(),
    {
        self.events.len()
    }

    /// The height of event `e`, searching at most `fuel` levels deep.
    pub(crate) fn height_fuel(&self, e: usize, fuel: usize) -> (h: usize)
        requires
            self.wf(),
            e < self.events@.len(),
        ensures
            h == spec_height(self.events@, e as int, fuel as nat),
            h <= fuel,
        decreases fuel, 0nat,
    {
        if fuel == 0 {
            return 0;
        }
        assert(self.event_ok(e as int));
        match &self.events[e].kind {
            EventKind::External => 0,
            EventKind::Never => 0,
            EventKind::FilterMap { inner, .. } => self.height_fuel(*inner, fuel - 1) + 1,
            EventKind::Tag { event, .. } => self.height_fuel(*event, fuel - 1) + 1,
            EventKind::Leftmost { inputs } => {
                let m = self.max_height_fuel(inputs, inputs.len(), fuel - 1);
                m + 1
            },
            EventKind::Combine { a, b, .. } => {
                let ha = self.height_fuel(*a, fuel - 1);
                let hb = self.height_fuel(*b, fuel - 1);
                (if ha >= hb {
                    ha
                } else {
                    hb
                }) + 1
            },
            EventKind::SwitchHold { .. } => match self.events[e].inner {
                Some(i) => self.height_fuel(i, fuel - 1) + 1,
                None => 0,
            },
        }
    }

    /// The highest height among the first `k` events of `ins`.
    pub(crate) fn max_height_fuel(&self, ins: &Vec<usize>, k: usize, fuel: usize) -> (h: usize)
        requires
            self.wf(),
            k <= ins@.len(),
            forall|i: int| 0 <= i < ins@.len() ==> #[trigger] ins@[i] < self.events@.len(),
        ensures
            h == max_height(self.events@, ins@, k as nat, fuel as nat),
            h <= fuel,
        decreases fuel, k + 1,
    {
        if k == 0 {
            return 0;
        }
        let rest = self.max_height_fuel(ins, k - 1, fuel);
        let h = self.height_fuel(ins[k - 1], fuel);
        if rest >= h {
            rest
        } else {
            h
        }
    }

    /// The height of event `e`.
    pub(crate) fn height(&self, e: usize) -> (h: usize)
        requires
            self.wf(),
            e < self.events@.len(),
        ensures
            h == self.height_of(e as int),
    {
        self.height_fuel(e, self.events.len())
    }

    /// The number of subscriber lists of event `e`.
    pub(crate) fn manager_count_of(&self, e: usize) -> (n: usize)
        requires
            self.wf(),
            e < self.events@.len(),
        ensures
            n == manager_count(self.events@[e as int].kind),
    {
        match &self.events[e].kind {
            EventKind::Never => 0,
            EventKind::Leftmost { inputs } => inputs.len(),
            EventKind::Combine { .. } => 2,
            _ => 1,
        }
    }

    /// The event that subscriber list `ix` of event `e` listens to, if any.
    pub(crate) open spec fn spec_upstream(self, e: int, ix: int) -> Option<usize> {
        let n = self.events@[e];
        match n.kind {
            EventKind::FilterMap { inner, .. } => Some(inner),
            EventKind::Tag { event, .. } => Some(event),
            EventKind::Leftmost { inputs } => if 0 <= ix < inputs@.len() {
                Some(inputs@[ix])
            } else {
                None
            },
            EventKind::Combine { a, b, .. } => if ix == 0 {
                Some(a)
            } else {
                Some(b)
            },
            EventKind::SwitchHold { .. } => n.inner,
            _ => None,
        }
    }

    /// The event that subscriber list `ix` of event `e` listens to, if any.
    pub(crate) fn upstream(&self, e: usize, ix: usize) -> (r: Option<usize>)
        requires
            self.wf(),
            e < self.events@.len(),
        ensures
            r == self.spec_upstream(e as int, ix as int),
            r is Some ==> r->0 < self.events@.len(),
    {
        assert(self.event_ok(e as int));
        match &self.events[e].kind {
            EventKind::FilterMap { inner, .. } => Some(*inner),
            EventKind::Tag { event, .. } => Some(*event),
            EventKind::Leftmost { inputs } => if ix < inputs.len() {
                Some(inputs[ix])
            } else {
                None
            },
            EventKind::Combine { a, b, .. } => if ix == 0 {
                Some(*a)
            } else {
                Some(*b)
            },
            EventKind::SwitchHold { .. } => self.events[e].inner,
            _ => None,
        }
    }

    /// Subscribe `cb` to event `e`: every subscriber list of `e` gets it, and
    /// a list that gets its first subscriber subscribes to its own input.
    pub(crate) fn subscribe(&mut self, e: usize, cb: Callback)
        requires
            old(self).wf(),
            e < old(self).events@.len(),
            old(self).cb_ok(cb),
            old(self).live.alive(cb),
            cb matches Callback::Hold { behavior } ==> old(self).behaviors@[behavior as int].kind == (BehaviorKind::Hold { event: e }),
            cb matches Callback::SwitchOuter { event } ==> old(self).events@[event as int].kind == (EventKind::SwitchHold { outer: e }),
            cb matches Callback::Main { event, tag, .. } ==> event < old(self).events@.len() && tag < manager_count(
                old(self).events@[event as int].kind,
            ) && old(self).spec_upstream(event as int, tag as int) == Some(e),
        ensures
            final(self).wf(),
            final(self).subs_delta_ok(*old(self)),
            old(self).heights_ok() ==> final(self).heights_ok(),
            final(self).same_graph(*old(self)),
            final(self).tokens_kept(*old(self)),
            num_empty(final(self).managers@) <= num_empty(old(self).managers@),
            final(self).queue@ == old(self).queue@,
            final(self).height == old(self).height,
            final(self).logs@ == old(self).logs@,
            forall|f: int|
                0 <= f < final(self).events@.len() ==> (#[trigger] final(self).events@[f]) == old(self).events@[f],
            final(self).behaviors@ == old(self).behaviors@,
            final(self).subs_kept(*old(self)),
            forall|ix: int|
                0 <= ix < manager_count(old(self).events@[e as int].kind) ==> (#[trigger] final(self).managers@[old(self).events@[e as int].first_manager + ix]).spec_subscribers().contains(cb),
            manager_count(old(self).events@[e as int].kind) > 0 && old(self).managers@[old(self).events@[e as int].first_manager
                + 0].spec_subscribers().len() == 0 && old(self).managers@[old(self).events@[e as int].first_manager
                + 0].spec_subscription() is None && old(self).spec_upstream(e as int, 0) is Some && manager_count(
                old(self).events@[old(self).spec_upstream(e as int, 0)->0 as int].kind,
            ) > 0 ==> final(self).hears(e, old(self).spec_upstream(e as int, 0)->0),
        decreases num_empty(old(self).managers@), 1nat,
    {
        let n = self.manager_count_of(e);
        let ghost s0 = *self;
        proof {
            assert forall|m: int, c: Callback|
                0 <= m < s0.managers@.len() && #[trigger] s0.managers@[m].spec_subscribers().contains(c)
                    && s0.live.alive(c) implies self.managers@[m].spec_subscribers().contains(c) by {}
        }
        let mut ix: usize = 0;
        while ix < n
            invariant
                self.wf(),
                e < self.events@.len(),
                n == manager_count(self.events@[e as int].kind),
                ix <= n,
                self.cb_ok(cb),
                self.live.alive(cb),
                cb matches Callback::Hold { behavior } ==> self.behaviors@[behavior as int].kind == (BehaviorKind::Hold { event: e }),
                cb matches Callback::SwitchOuter { event } ==> self.events@[event as int].kind == (EventKind::SwitchHold { outer: e }),
                cb matches Callback::Main { event, tag, .. } ==> event < self.events@.len() && tag < manager_count(
                    self.events@[event as int].kind,
                ) && self.spec_upstream(event as int, tag as int) == Some(e),
                self.subs_delta_ok(s0),
                self.same_graph(*old(self)),
                self.tokens_kept(*old(self)),
                num_empty(self.managers@) <= num_empty(old(self).managers@),
                self.queue@ == old(self).queue@,
                self.height == old(self).height,
                self.logs@ == old(self).logs@,
                forall|f: int|
                    0 <= f < self.events@.len() ==> (#[trigger] self.events@[f]) == old(self).events@[f],
                self.behaviors@ == old(self).behaviors@,
                s0 == *old(self),
                self.subs_kept(s0),
                forall|k: int|
                    0 <= k < ix ==> (#[trigger] self.managers@[s0.events@[e as int].first_manager + k]).spec_subscribers().contains(cb),
                ix > 0 && s0.managers@[s0.events@[e as int].first_manager + 0].spec_subscribers().len() == 0
                    && s0.managers@[s0.events@[e as int].first_manager + 0].spec_subscription() is None
                    && s0.spec_upstream(e as int, 0) is Some && manager_count(
                    s0.events@[s0.spec_upstream(e as int, 0)->0 as int].kind,
                ) > 0 ==> self.hears(e, s0.spec_upstream(e as int, 0)->0),
                ix == 0 ==> *self == s0,
            decreases n - ix,
        {
            let ghost s1 = *self;
            self.add_subscriber_at(e, ix, cb);
            proof {
                assert(s1.events@[e as int] == s0.events@[e as int]);
                assert(s1.spec_upstream(e as int, 0) == s0.spec_upstream(e as int, 0));
                if ix > 0 && s0.managers@[s0.events@[e as int].first_manager + 0].spec_subscribers().len() == 0
                    && s0.managers@[s0.events@[e as int].first_manager + 0].spec_subscription() is None
                    && s0.spec_upstream(e as int, 0) is Some && manager_count(
                    s0.events@[s0.spec_upstream(e as int, 0)->0 as int].kind,
                ) > 0 {
                    let u = s0.spec_upstream(e as int, 0)->0;
                    assert(s1.event_ok(e as int));
                    assert(u < s1.events@.len());
                    assert(s1.events@[u as int] == s0.events@[u as int]);
                    lemma_hears_kept(s1, *self, e, u);
                }
                lemma_subs_kept_trans(s0, s1, *self);
                assert(self.events@ =~= s1.events@);
                assert(s1.events@ =~= s0.events@);
                lemma_subs_delta_trans(s0, s1, *self);
                assert forall|k: int|
                    0 <= k < ix + 1 implies (#[trigger] self.managers@[s0.events@[e as int].first_manager + k]).spec_subscribers().contains(cb) by {
                    if k < ix {
                        assert(s1.event_ok(e as int));
                        assert(s1.managers@[s0.events@[e as int].first_manager + k].spec_subscribers().contains(cb));
                    }
                }
            }
            ix = ix + 1;
        }
        proof {
            if s0.heights_ok() {
                assert(self.events@ =~= s0.events@);
                lemma_heights_subs(s0, *self);
            }
        }
    }

    /// Add `cb` to subscriber list `ix` of event `e`; when it is the first
    /// subscriber there, subscribe that list to its input.
    pub(crate) fn add_subscriber_at(&mut self, e: usize, ix: usize, cb: Callback)
        requires
            old(self).wf(),
            e < old(self).events@.len(),
            ix < manager_count(old(self).events@[e as int].kind),
            old(self).cb_ok(cb),
            old(self).live.alive(cb),
            cb matches Callback::Hold { behavior } ==> old(self).behaviors@[behavior as int].kind == (BehaviorKind::Hold { event: e }),
            cb matches Callback::SwitchOuter { event } ==> old(self).events@[event as int].kind == (EventKind::SwitchHold { outer: e }),
            cb matches Callback::Main { event, tag, .. } ==> event < old(self).events@.len() && tag < manager_count(
                old(self).events@[event as int].kind,
            ) && old(self).spec_upstream(event as int, tag as int) == Some(e),
        ensures
            final(self).wf(),
            final(self).subs_delta_ok(*old(self)),
            old(self).heights_ok() ==> final(self).heights_ok(),
            final(self).same_graph(*old(self)),
            final(self).tokens_kept(*old(self)),
            num_empty(final(self).managers@) <= num_empty(old(self).managers@),
            final(self).queue@ == old(self).queue@,
            final(self).height == old(self).height,
            final(self).logs@ == old(self).logs@,
            forall|f: int|
                0 <= f < final(self).events@.len() ==> (#[trigger] final(self).events@[f]) == old(self).events@[f],
            final(self).behaviors@ == old(self).behaviors@,
            final(self).subs_kept(*old(self)),
            final(self).managers@[old(self).events@[e as int].first_manager + ix].spec_subscribers().contains(cb),
            old(self).managers@[old(self).events@[e as int].first_manager + ix].spec_subscribers().len() == 0
                && old(self).managers@[old(self).events@[e as int].first_manager + ix].spec_subscription() is None
                && old(self).spec_upstream(e as int, ix as int) is Some && manager_count(
                old(self).events@[old(self).spec_upstream(e as int, ix as int)->0 as int].kind,
            ) > 0 ==> final(self).hears(e, old(self).spec_upstream(e as int, ix as int)->0),
        decreases num_empty(old(self).managers@), 0nat,
    {
        assert(self.event_ok(e as int));
        let nm = self.managers.len();
        let m = self.events[e].first_manager + ix;
        let up = self.upstream(e, ix);
        let ghost before = self.managers@;
        let ghost old_self = *self;
        let first = self.managers[m].add_subscriber(&self.live, cb);
        proof {
            lemma_num_empty_update(before, m as int, self.managers@[m as int]);
            assert(self.managers@ == before.update(m as int, self.managers@[m as int]));
            lemma_live_only(before[m as int].spec_subscribers().push(cb), self.live);
            {
                let sp = before[m as int].spec_subscribers().push(cb);
                assert(sp[sp.len() - 1] == cb);
                assert(sp.contains(cb));
                if self.managers@[m as int].spec_subscribers() != sp {
                    lemma_live_only_keeps(sp, self.live, cb);
                }
                assert(self.managers@[m as int].spec_subscribers().contains(cb));
                assert forall|mm: int, c: Callback|
                    0 <= mm < old_self.managers@.len() && #[trigger] old_self.managers@[mm].spec_subscribers().contains(c)
                        && old_self.live.alive(c) implies self.managers@[mm].spec_subscribers().contains(c) by {
                    if mm == m {
                        let k = choose|k: int| 0 <= k < before[m as int].spec_subscribers().len() && before[m as int].spec_subscribers()[k] == c;
                        assert(sp[k] == c);
                        if self.managers@[m as int].spec_subscribers() != sp {
                            lemma_live_only_keeps(sp, self.live, c);
                        }
                    }
                }
                assert(old_self.event_ok(e as int));
                assert(self.managers@[m as int].spec_owner() == e);
                assert forall|mm: int, b: usize|
                    0 <= mm < self.managers@.len() && #[trigger] self.managers@[mm].spec_subscribers().contains(
                        Callback::Hold { behavior: b },
                    ) implies b < self.behaviors@.len() && self.behaviors@[b as int].kind == (BehaviorKind::Hold {
                        event: self.managers@[mm].spec_owner(),
                    }) by {
                    let x = Callback::Hold { behavior: b };
                    if mm == m {
                        lemma_live_only(sp, self.live);
                        assert(sp.contains(x));
                        let k = choose|k: int| 0 <= k < sp.len() && sp[k] == x;
                        if k < sp.len() - 1 {
                            assert(before[m as int].spec_subscribers()[k] == x);
                            assert(before[m as int].spec_subscribers().contains(x));
                        } else {
                            assert(cb == x);
                        }
                    } else {
                        assert(old_self.managers@[mm].spec_subscribers().contains(x));
                    }
                }
                assert forall|mm: int, sw: usize|
                    0 <= mm < self.managers@.len() && #[trigger] self.managers@[mm].spec_subscribers().contains(
                        Callback::SwitchOuter { event: sw },
                    ) implies sw < self.events@.len() && self.events@[sw as int].kind == (EventKind::SwitchHold {
                        outer: self.managers@[mm].spec_owner(),
                    }) by {
                    let x = Callback::SwitchOuter { event: sw };
                    if mm == m {
                        lemma_live_only(sp, self.live);
                        assert(sp.contains(x));
                        let k = choose|k: int| 0 <= k < sp.len() && sp[k] == x;
                        if k < sp.len() - 1 {
                            assert(before[m as int].spec_subscribers()[k] == x);
                            assert(before[m as int].spec_subscribers().contains(x));
                        } else {
                            assert(cb == x);
                        }
                    } else {
                        assert(old_self.managers@[mm].spec_subscribers().contains(x));
                    }
                }
            }
            if !first {
                if before[m as int].spec_subscribers().len() % 16 == 0 {
                    let s = before[m as int].spec_subscribers().push(cb);
                    assert(s.drop_last() == before[m as int].spec_subscribers());
                    assert(s.last() == cb);
                    assert(live_only(s, self.live).len() > 0);
                }
            }
            assert(self.events@ =~= old_self.events@);
            assert forall|ee: int| 0 <= ee < self.events@.len() implies #[trigger] self.event_ok(ee) by {
                assert(old_self.event_ok(ee));
                lemma_event_ok_frame(old_self, *self, ee);
            }
            assert forall|bb: int| 0 <= bb < self.behaviors@.len() implies #[trigger] self.behavior_ok(bb) by {
                assert(old_self.behavior_ok(bb));
            }
            assert forall|mm: int, i: int|
                0 <= mm < self.managers@.len() && 0 <= i
                    < self.managers@[mm].spec_subscribers().len() implies self.cb_ok(
                #[trigger] self.managers@[mm].spec_subscribers()[i],
            ) by {
                if mm == m {
                    let s = before[m as int].spec_subscribers().push(cb);
                    if self.managers@[mm].spec_subscribers() == s {
                        if i < s.len() - 1 {
                            assert(s[i] == before[m as int].spec_subscribers()[i]);
                        }
                    } else {
                        let x = self.managers@[mm].spec_subscribers()[i];
                        assert(s.contains(x));
                        let k = choose|k: int| 0 <= k < s.len() && s[k] == x;
                        if k < s.len() - 1 {
                            assert(s[k] == before[m as int].spec_subscribers()[k]);
                        }
                    }
                }
            }
        }
        proof {
            let sp = before[m as int].spec_subscribers().push(cb);
            assert(self.events@ =~= old_self.events@);
            assert forall|mm: int, c: Callback|
                0 <= mm < self.managers@.len() && #[trigger] self.managers@[mm].spec_subscribers().contains(c) && c is Main
                    && self.live.alive(c) implies (mm < old_self.managers@.len() && old_self.managers@[mm].spec_subscribers().contains(c)
                    && old_self.live.alive(c)) || self.main_sound(mm, c) by {
                if mm == m {
                    lemma_live_only(sp, self.live);
                    assert(sp.contains(c));
                    let k = choose|k: int| 0 <= k < sp.len() && sp[k] == c;
                    if k < sp.len() - 1 {
                        assert(before[m as int].spec_subscribers()[k] == c);
                        assert(before[m as int].spec_subscribers().contains(c));
                    } else {
                        assert(cb == c);
                        assert(self.managers@[m as int].spec_owner() == e);
                    }
                }
            }
        }
        if first {
            let has = up.is_some();
            let ghost mid = *self;
            let t = self.managers[m].populate_subscriber(&mut self.live, has, false);
            proof {
                lemma_num_empty_update(mid.managers@, m as int, self.managers@[m as int]);
                assert(self.managers@ == mid.managers@.update(m as int, self.managers@[m as int]));
                assert(num_empty(self.managers@) < num_empty(old_self.managers@));
                assert forall|ee: int| 0 <= ee < self.events@.len() implies #[trigger] self.event_ok(ee) by {
                    assert(mid.event_ok(ee));
                }
                assert forall|bb: int| 0 <= bb < self.behaviors@.len() implies #[trigger] self.behavior_ok(bb) by {
                    assert(mid.behavior_ok(bb));
                }
                assert forall|mm: int, i: int|
                    0 <= mm < self.managers@.len() && 0 <= i
                        < self.managers@[mm].spec_subscribers().len() implies self.cb_ok(
                    #[trigger] self.managers@[mm].spec_subscribers()[i],
                ) by {
                    assert(mid.cb_ok(mid.managers@[mm].spec_subscribers()[i]));
                }
                assert(t is Some ==> self.live.alive(Callback::Main { event: e, tag: self.managers@[m as int].spec_tag(), token: t->0 }));
            }
            let ghost s2 = *self;
            proof {
                assert forall|mm: int, c: Callback|
                    0 <= mm < mid.managers@.len() && #[trigger] mid.managers@[mm].spec_subscribers().contains(c)
                        && mid.live.alive(c) implies self.managers@[mm].spec_subscribers().contains(c) by {}
                assert(self.tokens_kept(mid));
                lemma_subs_kept_trans(old_self, mid, *self);
                lemma_alive_kept(old_self, *self, cb);
                assert(self.managers@[m as int].spec_subscribers().contains(cb));
            }
            proof {
                assert(self.events@ =~= mid.events@);
                assert forall|mm: int, c: Callback|
                    0 <= mm < self.managers@.len() && #[trigger] self.managers@[mm].spec_subscribers().contains(c) && c is Main
                        && self.live.alive(c) implies (mm < mid.managers@.len() && mid.managers@[mm].spec_subscribers().contains(c)
                        && mid.live.alive(c)) || self.main_sound(mm, c) by {
                    assert(mid.managers@[mm].spec_subscribers() == self.managers@[mm].spec_subscribers());
                    let i = choose|i: int| 0 <= i < self.managers@[mm].spec_subscribers().len() && self.managers@[mm].spec_subscribers()[i] == c;
                    assert(mid.cb_ok(mid.managers@[mm].spec_subscribers()[i]));
                }
                lemma_subs_delta_trans(old_self, mid, *self);
                assert(self.event_ok(e as int));
            }
            match (t, up) {
                (Some(token), Some(u)) => {
                    let tag = self.managers[m].tag();
                    let main = Callback::Main { event: e, tag, token };
                    proof {
                        assert(self.managers@[m as int].spec_owner() == e);
                        assert(tag == ix);
                        assert(self.events@[e as int] == old_self.events@[e as int]);
                        assert(self.spec_upstream(e as int, ix as int) == Some(u));
                    }
                    proof {
                        assert(self.live.alive(main));
                    }
                    self.subscribe(u, main);
                    proof {
                        if manager_count(self.events@[u as int].kind) > 0 {
                            assert(self.managers@[s2.events@[u as int].first_manager + 0].spec_subscribers().contains(main));
                            assert(self.events@[u as int].first_manager == s2.events@[u as int].first_manager);
                            lemma_alive_kept(s2, *self, main);
                            assert(self.managers@[self.events@[u as int].first_manager as int].spec_subscribers().contains(main));
                            assert(self.hears(e, u));
                        }
                        assert(self.events@ =~= s2.events@);
                        lemma_subs_delta_trans(old_self, s2, *self);
                        lemma_subs_kept_trans(old_self, s2, *self);
                        assert(s2.managers@[m as int].spec_subscribers().contains(cb));
                        assert(self.managers@[m as int].spec_subscribers().contains(cb));
                    }
                },
                _ => {},
            }
        }
        proof {
            if old_self.heights_ok() {
                assert(self.events@ =~= old_self.events@);
                lemma_heights_subs(old_self, *self);
            }
        }
    }
}


impl Default for Runtime {
    /// A fresh runtime.
    fn default() -> (r: Self)
        ensures
            r.wf(),
            r.num_events() == 0,
            r.num_behaviors() == 0,
            r.num_logs() == 0,
            !r.propagating(),
            r.queue_empty(),
            r.heights_ok(),
            r.idle_queue(),
    {
        Runtime::new()
    }
}

impl Runtime {
    /// `self` has the nodes of `old`, unchanged, and possibly more; nothing
    /// is scheduled anew and no listener heard anything.
    pub closed spec fn keeps_nodes(self, old: Runtime) -> bool {
        &&& self.events@.len() >= old.events@.len()
        &&& forall|e: int| 0 <= e < old.events@.len() ==> #[trigger] self.events@[e] == old.events@[e]
        &&& self.behaviors@.len() >= old.behaviors@.len()
        &&& forall|b: int|
            0 <= b < old.behaviors@.len() ==> #[trigger] self.behaviors@[b] == old.behaviors@[b]
        &&& self.logs@.len() >= old.logs@.len()
        &&& forall|l: int| 0 <= l < old.logs@.len() ==> #[trigger] self.logs@[l] == old.logs@[l]
        &&& forall|l: int| 0 <= l < old.logs@.len() ==> #[trigger] self.live.logs@[l] == old.live.logs@[l]
        &&& self.queue@ == old.queue@
        &&& self.height == old.height
    }

    /// The nodes an event kind names exist.
    pub(crate) open spec fn kind_ok(self, k: EventKind) -> bool {
        match k {
            EventKind::FilterMap { inner, .. } => inner < self.events@.len(),
            EventKind::Leftmost { inputs } => forall|i: int|
                0 <= i < inputs@.len() ==> #[trigger] inputs@[i] < self.events@.len(),
            EventKind::Combine { a, b, .. } => a < self.events@.len() && b < self.events@.len(),
            EventKind::Tag { event, behavior, .. } => event < self.events@.len() && behavior
                < self.behaviors@.len(),
            EventKind::SwitchHold { outer } => outer < self.events@.len(),
            _ => true,
        }
    }

    /// The nodes a behavior kind names exist.
    pub(crate) open spec fn bkind_ok(self, k: BehaviorKind) -> bool {
        match k {
            BehaviorKind::Hold { event } => event < self.events@.len(),
            BehaviorKind::Apply { input, .. } => input < self.behaviors@.len(),
            BehaviorKind::Apply2 { a, b, .. } => a < self.behaviors@.len() && b < self.behaviors@.len(),
            BehaviorKind::Join { outer } => outer < self.behaviors@.len(),
            BehaviorKind::Computation { inputs, .. } => forall|i: int|
                0 <= i < inputs@.len() ==> #[trigger] inputs@[i] < self.behaviors@.len(),
            _ => true,
        }
    }

    /// Add an event node of kind `kind` with fresh, empty subscriber lists.
    pub(crate) fn add_event(&mut self, kind: EventKind) -> (id: usize)
        requires
            old(self).wf(),
            old(self).kind_ok(kind),
        ensures
            final(self).wf(),
            id == old(self).events@.len(),
            final(self).events@.len() == old(self).events@.len() + 1,
            forall|e: int| 0 <= e < old(self).events@.len() ==> #[trigger] final(self).events@[e] == old(self).events@[e],
            final(self).events@[id as int].kind == kind,
            final(self).events@[id as int].first_manager == old(self).managers@.len(),
            !final(self).events@[id as int].scheduled,
            final(self).events@[id as int].winner is None,
            final(self).events@[id as int].pending is None,
            final(self).events@[id as int].inner is None,
            final(self).managers@.len() == old(self).managers@.len() + manager_count(kind),
            forall|m: int|
                0 <= m < old(self).managers@.len() ==> #[trigger] final(self).managers@[m] == old(self).managers@[m],
            forall|m: int|
                old(self).managers@.len() <= m < final(self).managers@.len() ==> (
                #[trigger] final(self).managers@[m]).spec_subscribers().len() == 0 && final(self).managers@[m].spec_subscription() is None && final(self).managers@[m].spec_tag()
                    == m - old(self).managers@.len() && final(self).managers@[m].spec_owner() == id,
            final(self).behaviors@ == old(self).behaviors@,
            final(self).live == old(self).live,
            final(self).logs@ == old(self).logs@,
            final(self).queue@ == old(self).queue@,
            final(self).height == old(self).height,
            old(self).heights_ok() ==> final(self).heights_ok(),
    {
        let n: usize = match &kind {
            EventKind::Never => 0,
            EventKind::Leftmost { inputs } => inputs.len(),
            EventKind::Combine { .. } => 2,
            _ => 1,
        };
        let ghost s0 = *self;
        let first = self.managers.len();
        let id = self.events.len();
        let mut i: usize = 0;
        while i < n
            invariant
                s0.inv(),
                i <= n,
                self.managers@.len() == first + i,
                first == s0.managers@.len(),
                forall|m: int| 0 <= m < first ==> #[trigger] self.managers@[m] == s0.managers@[m],
                forall|m: int|
                    first <= m < self.managers@.len() ==> (#[trigger] self.managers@[m]).spec_subscribers().len()
                        == 0 && self.managers@[m].spec_subscription() is None
                        && self.managers@[m].spec_tag() == m - first && self.managers@[m].spec_owner() == id,
                id == s0.events@.len(),
                self.events@ == s0.events@,
                self.behaviors@ == s0.behaviors@,
                self.live == s0.live,
                self.logs@ == s0.logs@,
                self.queue@ == s0.queue@,
                self.height == s0.height,
            decreases n - i,
        {
            self.managers.push(SubscriptionManager::new(i, id));
            i = i + 1;
        }
        self.events.push(
            EventNode { kind, first_manager: first, scheduled: false, winner: None, pending: None, inner: None },
        );
        proof {
            assert forall|e: int| 0 <= e < self.events@.len() implies #[trigger] self.event_ok(e) by {
                if e < id {
                    assert(s0.event_ok(e));
                    assert(self.events@[e] == s0.events@[e]);
                    lemma_event_ok_grow(s0, *self, e);
                } else {
                    assert forall|ix: int| 0 <= ix < manager_count(kind) implies #[trigger] self.managers@[first + ix].spec_owner() == e
                        && self.managers@[first + ix].spec_tag() == ix by {
                        assert(self.managers@[first + ix].spec_tag() == first + ix - first);
                    }
                }
            }
            assert forall|x: int| 0 <= x < self.behaviors@.len() implies #[trigger] self.behavior_ok(x) by {
                assert(s0.behavior_ok(x));
            }
            assert forall|m: int, j: int|
                0 <= m < self.managers@.len() && 0 <= j < self.managers@[m].spec_subscribers().len()
                    implies self.cb_ok(#[trigger] self.managers@[m].spec_subscribers()[j]) by {
                assert(s0.cb_ok(s0.managers@[m].spec_subscribers()[j]));
            }
            assert forall|x: int, k: int|
                0 <= x < self.queue@.len() && 0 <= k < self.queue@[x].actions@.len() implies self.action_ok(
                #[trigger] self.queue@[x].actions@[k],
            ) by {
                assert(s0.action_ok(s0.queue@[x].actions@[k]));
            }
        }
        proof {
            if s0.heights_ok() {
                lemma_heights_add_event(s0, *self);
            }
        }
        id
    }

    /// Add a behavior node.
    pub(crate) fn add_behavior(&mut self, kind: BehaviorKind, value: AnyValue) -> (id: usize)
        requires
            old(self).wf(),
            old(self).bkind_ok(kind),
        ensures
            final(self).wf(),
            id == old(self).behaviors@.len(),
            final(self).behaviors@.len() == old(self).behaviors@.len() + 1,
            forall|b: int| 0 <= b < old(self).behaviors@.len() ==> #[trigger] final(self).behaviors@[b] == old(self).behaviors@[b],
            final(self).behaviors@[id as int].kind == kind,
            final(self).behaviors@[id as int].value == value,
            final(self).events@ == old(self).events@,
            final(self).managers@ == old(self).managers@,
            final(self).live == old(self).live,
            final(self).logs@ == old(self).logs@,
            final(self).queue@ == old(self).queue@,
            final(self).height == old(self).height,
            old(self).heights_ok() ==> final(self).heights_ok(),
    {
        let ghost s0 = *self;
        let id = self.behaviors.len();
        self.behaviors.push(BehaviorNode { kind, value });
        proof {
            assert forall|e: int| 0 <= e < self.events@.len() implies #[trigger] self.event_ok(e) by {
                assert(s0.event_ok(e));
            }
            assert forall|x: int| 0 <= x < self.behaviors@.len() implies #[trigger] self.behavior_ok(x) by {
                if x < id {
                    assert(s0.behavior_ok(x));
                }
            }
            assert forall|m: int, j: int|
                0 <= m < self.managers@.len() && 0 <= j < self.managers@[m].spec_subscribers().len()
                    implies self.cb_ok(#[trigger] self.managers@[m].spec_subscribers()[j]) by {
                assert(s0.cb_ok(s0.managers@[m].spec_subscribers()[j]));
            }
            assert forall|x: int, k: int|
                0 <= x < self.queue@.len() && 0 <= k < self.queue@[x].actions@.len() implies self.action_ok(
                #[trigger] self.queue@[x].actions@[k],
            ) by {
                assert(s0.action_ok(s0.queue@[x].actions@[k]));
            }
        }
        proof {
            if s0.heights_ok() {
                lemma_heights_frame(s0, *self);
            }
        }
        id
    }

    /// Add an outside listener with an empty log.
    pub(crate) fn add_log(&mut self) -> (id: usize)
        requires
            old(self).wf(),
        ensures
            final(self).wf(),
            id == old(self).logs@.len(),
            final(self).logs@.len() == old(self).logs@.len() + 1,
            final(self).logs@[id as int]@ == Seq::<AnyValue>::empty(),
            forall|l: int| 0 <= l < old(self).logs@.len() ==> #[trigger] final(self).logs@[l] == old(self).logs@[l],
            final(self).live.logs@ == old(self).live.logs@.push(true),
            final(self).live.tokens@ == old(self).live.tokens@,
            final(self).events@ == old(self).events@,
            final(self).managers@ == old(self).managers@,
            final(self).behaviors@ == old(self).behaviors@,
            final(self).queue@ == old(self).queue@,
            final(self).height == old(self).height,
            old(self).heights_ok() ==> final(self).heights_ok(),
    {
        let ghost s0 = *self;
        let id = self.logs.len();
        self.logs.push(Vec::new());
        self.live.logs.push(true);
        proof {
            assert forall|e: int| 0 <= e < self.events@.len() implies #[trigger] self.event_ok(e) by {
                assert(s0.event_ok(e));
            }
            assert forall|x: int| 0 <= x < self.behaviors@.len() implies #[trigger] self.behavior_ok(x) by {
                assert(s0.behavior_ok(x));
            }
            assert forall|m: int, j: int|
                0 <= m < self.managers@.len() && 0 <= j < self.managers@[m].spec_subscribers().len()
                    implies self.cb_ok(#[trigger] self.managers@[m].spec_subscribers()[j]) by {
                assert(s0.cb_ok(s0.managers@[m].spec_subscribers()[j]));
            }
            assert forall|x: int, k: int|
                0 <= x < self.queue@.len() && 0 <= k < self.queue@[x].actions@.len() implies self.action_ok(
                #[trigger] self.queue@[x].actions@[k],
            ) by {
                assert(s0.action_ok(s0.queue@[x].actions@[k]));
            }
        }
        proof {
            if s0.heights_ok() {
                lemma_heights_frame(s0, *self);
            }
        }
        id
    }
}

} // verus!
