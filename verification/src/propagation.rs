//! Scheduling and running the actions of an occurrence.

use crate::runtime::{
    Action, BehaviorKind, BehaviorNode, EventKind, EventNode, PropagationError, Round, Runtime, actions_at, lemma_actions_at,
    manager_count, queue_sorted, spec_value, spec_values, lemma_inv_frame, trigger_pending, action_pending,
};
use crate::function::{FnRef, call1, call_fn, is_dispatcher, spec_call};
use crate::subscriber_list::{Callback, lemma_live_only, lemma_live_only_keeps, live_only};
use crate::event::EventTrigger;
use crate::value::{AnyValue, Value, ValueType};
use vstd::prelude::*;

verus! {

broadcast use crate::runtime::group_runtime_defs;

/// Which kind of node an event is, without its contents.
#[derive(Clone, Copy)]
pub enum Shape {
    External,
    Never,
    FilterMap,
    Leftmost,
    Combine,
    Tag,
    SwitchHold,
}

/// The shape of an event kind.
pub open spec fn shape_of(k: EventKind) -> Shape {
    match k {
        EventKind::External => Shape::External,
        EventKind::Never => Shape::Never,
        EventKind::FilterMap { .. } => Shape::FilterMap,
        EventKind::Leftmost { .. } => Shape::Leftmost,
        EventKind::Combine { .. } => Shape::Combine,
        EventKind::Tag { .. } => Shape::Tag,
        EventKind::SwitchHold { .. } => Shape::SwitchHold,
    }
}

/// The best firing of a leftmost event after one more firing `v` of input
/// `tag`: the firing from the input with the lowest index wins.
pub open spec fn pick_winner(old: Option<(AnyValue, usize)>, v: AnyValue, tag: usize) -> Option<
    (AnyValue, usize),
> {
    match old {
        Some((w, cur)) => if cur < tag {
            Some((w, cur))
        } else {
            Some((v, tag))
        },
        None => Some((v, tag)),
    }
}

/// The firings seen by a combined event after one more firing `v`: a firing
/// of each side makes `Both`; otherwise the first firing seen stays.
pub open spec fn merge_pending(v: AnyValue, old: Option<AnyValue>) -> Option<AnyValue> {
    match (v, old) {
        (AnyValue::First(a), Some(AnyValue::Second(b))) => Some(AnyValue::Both(a, b)),
        (AnyValue::Second(b), Some(AnyValue::First(a))) => Some(AnyValue::Both(a, b)),
        (v, None) => Some(v),
        (_, old) => old,
    }
}

/// Whatever the order in which the inputs of a leftmost event fire, the one
/// kept is the firing of the input with the lowest index.
pub proof fn lemma_pick_winner_lowest(w: Option<(AnyValue, usize)>, v: AnyValue, tag: usize)
    ensures
        pick_winner(w, v, tag) matches Some((x, t)) && (w matches Some((wv, wt)) ==> (if wt < tag {
            x == wv && t == wt
        } else {
            x == v && t == tag
        })) && (w is None ==> x == v && t == tag),
        pick_winner(w, v, tag) matches Some((_, t)) && t <= tag && (w matches Some((_, wt)) ==> t
            <= wt),
{
}

/// Two firings of a leftmost event's inputs are kept the same whatever the
/// order they arrive in, when they come from different inputs.
pub proof fn lemma_pick_winner_order(w: Option<(AnyValue, usize)>, v1: AnyValue, t1: usize, v2: AnyValue, t2: usize)
    requires
        t1 != t2,
    ensures
        pick_winner(pick_winner(w, v1, t1), v2, t2) == pick_winner(pick_winner(w, v2, t2), v1, t1),
{
}

/// A combined event that saw a firing of each side holds both, whichever
/// side fired first.
pub proof fn lemma_merge_both(a: Box<AnyValue>, b: Box<AnyValue>)
    ensures
        merge_pending(AnyValue::Second(b), merge_pending(AnyValue::First(a), None)) == Some(
            AnyValue::Both(a, b),
        ),
        merge_pending(AnyValue::First(a), merge_pending(AnyValue::Second(b), None)) == Some(
            AnyValue::Both(a, b),
        ),
{
}

/// Outside listener logs only ever grow.
pub open spec fn logs_extend(new: Seq<Vec<AnyValue>>, old: Seq<Vec<AnyValue>>) -> bool {
    &&& new.len() == old.len()
    &&& forall|l: int|
        0 <= l < old.len() ==> old[l]@.len() <= (#[trigger] new[l])@.len() && new[l]@.subrange(
            0,
            old[l]@.len() as int,
        ) == old[l]@
}

/// The logs of listeners that stopped listening do not change.
pub open spec fn dead_logs_kept(new: Seq<Vec<AnyValue>>, old: Seq<Vec<AnyValue>>, alive: Seq<bool>) -> bool {
    forall|l: int| 0 <= l < old.len() && !alive[l] ==> #[trigger] new[l] == old[l]
}

/// Listener `l` heard `v` in `new` after what it had heard in `old`.
pub open spec fn heard_after(new: Seq<Vec<AnyValue>>, old: Seq<Vec<AnyValue>>, l: int, v: AnyValue) -> bool {
    new[l]@.subrange(old[l]@.len() as int, new[l]@.len() as int).contains(v)
}

/// What was heard stays heard as the logs grow.
pub proof fn lemma_heard_after_extend(
    a: Seq<Vec<AnyValue>>,
    b: Seq<Vec<AnyValue>>,
    c: Seq<Vec<AnyValue>>,
    l: int,
    v: AnyValue,
)
    requires
        logs_extend(b, a),
        logs_extend(c, b),
        0 <= l < a.len(),
        heard_after(b, a, l, v),
    ensures
        heard_after(c, a, l, v),
{
    let sb = b[l]@.subrange(a[l]@.len() as int, b[l]@.len() as int);
    let sc = c[l]@.subrange(a[l]@.len() as int, c[l]@.len() as int);
    let k = choose|k: int| 0 <= k < sb.len() && sb[k] == v;
    assert(c[l]@.subrange(0, b[l]@.len() as int) == b[l]@);
    assert(c[l]@[a[l]@.len() + k] == c[l]@.subrange(0, b[l]@.len() as int)[a[l]@.len() + k]);
    assert(sc[k] == v);
}

/// What was heard after a later point was heard after an earlier one.
pub proof fn lemma_heard_after_earlier(
    a: Seq<Vec<AnyValue>>,
    b: Seq<Vec<AnyValue>>,
    c: Seq<Vec<AnyValue>>,
    l: int,
    v: AnyValue,
)
    requires
        logs_extend(b, a),
        logs_extend(c, b),
        0 <= l < a.len(),
        heard_after(c, b, l, v),
    ensures
        heard_after(c, a, l, v),
{
    let sb = c[l]@.subrange(b[l]@.len() as int, c[l]@.len() as int);
    let sa = c[l]@.subrange(a[l]@.len() as int, c[l]@.len() as int);
    let k = choose|k: int| 0 <= k < sb.len() && sb[k] == v;
    assert(sa[k + b[l]@.len() - a[l]@.len()] == v);
}

/// While the firing of external event `e` with `v` and the update of behavior
/// `b` it causes wait in queue `q` or in `rest`: `e` fires only with `v`,
/// `b` is only updated to `v`, and `b` has `v` once neither waits.
pub(crate) open spec fn hold_track(
    q: Seq<Round>,
    rest: Seq<Action>,
    behaviors: Seq<BehaviorNode>,
    e: usize,
    v: AnyValue,
    b: usize,
) -> bool {
    &&& forall|w: AnyValue|
        #![trigger action_pending(q, Action::Trigger { event: e, value: w })]
        #![trigger rest.contains(Action::Trigger { event: e, value: w })]
        action_pending(q, Action::Trigger { event: e, value: w }) || rest.contains(
            Action::Trigger { event: e, value: w },
        ) ==> w == v
    &&& forall|w: AnyValue|
        #![trigger action_pending(q, Action::Hold { behavior: b, value: w })]
        #![trigger rest.contains(Action::Hold { behavior: b, value: w })]
        action_pending(q, Action::Hold { behavior: b, value: w }) || rest.contains(
            Action::Hold { behavior: b, value: w },
        ) ==> w == v
    &&& action_pending(q, Action::Trigger { event: e, value: v }) || rest.contains(
        Action::Trigger { event: e, value: v },
    ) || behaviors[b as int].value == v || action_pending(q, Action::Hold { behavior: b, value: v })
        || rest.contains(Action::Hold { behavior: b, value: v })
}

/// An action waiting in a sorted queue waits at the height of its round.
pub(crate) proof fn lemma_pending_at_height(q: Seq<Round>, x: Action)
    requires
        queue_sorted(q),
        action_pending(q, x),
    ensures
        exists|h: usize| #[trigger] actions_at(q, h).contains(x),
{
    let (i, k) = choose|i: int, k: int| 0 <= i < q.len() && 0 <= k < q[i].actions@.len() && #[trigger] q[i].actions@[k] == x;
    lemma_actions_at(q, i);
    assert(actions_at(q, q[i].height)[k] == x);
    assert(actions_at(q, q[i].height).contains(x));
}

/// An action found among those at some height waits in the queue.
pub(crate) proof fn lemma_at_height_pending(q: Seq<Round>, h: usize, x: Action)
    requires
        actions_at(q, h).contains(x),
    ensures
        action_pending(q, x),
{
    let i = choose|i: int| 0 <= i < q.len() && q[i].height == h;
    let k = choose|k: int| 0 <= k < actions_at(q, h).len() && actions_at(q, h)[k] == x;
    assert(q[i].actions@[k] == x);
}

/// Taking the first round off a queue: an action waits in the queue
/// exactly when it waits in what is left or is in the round taken off.
pub(crate) proof fn lemma_pending_pop(q: Seq<Round>, x: Action)
    requires
        q.len() > 0,
    ensures
        action_pending(q, x) <==> action_pending(q.remove(0), x) || q[0].actions@.contains(x),
{
    let q2 = q.remove(0);
    if action_pending(q, x) {
        let (i, k) = choose|i: int, k: int| 0 <= i < q.len() && 0 <= k < q[i].actions@.len() && #[trigger] q[i].actions@[k] == x;
        if i == 0 {
            assert(q[0].actions@[k] == x);
        } else {
            assert(q2[i - 1] == q[i]);
            assert(q2[i - 1].actions@[k] == x);
        }
    }
    if action_pending(q2, x) {
        let (i, k) = choose|i: int, k: int| 0 <= i < q2.len() && 0 <= k < q2[i].actions@.len() && #[trigger] q2[i].actions@[k] == x;
        assert(q2[i] == q[i + 1]);
        assert(q[i + 1].actions@[k] == x);
    }
    if q[0].actions@.contains(x) {
        let k = choose|k: int| 0 <= k < q[0].actions@.len() && q[0].actions@[k] == x;
        assert(q[0].actions@[k] == x);
    }
}

/// Before a propagation set up as [`Runtime::hold_setup`] says, the firing
/// and the update are tracked.
pub(crate) proof fn lemma_hold_init(s: Runtime, e: usize, v: AnyValue, b: usize)
    requires
        s.wf(),
        s.hold_setup(e, v, b),
    ensures
        hold_track(s.queue@, Seq::empty(), s.behaviors@, e, v, b),
{
    let q = s.queue@;
    assert forall|w: AnyValue| action_pending(q, Action::Trigger { event: e, value: w }) implies w == v by {
        let x = Action::Trigger { event: e, value: w };
        lemma_pending_at_height(q, x);
        let h = choose|h: usize| #[trigger] actions_at(q, h).contains(x);
        let k = choose|k: int| 0 <= k < actions_at(q, h).len() && actions_at(q, h)[k] == x;
        assert(s.pending_at(h)[k] == x);
    }
    assert forall|w: AnyValue| !action_pending(q, Action::Hold { behavior: b, value: w }) by {
        let x = Action::Hold { behavior: b, value: w };
        if action_pending(q, x) {
            lemma_pending_at_height(q, x);
            let h = choose|h: usize| #[trigger] actions_at(q, h).contains(x);
            let k = choose|k: int| 0 <= k < actions_at(q, h).len() && actions_at(q, h)[k] == x;
            assert(s.pending_at(h)[k] == x);
        }
    }
    lemma_at_height_pending(q, 0, Action::Trigger { event: e, value: v });
}

/// Taking the next round off the queue keeps the tracking, with the
/// round's actions as those still to run.
pub(crate) proof fn lemma_hold_pop(q: Seq<Round>, bs: Seq<BehaviorNode>, e: usize, v: AnyValue, b: usize)
    requires
        q.len() > 0,
        hold_track(q, Seq::empty(), bs, e, v, b),
    ensures
        hold_track(q.remove(0), q[0].actions@, bs, e, v, b),
{
    let q2 = q.remove(0);
    let r = q[0].actions@;
    assert forall|w: AnyValue|
        action_pending(q2, Action::Trigger { event: e, value: w }) || r.contains(Action::Trigger { event: e, value: w })
            implies w == v by {
        lemma_pending_pop(q, Action::Trigger { event: e, value: w });
    }
    assert forall|w: AnyValue|
        action_pending(q2, Action::Hold { behavior: b, value: w }) || r.contains(Action::Hold { behavior: b, value: w })
            implies w == v by {
        lemma_pending_pop(q, Action::Hold { behavior: b, value: w });
    }
    lemma_pending_pop(q, Action::Trigger { event: e, value: v });
    lemma_pending_pop(q, Action::Hold { behavior: b, value: v });
}

/// Running the next action keeps the tracking, with one action fewer still
/// to run.
pub(crate) proof fn lemma_hold_step(s2: Runtime, s3: Runtime, rest: Seq<Action>, e: usize, v: AnyValue, b: usize)
    requires
        s2.wf(),
        s3.step_ok(s2),
        rest.len() > 0,
        hold_track(s2.queue@, rest, s2.behaviors@, e, v, b),
        e < s2.events@.len(),
        s2.events@[e as int].kind is External,
        b < s2.behaviors@.len(),
        s2.behaviors@[b as int].kind == (BehaviorKind::Hold { event: e }),
        s2.managers@[s2.events@[e as int].first_manager + 0].spec_subscribers().contains(Callback::Hold { behavior: b }),
        rest[0] matches Action::Trigger { event, value } ==> (s2.events@[event as int].kind is External
            ==> forall|bb: usize|
            #[trigger] s2.managers@[s2.events@[event as int].first_manager + 0].spec_subscribers().contains(
                Callback::Hold { behavior: bb },
            ) ==> action_pending(s3.queue@, Action::Hold { behavior: bb, value })),
        rest[0] matches Action::Hold { behavior, value } ==> (s2.behaviors@[behavior as int].kind is Hold
            ==> s3.behaviors@[behavior as int].value == value),
        !(rest[0] is Hold) ==> s3.behaviors@ == s2.behaviors@,
        rest[0] matches Action::Hold { behavior, .. } ==> forall|x: int|
            0 <= x < s2.behaviors@.len() && x != behavior ==> #[trigger] s3.behaviors@[x] == s2.behaviors@[x],
        forall|bb: usize, w: AnyValue|
            #[trigger] action_pending(s3.queue@, Action::Hold { behavior: bb, value: w }) ==> action_pending(
                s2.queue@,
                Action::Hold { behavior: bb, value: w },
            ) || match rest[0] {
                Action::Trigger { event, value } => s2.events@[event as int].kind is External && w == value
                    && s2.managers@[s2.events@[event as int].first_manager + 0].spec_subscribers().contains(
                    Callback::Hold { behavior: bb },
                ),
                Action::Main { event, .. } => !(s2.events@[event as int].kind is External) && exists|ix: int|
                    0 <= ix < manager_count(s2.events@[event as int].kind) && #[trigger] s2.managers@[s2.events@[
                    event as int].first_manager + ix].spec_subscribers().contains(Callback::Hold { behavior: bb }),
                _ => false,
            },
        s2.action_ok(rest[0]),
    ensures
        hold_track(s3.queue@, rest.drop_first(), s3.behaviors@, e, v, b),
{
    let a = rest[0];
    let r2 = rest.drop_first();
    let q2 = s2.queue@;
    let q3 = s3.queue@;
    let tv = Action::Trigger { event: e, value: v };
    let hv = Action::Hold { behavior: b, value: v };
    assert(rest.contains(a));
    assert forall|x: Action| r2.contains(x) implies rest.contains(x) by {
        let k = choose|k: int| 0 <= k < r2.len() && r2[k] == x;
        assert(rest[k + 1] == x);
    }
    assert forall|w: AnyValue|
        action_pending(q3, Action::Trigger { event: e, value: w }) || r2.contains(Action::Trigger { event: e, value: w })
            implies w == v by {
        let x = Action::Trigger { event: e, value: w };
        if action_pending(q3, x) {
            assert(action_pending(q2, x));
        }
    }
    assert forall|w: AnyValue|
        action_pending(q3, Action::Hold { behavior: b, value: w }) || r2.contains(Action::Hold { behavior: b, value: w })
            implies w == v by {
        let x = Action::Hold { behavior: b, value: w };
        if action_pending(q3, x) && !action_pending(q2, x) {
            match a {
                Action::Trigger { event, value } => {
                    let m = s2.events@[event as int].first_manager + 0;
                    assert(s2.event_ok(event as int));
                    assert(s2.managers@[m].spec_owner() == event);
                    assert(s2.managers@[m].spec_subscribers().contains(Callback::Hold { behavior: b }));
                    assert(rest.contains(Action::Trigger { event: e, value }));
                },
                Action::Main { event, .. } => {
                    let ix = choose|ix: int|
                        0 <= ix < manager_count(s2.events@[event as int].kind) && #[trigger] s2.managers@[s2.events@[
                        event as int].first_manager + ix].spec_subscribers().contains(Callback::Hold { behavior: b });
                    assert(s2.event_ok(event as int));
                    assert(s2.managers@[s2.events@[event as int].first_manager + ix].spec_owner() == event);
                },
                _ => {},
            }
        }
    }
    if action_pending(q2, tv) {
        assert(action_pending(q3, tv));
    } else if action_pending(q2, hv) {
        assert(action_pending(q3, hv));
    } else if r2.contains(tv) || r2.contains(hv) {
    } else if a == tv {
        assert(action_pending(q3, hv));
    } else if a == hv {
        assert(s3.behaviors@[b as int].value == v);
    } else {
        if rest.contains(tv) {
            let k = choose|k: int| 0 <= k < rest.len() && rest[k] == tv;
            assert(k != 0);
            assert(r2[k - 1] == tv);
        }
        if rest.contains(hv) {
            let k = choose|k: int| 0 <= k < rest.len() && rest[k] == hv;
            assert(k != 0);
            assert(r2[k - 1] == hv);
        }
        assert(s2.behaviors@[b as int].value == v);
        match a {
            Action::Hold { behavior, value } => {
                if behavior == b {
                    assert(rest.contains(Action::Hold { behavior: b, value }));
                } else {
                    assert(s3.behaviors@[b as int] == s2.behaviors@[b as int]);
                }
            },
            _ => {},
        }
    }
}

/// While the firing of external event `o` with event `j` and the switch of
/// event `s` it causes wait in queue `q` or in `rest`: `o` fires only with
/// `j`, `s` only switches to `j`, and `s` follows `j` once neither waits.
pub(crate) open spec fn switch_track(
    q: Seq<Round>,
    rest: Seq<Action>,
    events: Seq<EventNode>,
    o: usize,
    j: usize,
    s: usize,
) -> bool {
    &&& forall|w: AnyValue|
        #![trigger action_pending(q, Action::Trigger { event: o, value: w })]
        #![trigger rest.contains(Action::Trigger { event: o, value: w })]
        action_pending(q, Action::Trigger { event: o, value: w }) || rest.contains(
            Action::Trigger { event: o, value: w },
        ) ==> w == AnyValue::Event(j)
    &&& forall|k: usize|
        #![trigger action_pending(q, Action::Switch { event: s, inner: k })]
        #![trigger rest.contains(Action::Switch { event: s, inner: k })]
        action_pending(q, Action::Switch { event: s, inner: k }) || rest.contains(
            Action::Switch { event: s, inner: k },
        ) ==> k == j
    &&& action_pending(q, Action::Trigger { event: o, value: AnyValue::Event(j) }) || rest.contains(
        Action::Trigger { event: o, value: AnyValue::Event(j) },
    ) || events[s as int].inner == Some(j) || action_pending(q, Action::Switch { event: s, inner: j })
        || rest.contains(Action::Switch { event: s, inner: j })
}

/// Before a propagation set up as [`Runtime::switch_setup`] says, the firing
/// and the switch are tracked.
pub(crate) proof fn lemma_switch_init(rt: Runtime, o: usize, j: usize, s: usize)
    requires
        rt.wf(),
        rt.switch_setup(o, j, s),
    ensures
        switch_track(rt.queue@, Seq::empty(), rt.events@, o, j, s),
{
    let q = rt.queue@;
    assert forall|w: AnyValue| action_pending(q, Action::Trigger { event: o, value: w }) implies w == AnyValue::Event(j) by {
        let x = Action::Trigger { event: o, value: w };
        lemma_pending_at_height(q, x);
        let h = choose|h: usize| #[trigger] actions_at(q, h).contains(x);
        let k = choose|k: int| 0 <= k < actions_at(q, h).len() && actions_at(q, h)[k] == x;
        assert(rt.pending_at(h)[k] == x);
    }
    assert forall|k: usize| !action_pending(q, Action::Switch { event: s, inner: k }) by {
        let x = Action::Switch { event: s, inner: k };
        if action_pending(q, x) {
            lemma_pending_at_height(q, x);
            let h = choose|h: usize| #[trigger] actions_at(q, h).contains(x);
            let i = choose|i: int| 0 <= i < actions_at(q, h).len() && actions_at(q, h)[i] == x;
            assert(rt.pending_at(h)[i] == x);
        }
    }
    lemma_at_height_pending(q, 0, Action::Trigger { event: o, value: AnyValue::Event(j) });
}

/// Taking the next round off the queue keeps the switch tracked, with the
/// round's actions as those still to run.
pub(crate) proof fn lemma_switch_pop(q: Seq<Round>, events: Seq<EventNode>, o: usize, j: usize, s: usize)
    requires
        q.len() > 0,
        switch_track(q, Seq::empty(), events, o, j, s),
    ensures
        switch_track(q.remove(0), q[0].actions@, events, o, j, s),
{
    let q2 = q.remove(0);
    let r = q[0].actions@;
    assert forall|w: AnyValue|
        action_pending(q2, Action::Trigger { event: o, value: w }) || r.contains(Action::Trigger { event: o, value: w })
            implies w == AnyValue::Event(j) by {
        lemma_pending_pop(q, Action::Trigger { event: o, value: w });
    }
    assert forall|k: usize|
        action_pending(q2, Action::Switch { event: s, inner: k }) || r.contains(Action::Switch { event: s, inner: k })
            implies k == j by {
        lemma_pending_pop(q, Action::Switch { event: s, inner: k });
    }
    lemma_pending_pop(q, Action::Trigger { event: o, value: AnyValue::Event(j) });
    lemma_pending_pop(q, Action::Switch { event: s, inner: j });
}

/// Running the next action keeps the switch tracked, with one action fewer
/// still to run.
pub(crate) proof fn lemma_switch_step(s2: Runtime, s3: Runtime, rest: Seq<Action>, o: usize, j: usize, s: usize)
    requires
        s2.wf(),
        s3.step_ok(s2),
        rest.len() > 0,
        switch_track(s2.queue@, rest, s2.events@, o, j, s),
        o < s2.events@.len(),
        s2.events@[o as int].kind is External,
        j < s2.events@.len(),
        s < s2.events@.len(),
        s2.events@[s as int].kind == (EventKind::SwitchHold { outer: o }),
        s2.managers@[s2.events@[o as int].first_manager + 0].spec_subscribers().contains(Callback::SwitchOuter { event: s }),
        rest[0] matches Action::Trigger { event, value } ==> (s2.events@[event as int].kind is External ==> forall|sw: usize, k: usize|
            s2.managers@[s2.events@[event as int].first_manager + 0].spec_subscribers().contains(
                Callback::SwitchOuter { event: sw },
            ) && value == AnyValue::Event(k) && k < s2.events@.len() ==> #[trigger] action_pending(
                s3.queue@,
                Action::Switch { event: sw, inner: k },
            )),
        rest[0] matches Action::Switch { event, inner } ==> (s2.events@[event as int].kind is SwitchHold
            ==> s3.events@[event as int].inner == Some(inner)),
        forall|x: int|
            0 <= x < s2.events@.len() && !(rest[0] matches Action::Switch { event, .. } && event == x)
                ==> #[trigger] s3.events@[x].inner == s2.events@[x].inner,
        forall|sw: usize, k: usize|
            #[trigger] action_pending(s3.queue@, Action::Switch { event: sw, inner: k }) ==> action_pending(
                s2.queue@,
                Action::Switch { event: sw, inner: k },
            ) || match rest[0] {
                Action::Trigger { event, value } => s2.events@[event as int].kind is External && value
                    == AnyValue::Event(k) && s2.managers@[s2.events@[event as int].first_manager
                    + 0].spec_subscribers().contains(Callback::SwitchOuter { event: sw }),
                Action::Main { event, .. } => !(s2.events@[event as int].kind is External) && exists|ix: int|
                    0 <= ix < manager_count(s2.events@[event as int].kind) && #[trigger] s2.managers@[s2.events@[
                    event as int].first_manager + ix].spec_subscribers().contains(Callback::SwitchOuter { event: sw }),
                _ => false,
            },
        s2.action_ok(rest[0]),
    ensures
        switch_track(s3.queue@, rest.drop_first(), s3.events@, o, j, s),
{
    let a = rest[0];
    let r2 = rest.drop_first();
    let q2 = s2.queue@;
    let q3 = s3.queue@;
    let tv = Action::Trigger { event: o, value: AnyValue::Event(j) };
    let sv = Action::Switch { event: s, inner: j };
    assert(rest.contains(a));
    assert forall|x: Action| r2.contains(x) implies rest.contains(x) by {
        let k = choose|k: int| 0 <= k < r2.len() && r2[k] == x;
        assert(rest[k + 1] == x);
    }
    assert forall|w: AnyValue|
        action_pending(q3, Action::Trigger { event: o, value: w }) || r2.contains(Action::Trigger { event: o, value: w })
            implies w == AnyValue::Event(j) by {
        let x = Action::Trigger { event: o, value: w };
        if action_pending(q3, x) {
            assert(action_pending(q2, x));
        }
    }
    assert forall|k: usize|
        action_pending(q3, Action::Switch { event: s, inner: k }) || r2.contains(Action::Switch { event: s, inner: k })
            implies k == j by {
        let x = Action::Switch { event: s, inner: k };
        if action_pending(q3, x) && !action_pending(q2, x) {
            match a {
                Action::Trigger { event, value } => {
                    let m = s2.events@[event as int].first_manager + 0;
                    assert(s2.event_ok(event as int));
                    assert(s2.managers@[m].spec_owner() == event);
                    assert(s2.managers@[m].spec_subscribers().contains(Callback::SwitchOuter { event: s }));
                    assert(rest.contains(Action::Trigger { event: o, value }));
                },
                Action::Main { event, .. } => {
                    let ix = choose|ix: int|
                        0 <= ix < manager_count(s2.events@[event as int].kind) && #[trigger] s2.managers@[s2.events@[
                        event as int].first_manager + ix].spec_subscribers().contains(Callback::SwitchOuter { event: s });
                    assert(s2.event_ok(event as int));
                    assert(s2.managers@[s2.events@[event as int].first_manager + ix].spec_owner() == event);
                },
                _ => {},
            }
        }
    }
    if action_pending(q2, tv) {
        assert(action_pending(q3, tv));
    } else if action_pending(q2, sv) {
        assert(action_pending(q3, sv));
    } else if r2.contains(tv) || r2.contains(sv) {
    } else if a == tv {
        assert(action_pending(q3, sv));
    } else if a == sv {
        assert(s3.events@[s as int].inner == Some(j));
    } else {
        if rest.contains(tv) {
            let k = choose|k: int| 0 <= k < rest.len() && rest[k] == tv;
            assert(k != 0);
            assert(r2[k - 1] == tv);
        }
        if rest.contains(sv) {
            let k = choose|k: int| 0 <= k < rest.len() && rest[k] == sv;
            assert(k != 0);
            assert(r2[k - 1] == sv);
        }
        assert(s2.events@[s as int].inner == Some(j));
        match a {
            Action::Switch { event, inner } => {
                if event == s {
                    assert(rest.contains(Action::Switch { event: s, inner }));
                } else {
                    assert(s3.events@[s as int].inner == s2.events@[s as int].inner);
                }
            },
            _ => {
                assert(s3.events@[s as int].inner == s2.events@[s as int].inner);
            },
        }
    }
}

/// While no firing of external event `e` and no update of behavior `b`
/// waits in queue `q` or in `rest`, `b` keeps the value `v0`.
pub(crate) open spec fn still_track(
    q: Seq<Round>,
    rest: Seq<Action>,
    behaviors: Seq<BehaviorNode>,
    e: usize,
    b: usize,
    v0: AnyValue,
) -> bool {
    &&& forall|w: AnyValue|
        #![trigger action_pending(q, Action::Trigger { event: e, value: w })]
        #![trigger rest.contains(Action::Trigger { event: e, value: w })]
        !action_pending(q, Action::Trigger { event: e, value: w }) && !rest.contains(
            Action::Trigger { event: e, value: w },
        )
    &&& forall|w: AnyValue|
        #![trigger action_pending(q, Action::Hold { behavior: b, value: w })]
        #![trigger rest.contains(Action::Hold { behavior: b, value: w })]
        !action_pending(q, Action::Hold { behavior: b, value: w }) && !rest.contains(
            Action::Hold { behavior: b, value: w },
        )
    &&& behaviors[b as int].value == v0
}

/// Before a propagation set up as [`Runtime::hold_still`] says, the held
/// behavior is tracked.
pub(crate) proof fn lemma_still_init(s: Runtime, e: usize, b: usize)
    requires
        s.wf(),
        s.hold_still(e, b),
    ensures
        still_track(s.queue@, Seq::empty(), s.behaviors@, e, b, s.behaviors@[b as int].value),
{
    let q = s.queue@;
    assert forall|w: AnyValue| !action_pending(q, Action::Trigger { event: e, value: w }) by {
        let x = Action::Trigger { event: e, value: w };
        if action_pending(q, x) {
            let (i, k) = choose|i: int, k: int| 0 <= i < q.len() && 0 <= k < q[i].actions@.len() && #[trigger] q[i].actions@[k] == x;
            assert(q[i].height == 0);
            lemma_actions_at(q, i);
            assert(s.pending_at(0)[k] == x);
        }
    }
    assert forall|w: AnyValue| !action_pending(q, Action::Hold { behavior: b, value: w }) by {
        let x = Action::Hold { behavior: b, value: w };
        if action_pending(q, x) {
            let (i, k) = choose|i: int, k: int| 0 <= i < q.len() && 0 <= k < q[i].actions@.len() && #[trigger] q[i].actions@[k] == x;
            assert(q[i].actions@[k] is Trigger);
        }
    }
}

/// Taking the next round off the queue keeps the held behavior tracked.
pub(crate) proof fn lemma_still_pop(q: Seq<Round>, bs: Seq<BehaviorNode>, e: usize, b: usize, v0: AnyValue)
    requires
        q.len() > 0,
        still_track(q, Seq::empty(), bs, e, b, v0),
    ensures
        still_track(q.remove(0), q[0].actions@, bs, e, b, v0),
{
    assert forall|w: AnyValue|
        !action_pending(q.remove(0), Action::Trigger { event: e, value: w }) && !q[0].actions@.contains(
            Action::Trigger { event: e, value: w },
        ) by {
        lemma_pending_pop(q, Action::Trigger { event: e, value: w });
    }
    assert forall|w: AnyValue|
        !action_pending(q.remove(0), Action::Hold { behavior: b, value: w }) && !q[0].actions@.contains(
            Action::Hold { behavior: b, value: w },
        ) by {
        lemma_pending_pop(q, Action::Hold { behavior: b, value: w });
    }
}

/// Running the next action keeps the held behavior tracked.
pub(crate) proof fn lemma_still_step(s2: Runtime, s3: Runtime, rest: Seq<Action>, e: usize, b: usize, v0: AnyValue)
    requires
        s2.wf(),
        s3.step_ok(s2),
        rest.len() > 0,
        still_track(s2.queue@, rest, s2.behaviors@, e, b, v0),
        e < s2.events@.len(),
        s2.events@[e as int].kind is External,
        b < s2.behaviors@.len(),
        s2.behaviors@[b as int].kind == (BehaviorKind::Hold { event: e }),
        !(rest[0] is Hold) ==> s3.behaviors@ == s2.behaviors@,
        rest[0] matches Action::Hold { behavior, .. } ==> forall|x: int|
            0 <= x < s2.behaviors@.len() && x != behavior ==> #[trigger] s3.behaviors@[x] == s2.behaviors@[x],
        forall|bb: usize, w: AnyValue|
            #[trigger] action_pending(s3.queue@, Action::Hold { behavior: bb, value: w }) ==> action_pending(
                s2.queue@,
                Action::Hold { behavior: bb, value: w },
            ) || match rest[0] {
                Action::Trigger { event, value } => s2.events@[event as int].kind is External && w == value
                    && s2.managers@[s2.events@[event as int].first_manager + 0].spec_subscribers().contains(
                    Callback::Hold { behavior: bb },
                ),
                Action::Main { event, .. } => !(s2.events@[event as int].kind is External) && exists|ix: int|
                    0 <= ix < manager_count(s2.events@[event as int].kind) && #[trigger] s2.managers@[s2.events@[
                    event as int].first_manager + ix].spec_subscribers().contains(Callback::Hold { behavior: bb }),
                _ => false,
            },
        s2.action_ok(rest[0]),
    ensures
        still_track(s3.queue@, rest.drop_first(), s3.behaviors@, e, b, v0),
{
    let a = rest[0];
    let r2 = rest.drop_first();
    assert(rest.contains(a));
    assert forall|x: Action| r2.contains(x) implies rest.contains(x) by {
        let k = choose|k: int| 0 <= k < r2.len() && r2[k] == x;
        assert(rest[k + 1] == x);
    }
    assert forall|w: AnyValue|
        !action_pending(s3.queue@, Action::Trigger { event: e, value: w }) && !r2.contains(
            Action::Trigger { event: e, value: w },
        ) by {
        if action_pending(s3.queue@, Action::Trigger { event: e, value: w }) {
            assert(action_pending(s2.queue@, Action::Trigger { event: e, value: w }));
        }
        if r2.contains(Action::Trigger { event: e, value: w }) {
            assert(rest.contains(Action::Trigger { event: e, value: w }));
        }
    }
    assert forall|w: AnyValue|
        !action_pending(s3.queue@, Action::Hold { behavior: b, value: w }) && !r2.contains(
            Action::Hold { behavior: b, value: w },
        ) by {
        let x = Action::Hold { behavior: b, value: w };
        if r2.contains(x) {
            assert(rest.contains(x));
        }
        if action_pending(s3.queue@, x) {
            match a {
                Action::Trigger { event, value } => {
                    let m = s2.events@[event as int].first_manager + 0;
                    assert(s2.event_ok(event as int));
                    assert(s2.managers@[m].spec_owner() == event);
                    assert(s2.managers@[m].spec_subscribers().contains(Callback::Hold { behavior: b }));
                    assert(rest.contains(Action::Trigger { event: e, value }));
                },
                Action::Main { event, .. } => {
                    let ix = choose|ix: int|
                        0 <= ix < manager_count(s2.events@[event as int].kind) && #[trigger] s2.managers@[s2.events@[
                        event as int].first_manager + ix].spec_subscribers().contains(Callback::Hold { behavior: b });
                    assert(s2.event_ok(event as int));
                    assert(s2.managers@[s2.events@[event as int].first_manager + ix].spec_owner() == event);
                },
                _ => {},
            }
        }
    }
    match a {
        Action::Hold { behavior, value } => {
            if behavior == b {
                assert(rest.contains(Action::Hold { behavior: b, value }));
            } else {
                assert(s3.behaviors@[b as int] == s2.behaviors@[b as int]);
            }
        },
        _ => {},
    }
}

/// The subscription through which event `fe` hears event `e`:
/// its input number and its token.
pub(crate) open spec fn derived_sub(s0: Runtime, e: usize, fe: usize) -> (usize, usize) {
    choose|t: usize, tok: usize|
        #[trigger] s0.managers@[s0.events@[e as int].first_manager as int].spec_subscribers().contains(
            Callback::Main { event: fe, tag: t, token: tok },
        ) && s0.live.alive(Callback::Main { event: fe, tag: t, token: tok })
}

/// While the firing of external event `e` with `v`, or the main action of
/// event `fe` that it causes, waits in the queue of `s` or in `rest`: the
/// firing waits only before the first round, that round holds firings
/// alone, and no subscription has died since `s0`; once neither waits,
/// listener `l` of `fe` has heard what `fe` makes of `v`. A tagging `fe`
/// reads the behaviors of `s0`, which stay as they are below the last
/// height.
pub(crate) open spec fn derived_track<D: Fn(usize, &Vec<AnyValue>) -> Option<AnyValue>>(
    d: D,
    s0: Runtime,
    s: Runtime,
    rest: Seq<Action>,
    e: usize,
    v: AnyValue,
    fe: usize,
    l: int,
    t: usize,
) -> bool {
    let tv = Action::Trigger { event: e, value: v };
    let mv = Action::Main { event: fe, value: v, tag: t };
    &&& action_pending(s.queue@, tv) ==> s.height is None
    &&& rest.contains(tv) ==> forall|k: int| 0 <= k < rest.len() ==> #[trigger] rest[k] is Trigger
    &&& action_pending(s.queue@, tv) || rest.contains(tv) ==> s.live.tokens@ == s0.live.tokens@
    &&& s0.events@[fe as int].kind is Tag && s.height != Some(usize::MAX) ==> s.behaviors@ == s0.behaviors@
    &&& action_pending(s.queue@, tv) || rest.contains(tv) || action_pending(s.queue@, mv) || rest.contains(mv)
        || (fired_value(d, s0, s0.events@[fe as int].kind, v) matches Some(w) ==> heard_after(
        s.logs@,
        s0.logs@,
        l,
        w,
    ))
}

/// Before a propagation set up as [`Runtime::derived_setup`] says, the firing
/// and what it causes are tracked.
pub(crate) proof fn lemma_derived_init<D: Fn(usize, &Vec<AnyValue>) -> Option<AnyValue>>(
    d: D,
    s0: Runtime,
    e: usize,
    v: AnyValue,
    fe: usize,
    l: int,
)
    requires
        s0.wf(),
        s0.height is None,
        s0.derived_setup(e, v, fe, l),
    ensures
        derived_track(d, s0, s0, Seq::empty(), e, v, fe, l, derived_sub(s0, e, fe).0),
{
    lemma_at_height_pending(s0.queue@, 0, Action::Trigger { event: e, value: v });
}

/// Taking the next round off the queue keeps the firing tracked, with the
/// round's actions as those still to run.
pub(crate) proof fn lemma_derived_pop<D: Fn(usize, &Vec<AnyValue>) -> Option<AnyValue>>(
    d: D,
    s0: Runtime,
    s1: Runtime,
    s: Runtime,
    e: usize,
    v: AnyValue,
    fe: usize,
    l: int,
    t: usize,
)
    requires
        s1.queue@.len() > 0,
        queue_sorted(s1.queue@),
        s1.height is None ==> s1 == s0,
        s0.idle_queue(),
        s.queue@ == s1.queue@.remove(0),
        s.height == Some(s1.queue@[0].height),
        s1.height is Some ==> s1.queue@[0].height > s1.height->0,
        s.live == s1.live,
        s.logs@ == s1.logs@,
        s.behaviors@ == s1.behaviors@,
        derived_track(d, s0, s1, Seq::empty(), e, v, fe, l, t),
    ensures
        derived_track(d, s0, s, s1.queue@[0].actions@, e, v, fe, l, t),
{
    let q = s1.queue@;
    let tv = Action::Trigger { event: e, value: v };
    let mv = Action::Main { event: fe, value: v, tag: t };
    lemma_pending_pop(q, tv);
    lemma_pending_pop(q, mv);
    if action_pending(q, tv) {
        assert(s1 == s0);
        if action_pending(s.queue@, tv) {
            let (i, k) = choose|i: int, k: int|
                0 <= i < s.queue@.len() && 0 <= k < s.queue@[i].actions@.len() && #[trigger] s.queue@[i].actions@[k] == tv;
            assert(q[i + 1] == s.queue@[i]);
            assert(q[i + 1].actions@[k] == tv);
            assert(q[0].height < q[i + 1].height);
        }
        assert forall|k: int| 0 <= k < q[0].actions@.len() implies #[trigger] q[0].actions@[k] is Trigger by {
            assert(q[0].actions@[k] is Trigger);
        }
    }
}

/// Running the next action keeps the firing tracked, with one action fewer
/// still to run.
pub(crate) proof fn lemma_derived_step<D: Fn(usize, &Vec<AnyValue>) -> Option<AnyValue>>(
    d: D,
    s0: Runtime,
    s2: Runtime,
    s3: Runtime,
    rest: Seq<Action>,
    e: usize,
    v: AnyValue,
    fe: usize,
    l: int,
)
    requires
        s0.wf(),
        s0.derived_setup(e, v, fe, l),
        s2.wf(),
        s2.height is Some,
        s2.same_graph(s0),
        s2.subs_kept_live(s0),
        logs_extend(s2.logs@, s0.logs@),
        s3.step_ok(s2),
        rest.len() > 0,
        derived_track(d, s0, s2, rest, e, v, fe, l, derived_sub(s0, e, fe).0),
        rest[0] is Trigger ==> s3.live.tokens@ == s2.live.tokens@,
        s0.events@[fe as int].kind is Tag && s2.height == Some(usize::MAX) ==> forall|k: int|
            0 <= k < rest.len() ==> !(#[trigger] rest[k] is Trigger) && !(rest[k] is Main),
        s0.events@[fe as int].kind is Tag && s2.height != Some(usize::MAX) ==> !(rest[0] is Hold),
        !(rest[0] is Hold) ==> s3.behaviors@ == s2.behaviors@,
        rest[0] matches Action::Trigger { event, value } ==> (s2.events@[event as int].kind is External
            ==> forall|z: usize, tt: usize, tok: usize|
            #[trigger] s2.managers@[s2.events@[event as int].first_manager + 0].spec_subscribers().contains(
                Callback::Main { event: z, tag: tt, token: tok },
            ) && s2.live.alive(Callback::Main { event: z, tag: tt, token: tok }) ==> action_pending(
                s3.queue@,
                Action::Main { event: z, value, tag: tt },
            )),
        rest[0] matches Action::Main { event, value, .. } ==> (maps_one_input(s2.events@[event as int].kind)
            ==> forall|ll: usize|
            #[trigger] s2.managers@[s2.events@[event as int].first_manager + 0].spec_subscribers().contains(
                Callback::Log { log: ll },
            ) && s2.live.logs@[ll as int] ==> (fired_value(d, s2, s2.events@[event as int].kind, value) matches Some(w)
                ==> heard_after(s3.logs@, s2.logs@, ll as int, w))),
    ensures
        derived_track(d, s0, s3, rest.drop_first(), e, v, fe, l, derived_sub(s0, e, fe).0),
{
    let (t, tok) = derived_sub(s0, e, fe);
    let cb = Callback::Main { event: fe, tag: t, token: tok };
    let a = rest[0];
    let r2 = rest.drop_first();
    let q2 = s2.queue@;
    let q3 = s3.queue@;
    let tv = Action::Trigger { event: e, value: v };
    let mv = Action::Main { event: fe, value: v, tag: t };
    let me = s0.events@[e as int].first_manager as int;
    let mf = s0.events@[fe as int].first_manager as int;
    assert(s0.event_ok(e as int));
    assert(s0.event_ok(fe as int));
    assert(rest.contains(a));
    assert forall|x: Action| r2.contains(x) implies rest.contains(x) by {
        let k = choose|k: int| 0 <= k < r2.len() && r2[k] == x;
        assert(rest[k + 1] == x);
    }
    assert(!action_pending(q2, tv));
    assert(!action_pending(q3, tv));
    if r2.contains(tv) {
        assert forall|k: int| 0 <= k < r2.len() implies #[trigger] r2[k] is Trigger by {
            assert(rest[k + 1] is Trigger);
        }
        assert(rest[0] is Trigger);
    }
    if action_pending(q2, mv) {
        assert(action_pending(q3, mv));
    } else if r2.contains(tv) || r2.contains(mv) {
    } else if a == tv {
        assert(exists|t2: usize, tok2: usize|
            #[trigger] s0.managers@[me].spec_subscribers().contains(Callback::Main { event: fe, tag: t2, token: tok2 })
                && s0.live.alive(Callback::Main { event: fe, tag: t2, token: tok2 }));
        assert(s0.managers@[me].spec_subscribers().contains(cb) && s0.live.alive(cb));
        assert(s2.live.tokens@ == s0.live.tokens@);
        assert(s2.live.alive(cb));
        assert(s2.managers@[me].spec_subscribers().contains(cb));
        assert(s2.events@[e as int].kind == s0.events@[e as int].kind);
        assert(s2.events@[e as int].first_manager == s0.events@[e as int].first_manager);
        assert(s2.managers@[s2.events@[e as int].first_manager + 0].spec_subscribers().contains(cb));
        assert(action_pending(q3, mv));
    } else if a == mv {
        let cl = Callback::Log { log: l as usize };
        assert(0 <= l < s0.logs@.len());
        assert(s0.logs.len() == s0.logs@.len());
        assert((l as usize) as int == l);
        assert(s0.live.logs@[l]);
        assert(s0.managers@[mf].spec_subscribers().contains(cl));
        assert(s0.live.alive(cl));
        assert(s2.live.alive(cl));
        assert(s2.managers@[mf].spec_subscribers().contains(cl));
        assert(s2.events@[fe as int].kind == s0.events@[fe as int].kind);
        assert(s2.events@[fe as int].first_manager == s0.events@[fe as int].first_manager);
        assert(s2.managers@[s2.events@[fe as int].first_manager + 0].spec_subscribers().contains(
            Callback::Log { log: l as usize },
        ));
        if s0.events@[fe as int].kind is Tag {
            assert(s2.height != Some(usize::MAX));
            assert(s2.behaviors@ == s0.behaviors@);
        }
        if let Some(w) = fired_value(d, s0, s0.events@[fe as int].kind, v) {
            assert(fired_value(d, s2, s2.events@[fe as int].kind, v) == Some(w));
            assert(s2.live.logs@[(l as usize) as int]);
            assert(heard_after(s3.logs@, s2.logs@, (l as usize) as int, w));
            lemma_heard_after_earlier(s0.logs@, s2.logs@, s3.logs@, l, w);
        }
    } else {
        if rest.contains(tv) {
            let k = choose|k: int| 0 <= k < rest.len() && rest[k] == tv;
            assert(k != 0);
            assert(r2[k - 1] == tv);
        }
        if rest.contains(mv) {
            let k = choose|k: int| 0 <= k < rest.len() && rest[k] == mv;
            assert(k != 0);
            assert(r2[k - 1] == mv);
        }
        if let Some(w) = fired_value(d, s0, s0.events@[fe as int].kind, v) {
            lemma_heard_after_extend(s0.logs@, s2.logs@, s3.logs@, l, w);
        }
    }
}

/// Growing is transitive.
pub proof fn lemma_logs_extend_trans(a: Seq<Vec<AnyValue>>, b: Seq<Vec<AnyValue>>, c: Seq<Vec<AnyValue>>)
    requires
        logs_extend(b, a),
        logs_extend(c, b),
    ensures
        logs_extend(c, a),
{
    assert forall|l: int| 0 <= l < a.len() implies a[l]@.len() <= (#[trigger] c[l])@.len()
        && c[l]@.subrange(0, a[l]@.len() as int) == a[l]@ by {
        assert(c[l]@.subrange(0, b[l]@.len() as int) == b[l]@);
        assert(c[l]@.subrange(0, a[l]@.len() as int) =~= c[l]@.subrange(
            0,
            b[l]@.len() as int,
        ).subrange(0, a[l]@.len() as int));
    }
}

/// Nothing changed is growing.
pub proof fn lemma_logs_extend_refl(a: Seq<Vec<AnyValue>>)
    ensures
        logs_extend(a, a),
{
    assert forall|l: int| 0 <= l < a.len() implies a[l]@.len() <= (#[trigger] a[l])@.len()
        && a[l]@.subrange(0, a[l]@.len() as int) == a[l]@ by {
        assert(a[l]@.subrange(0, a[l]@.len() as int) =~= a[l]@);
    }
}

/// Adding an action to the round of its height adds it at that height only.
pub proof fn lemma_queue_push(q0: Seq<Round>, q1: Seq<Round>, i: int, h: usize, a: Action)
    requires
        queue_sorted(q0),
        0 <= i < q0.len(),
        q0[i].height == h,
        q1.len() == q0.len(),
        forall|j: int| 0 <= j < q0.len() && j != i ==> q1[j] == q0[j],
        q1[i].height == h,
        q1[i].actions@ == q0[i].actions@.push(a),
    ensures
        queue_sorted(q1),
        forall|j: int| 0 <= j < q1.len() ==> q1[j].height == q0[j].height,
        actions_at(q1, h) == actions_at(q0, h).push(a),
        forall|h2: usize| h2 != h ==> actions_at(q1, h2) == actions_at(q0, h2),
{
    assert forall|x: int, y: int| 0 <= x < y < q1.len() implies q1[x].height < q1[y].height by {
        assert(q0[x].height < q0[y].height);
    }
    lemma_actions_at(q0, i);
    lemma_actions_at(q1, i);
    assert forall|h2: usize| h2 != h implies actions_at(q1, h2) == actions_at(q0, h2) by {
        if exists|j: int| 0 <= j < q0.len() && q0[j].height == h2 {
            let j = choose|j: int| 0 <= j < q0.len() && q0[j].height == h2;
            lemma_actions_at(q0, j);
            lemma_actions_at(q1, j);
        } else {
            assert(!exists|j: int| 0 <= j < q1.len() && q1[j].height == h2) by {
                if exists|j: int| 0 <= j < q1.len() && q1[j].height == h2 {
                    let j = choose|j: int| 0 <= j < q1.len() && q1[j].height == h2;
                    assert(q0[j].height == h2);
                }
            }
        }
    }
}

/// Inserting a new round at its place in the order adds its action at its
/// height only.
pub proof fn lemma_queue_insert(q0: Seq<Round>, q1: Seq<Round>, i: int, h: usize, a: Action)
    requires
        queue_sorted(q0),
        0 <= i <= q0.len(),
        forall|k: int| 0 <= k < i ==> (#[trigger] q0[k]).height < h,
        i < q0.len() ==> q0[i].height > h,
        q1.len() == q0.len() + 1,
        forall|j: int| 0 <= j < i ==> q1[j] == q0[j],
        forall|j: int| i < j < q1.len() ==> q1[j] == q0[j - 1],
        q1[i].height == h,
        q1[i].actions@ == seq![a],
    ensures
        queue_sorted(q1),
        actions_at(q1, h) == actions_at(q0, h).push(a),
        forall|h2: usize| h2 != h ==> actions_at(q1, h2) == actions_at(q0, h2),
{
    assert forall|x: int, y: int| 0 <= x < y < q1.len() implies q1[x].height < q1[y].height by {
        if y < i {
            assert(q0[x].height < q0[y].height);
        } else if y == i {
        } else if x < i {
            if y - 1 > i {
                assert(q0[i].height < q0[y - 1].height);
            }
        } else if x == i {
            if y - 1 > i {
                assert(q0[i].height < q0[y - 1].height);
            }
        } else {
            assert(q0[x - 1].height < q0[y - 1].height);
        }
    }
    lemma_actions_at(q1, i);
    assert(!exists|j: int| 0 <= j < q0.len() && q0[j].height == h) by {
        if exists|j: int| 0 <= j < q0.len() && q0[j].height == h {
            let j = choose|j: int| 0 <= j < q0.len() && q0[j].height == h;
            if j > i {
                assert(q0[i].height < q0[j].height);
            }
        }
    }
    assert(actions_at(q1, h) =~= actions_at(q0, h).push(a));
    assert forall|h2: usize| h2 != h implies actions_at(q1, h2) == actions_at(q0, h2) by {
        if exists|j: int| 0 <= j < q0.len() && q0[j].height == h2 {
            let j = choose|j: int| 0 <= j < q0.len() && q0[j].height == h2;
            lemma_actions_at(q0, j);
            if j < i {
                lemma_actions_at(q1, j);
            } else {
                assert(q1[j + 1] == q0[j]);
                lemma_actions_at(q1, j + 1);
            }
        } else {
            assert(!exists|j: int| 0 <= j < q1.len() && q1[j].height == h2) by {
                if exists|j: int| 0 <= j < q1.len() && q1[j].height == h2 {
                    let j = choose|j: int| 0 <= j < q1.len() && q1[j].height == h2;
                    if j < i {
                        assert(q0[j].height == h2);
                    } else if j > i {
                        assert(q0[j - 1].height == h2);
                    }
                }
            }
        }
    }
}

/// Facts about growing logs and same graphs that compose.
pub(crate) proof fn lemma_step_trans(a: Runtime, b: Runtime, c: Runtime)
    requires
        b.step_ok(a),
        c.step_ok(b),
    ensures
        c.step_ok(a),
{
    crate::runtime::lemma_same_graph_trans(a, b, c);
    lemma_logs_extend_trans(a.logs@, b.logs@, c.logs@);
    assert forall|l: int| 0 <= l < a.logs@.len() && !a.live.logs@[l] implies #[trigger] c.logs@[l]
        == a.logs@[l] by {
        assert(b.live.logs@ == a.live.logs@);
        assert(b.logs@[l] == a.logs@[l]);
    }
    assert forall|e: int| 0 <= e < c.events@.len() && (#[trigger] c.events@[e]).scheduled implies a.events@[e].scheduled by {
        assert(b.events@[e].scheduled);
    }
    assert forall|e: int| trigger_pending(a.queue@, e) implies #[trigger] trigger_pending(c.queue@, e) by {
        assert(trigger_pending(b.queue@, e));
    }
    assert forall|t: int| 0 <= t < a.live.tokens@.len() && #[trigger] c.live.tokens@[t] implies a.live.tokens@[t] by {
        assert(b.live.tokens@[t]);
    }
    assert forall|m: int, x: Callback|
        0 <= m < a.managers@.len() && #[trigger] a.managers@[m].spec_subscribers().contains(x) && a.live.alive(x)
            && c.live.alive(x) implies c.managers@[m].spec_subscribers().contains(x) by {
        if let Callback::Main { token, .. } = x {
            assert(c.live.tokens@[token as int]);
            assert(b.live.tokens@[token as int]);
        }
        assert(b.live.alive(x));
        assert(b.managers@[m].spec_subscribers().contains(x));
    }
    assert forall|x: Action| action_pending(a.queue@, x) implies #[trigger] action_pending(c.queue@, x) by {
        assert(action_pending(b.queue@, x));
    }
    assert forall|x: Action| #[trigger] action_pending(c.queue@, x) && x is Trigger implies action_pending(a.queue@, x) by {
        assert(action_pending(b.queue@, x));
    }
}

/// Dying tokens and kept live subscribers compose.
pub(crate) proof fn lemma_live_trans(a: Runtime, b: Runtime, c: Runtime)
    requires
        b.tokens_mono(a),
        b.subs_kept_live(a),
        c.tokens_mono(b),
        c.subs_kept_live(b),
        b.live.logs@ == a.live.logs@,
        b.managers@.len() == a.managers@.len(),
    ensures
        c.tokens_mono(a),
        c.subs_kept_live(a),
{
    assert forall|t: int| 0 <= t < a.live.tokens@.len() && #[trigger] c.live.tokens@[t] implies a.live.tokens@[t] by {
        assert(b.live.tokens@[t]);
    }
    assert forall|m: int, x: Callback|
        0 <= m < a.managers@.len() && #[trigger] a.managers@[m].spec_subscribers().contains(x) && a.live.alive(x)
            && c.live.alive(x) implies c.managers@[m].spec_subscribers().contains(x) by {
        if let Callback::Main { token, .. } = x {
            assert(c.live.tokens@[token as int]);
            assert(b.live.tokens@[token as int]);
        }
        assert(b.live.alive(x));
        assert(b.managers@[m].spec_subscribers().contains(x));
    }
}

/// Heights and inputs of events read only their kinds and inner events.
pub(crate) proof fn lemma_events_kept_heights(a: Runtime, b: Runtime)
    requires
        b.events_kept(a),
    ensures
        forall|e: int| #[trigger] b.height_of(e) == a.height_of(e),
        forall|e: int, ix: int| 0 <= e < a.events@.len() ==> #[trigger] b.spec_upstream(e, ix) == a.spec_upstream(e, ix),
{
    assert forall|e: int| #[trigger] b.height_of(e) == a.height_of(e) by {
        crate::runtime::lemma_height_frame(b.events@, a.events@, e, b.events@.len());
    }
    assert forall|e: int, ix: int| 0 <= e < a.events@.len() implies #[trigger] b.spec_upstream(e, ix) == a.spec_upstream(e, ix) by {
        assert(b.events@[e].kind == a.events@[e].kind);
    }
}

/// Nothing changed is a calm step.
pub(crate) proof fn lemma_calm_refl(a: Runtime)
    ensures
        a.calm(a),
{
}

/// Calm steps compose.
pub(crate) proof fn lemma_calm_trans(a: Runtime, b: Runtime, c: Runtime)
    requires
        b.step_ok(a),
        c.step_ok(b),
        b.calm(a),
        c.calm(b),
    ensures
        c.calm(a),
{
    lemma_events_kept_heights(b, c);
    assert forall|m: int, x: Callback|
        0 <= m < c.managers@.len() && #[trigger] c.managers@[m].spec_subscribers().contains(x) && x is Main
            && c.live.alive(x) implies (m < a.managers@.len() && a.managers@[m].spec_subscribers().contains(x)
            && a.live.alive(x)) || c.main_sound(m, x) by {
        if m < b.managers@.len() && b.managers@[m].spec_subscribers().contains(x) && b.live.alive(x) {
            if !(m < a.managers@.len() && a.managers@[m].spec_subscribers().contains(x) && a.live.alive(x)) {
                assert(b.main_sound(m, x));
                assert(c.managers@[m].spec_owner() == b.managers@[m].spec_owner());
                if let Callback::Main { event, tag, .. } = x {
                    assert(c.events@[event as int].kind == b.events@[event as int].kind);
                }
            }
        }
    }
}

/// A callback that could be delivered to without a refused schedule still
/// can be after a calm step.
pub(crate) proof fn lemma_fires_kept(a: Runtime, b: Runtime, x: Callback)
    requires
        b.events_kept(a),
        b.height == a.height,
        a.fires_ok(x),
    ensures
        b.fires_ok(x),
{
    lemma_events_kept_heights(a, b);
}

/// A list whose live callbacks could be delivered to still can be, when
/// neither it nor the liveness table changed and the step was calm.
pub(crate) proof fn lemma_list_fires_kept(a: Runtime, b: Runtime, m: int)
    requires
        b.events_kept(a),
        b.height == a.height,
        b.managers@[m].spec_subscribers() == a.managers@[m].spec_subscribers(),
        b.live == a.live,
        a.list_fires_ok(m),
    ensures
        b.list_fires_ok(m),
{
    lemma_events_kept_heights(a, b);
    assert forall|c: Callback|
        #[trigger] b.managers@[m].spec_subscribers().contains(c) && b.live.alive(c) implies b.fires_ok(c) by {
        assert(a.fires_ok(c));
    }
}

/// Adding `x` at height `h`, where it belongs, keeps every waiting action
/// where it belongs.
pub(crate) proof fn lemma_q_push(a: Runtime, b: Runtime, h: usize, x: Action)
    requires
        a.q_consistent(),
        b.events_kept(a),
        actions_at(b.queue@, h) == actions_at(a.queue@, h).push(x),
        forall|h2: usize| h2 != h ==> actions_at(b.queue@, h2) == actions_at(a.queue@, h2),
        a.action_height_ok(h, x),
    ensures
        b.q_consistent(),
{
    lemma_events_kept_heights(a, b);
    assert forall|h2: usize, y: Action| #[trigger] actions_at(b.queue@, h2).contains(y) implies b.action_height_ok(h2, y) by {
        if h2 == h {
            let s = actions_at(a.queue@, h);
            let k = choose|k: int| 0 <= k < s.push(x).len() && s.push(x)[k] == y;
            if k < s.len() {
                assert(s[k] == y);
                assert(s.contains(y));
            }
        }
        match y {
            Action::Main { event, .. } => assert(b.height_of(event as int) == a.height_of(event as int)),
            _ => {},
        }
    }
}

/// Scheduling `x` where it belongs is a calm step, whether or not the
/// schedule was refused.
pub(crate) proof fn lemma_schedule_calm(a: Runtime, b: Runtime, h: usize, x: Action, ok: bool)
    requires
        b.events@ == a.events@,
        b.managers@ == a.managers@,
        b.live == a.live,
        !ok ==> b.queue@ == a.queue@,
        ok ==> actions_at(b.queue@, h) == actions_at(a.queue@, h).push(x),
        ok ==> forall|h2: usize| h2 != h ==> actions_at(b.queue@, h2) == actions_at(a.queue@, h2),
        a.action_height_ok(h, x),
    ensures
        b.calm(a),
{
    if a.q_consistent() {
        if ok {
            lemma_q_push(a, b, h, x);
        } else {
            lemma_q_same(a, b);
        }
    }
}

/// Changing only the per-occurrence state of events is a calm step.
pub(crate) proof fn lemma_calm_frame(a: Runtime, b: Runtime)
    requires
        b.events_kept(a),
        b.managers@ == a.managers@,
        b.live == a.live,
        b.queue@ == a.queue@,
    ensures
        b.calm(a),
{
    if a.q_consistent() {
        lemma_q_same(a, b);
    }
}

/// A calm step keeps events above what they listen to.
pub(crate) proof fn lemma_heights_kept(a: Runtime, b: Runtime)
    requires
        a.spec_heights_ok(),
        b.step_ok(a),
        b.calm(a),
    ensures
        b.spec_heights_ok(),
{
    lemma_events_kept_heights(a, b);
    assert forall|e: int, ix: int|
        0 <= e < b.events@.len() && 0 <= ix < manager_count(b.events@[e].kind) && #[trigger] b.spec_upstream(e, ix) is Some
            implies b.height_of(b.spec_upstream(e, ix)->0 as int) < b.height_of(e) by {
        assert(b.events@[e].kind == a.events@[e].kind);
        assert(a.spec_upstream(e, ix) is Some);
    }
    assert forall|m: int, c: Callback|
        0 <= m < b.managers@.len() && #[trigger] b.managers@[m].spec_subscribers().contains(c) && b.live.alive(c) implies match c {
            Callback::Main { event, .. } => b.height_of(b.managers@[m].spec_owner() as int) < b.height_of(event as int),
            _ => true,
        } by {
        if let Callback::Main { event, tag, .. } = c {
            assert(b.managers@[m].spec_owner() == a.managers@[m].spec_owner());
            if m < a.managers@.len() && a.managers@[m].spec_subscribers().contains(c) && a.live.alive(c) {
            } else {
                assert(b.main_sound(m, c));
                assert(b.events@[event as int].kind == a.events@[event as int].kind);
                assert(a.spec_upstream(event as int, tag as int) is Some);
            }
        }
    }
}

/// Events above what they listen to stay so while the kinds and inner
/// events, the lists and the liveness table stay the same.
pub(crate) proof fn lemma_heights_same(a: Runtime, b: Runtime)
    requires
        a.spec_heights_ok(),
        b.events_kept(a),
        b.managers@ == a.managers@,
        b.live == a.live,
    ensures
        b.spec_heights_ok(),
{
    lemma_events_kept_heights(a, b);
    assert forall|m: int, c: Callback|
        0 <= m < b.managers@.len() && #[trigger] b.managers@[m].spec_subscribers().contains(c) && b.live.alive(c) implies match c {
            Callback::Main { event, .. } => b.height_of(b.managers@[m].spec_owner() as int) < b.height_of(event as int),
            _ => true,
        } by {
        assert(a.managers@[m].spec_subscribers().contains(c));
    }
}

/// Outside a propagation, a queue of firings of external events at height 0
/// has every action where it belongs.
pub(crate) proof fn lemma_idle_consistent(a: Runtime)
    requires
        a.idle_queue(),
        queue_sorted(a.queue@),
    ensures
        a.q_consistent(),
{
    assert forall|h: usize, x: Action| #[trigger] actions_at(a.queue@, h).contains(x) implies a.action_height_ok(h, x) by {
        let i = choose|i: int| 0 <= i < a.queue@.len() && a.queue@[i].height == h;
        let k = choose|k: int| 0 <= k < actions_at(a.queue@, h).len() && actions_at(a.queue@, h)[k] == x;
        assert(a.queue@[i].actions@[k] == x);
    }
}

/// Taking the first round off a sorted queue adds no action at any height.
pub(crate) proof fn lemma_pop_at_height(q: Seq<Round>, h: usize, x: Action)
    requires
        queue_sorted(q),
        q.len() > 0,
        actions_at(q.remove(0), h).contains(x),
    ensures
        actions_at(q, h).contains(x),
{
    let q2 = q.remove(0);
    let i = choose|i: int| 0 <= i < q2.len() && q2[i].height == h;
    let k = choose|k: int| 0 <= k < actions_at(q2, h).len() && actions_at(q2, h)[k] == x;
    assert(q2[i] == q[i + 1]);
    assert(q2[i].actions@[k] == x);
    lemma_actions_at(q, i + 1);
    assert(actions_at(q, h)[k] == x);
}

/// At the height where an action belongs, with every event above what it
/// listens to, running the action schedules only above that height.
pub(crate) proof fn lemma_fires_from_heights(s: Runtime, a: Action)
    requires
        s.wf(),
        s.spec_heights_ok(),
        s.height is Some,
        s.height->0 < usize::MAX,
        s.events@.len() < usize::MAX,
        s.action_height_ok(s.height->0, a),
        s.action_ok(a),
    ensures
        s.action_fires_ok(a),
{
    let h = s.height->0;
    match a {
        Action::Trigger { event, .. } => {
            assert(s.event_ok(event as int));
            assert forall|ix: int|
                0 <= ix < manager_count(s.events@[event as int].kind) implies #[trigger] s.list_fires_ok(
                s.events@[event as int].first_manager + ix,
            ) by {
                let m = s.events@[event as int].first_manager + ix;
                assert(s.managers@[m].spec_owner() == event);
                assert forall|c: Callback| #[trigger] s.managers@[m].spec_subscribers().contains(c) && s.live.alive(c) implies s.fires_ok(c) by {}
            }
        },
        Action::Main { event, .. } => {
            assert(s.event_ok(event as int));
            assert forall|ix: int|
                0 <= ix < manager_count(s.events@[event as int].kind) implies #[trigger] s.list_fires_ok(
                s.events@[event as int].first_manager + ix,
            ) by {
                let m = s.events@[event as int].first_manager + ix;
                assert(s.managers@[m].spec_owner() == event);
                assert forall|c: Callback| #[trigger] s.managers@[m].spec_subscribers().contains(c) && s.live.alive(c) implies s.fires_ok(c) by {}
            }
        },
        _ => {},
    }
}

/// With the same queue and the same kinds and inner events, every waiting
/// action is still where it belongs.
pub(crate) proof fn lemma_q_same(a: Runtime, b: Runtime)
    requires
        a.q_consistent(),
        b.events_kept(a),
        b.queue@ == a.queue@,
    ensures
        b.q_consistent(),
{
    lemma_events_kept_heights(a, b);
    assert forall|h2: usize, y: Action| #[trigger] actions_at(b.queue@, h2).contains(y) implies b.action_height_ok(h2, y) by {
        match y {
            Action::Main { event, .. } => assert(b.height_of(event as int) == a.height_of(event as int)),
            _ => {},
        }
    }
}

/// A well-formed runtime is a step from itself.
pub(crate) proof fn lemma_step_refl(a: Runtime)
    requires
        a.wf(),
    ensures
        a.step_ok(a),
{
    lemma_logs_extend_refl(a.logs@);
    assert forall|e: int| 0 <= e < a.events@.len() implies (#[trigger] a.events@[e]).kind
        == a.events@[e].kind && a.events@[e].first_manager == a.events@[e].first_manager by {}
}

impl Runtime {
    /// A step that leaves heights and inputs alone: the same kinds and inner
    /// events, only sound new subscriptions, and waiting actions still where
    /// they belong.
    pub(crate) open spec fn calm(self, old: Runtime) -> bool {
        &&& self.events_kept(old)
        &&& self.subs_delta_ok(old)
        &&& (old.q_consistent() ==> self.q_consistent())
    }

    /// `self` keeps the kinds and first lists of the events of `old`, and
    /// the tags and owners of its subscriber lists.
    pub(crate) open spec fn shape_kept(self, old: Runtime) -> bool {
        &&& forall|e: int|
            0 <= e < self.events@.len() ==> (#[trigger] self.events@[e]).kind == old.events@[e].kind
                && self.events@[e].first_manager == old.events@[e].first_manager
        &&& forall|m: int|
            0 <= m < self.managers@.len() ==> (#[trigger] self.managers@[m]).spec_tag() == old.managers@[m].spec_tag()
                && self.managers@[m].spec_owner() == old.managers@[m].spec_owner()
    }

    /// The changes every step of propagation keeps to: same nodes, growing
    /// logs, no new dead subscriptions of outside listeners.
    pub(crate) open spec fn step_ok(self, old: Runtime) -> bool {
        &&& self.wf()
        &&& self.same_graph(old)
        &&& logs_extend(self.logs@, old.logs@)
        &&& dead_logs_kept(self.logs@, old.logs@, old.live.logs@)
        &&& self.height == old.height
        &&& forall|e: int|
            0 <= e < self.events@.len() && (#[trigger] self.events@[e]).scheduled ==> old.events@[e].scheduled
        &&& forall|e: int| trigger_pending(old.queue@, e) ==> #[trigger] trigger_pending(self.queue@, e)
        &&& self.tokens_mono(old)
        &&& self.subs_kept_live(old)
        &&& forall|x: Action| action_pending(old.queue@, x) ==> #[trigger] action_pending(self.queue@, x)
        &&& forall|x: Action| #[trigger] action_pending(self.queue@, x) && x is Trigger ==> action_pending(old.queue@, x)
    }

    /// Subscription tokens only die; new ones are added at the end.
    pub(crate) open spec fn tokens_mono(self, old: Runtime) -> bool {
        &&& self.live.tokens@.len() >= old.live.tokens@.len()
        &&& forall|t: int|
            0 <= t < old.live.tokens@.len() && #[trigger] self.live.tokens@[t] ==> old.live.tokens@[t]
    }

    /// A callback subscribed in `old` that is alive there and in `self` is
    /// still subscribed in `self`.
    pub(crate) open spec fn subs_kept_live(self, old: Runtime) -> bool {
        forall|m: int, c: Callback|
            0 <= m < old.managers@.len() && #[trigger] old.managers@[m].spec_subscribers().contains(c)
                && old.live.alive(c) && self.live.alive(c) ==> self.managers@[m].spec_subscribers().contains(c)
    }

    /// The shape of event `e`.
    pub(crate) fn shape(&self, e: usize) -> (s: Shape)
        requires
            e < self.events@.len(),
        ensures
            s == shape_of(self.events@[e as int].kind),
    {
        match &self.events[e].kind {
            EventKind::External => Shape::External,
            EventKind::Never => Shape::Never,
            EventKind::FilterMap { .. } => Shape::FilterMap,
            EventKind::Leftmost { .. } => Shape::Leftmost,
            EventKind::Combine { .. } => Shape::Combine,
            EventKind::Tag { .. } => Shape::Tag,
            EventKind::SwitchHold { .. } => Shape::SwitchHold,
        }
    }

    /// Schedule `a` at height `h`. Refused when `h` is not above the height
    /// being processed.
    pub(crate) fn schedule(&mut self, h: usize, a: Action) -> (r: Result<(), PropagationError>)
        requires
            old(self).wf(),
            old(self).action_ok(a),
        ensures
            final(self).wf(),
            final(self).events@ == old(self).events@,
            final(self).managers@ == old(self).managers@,
            final(self).behaviors@ == old(self).behaviors@,
            final(self).live == old(self).live,
            final(self).logs@ == old(self).logs@,
            final(self).height == old(self).height,
            r is Err <==> (old(self).height is Some && h <= old(self).height->0),
            r is Err ==> final(self).queue@ == old(self).queue@,
            r is Ok ==> actions_at(final(self).queue@, h) == actions_at(old(self).queue@, h).push(
                a,
            ),
            r is Ok ==> forall|h2: usize|
                h2 != h ==> actions_at(final(self).queue@, h2) == actions_at(old(self).queue@, h2),
            forall|e: int| trigger_pending(old(self).queue@, e) ==> #[trigger] trigger_pending(final(self).queue@, e),
            r is Ok ==> (a matches Action::Trigger { event, .. } ==> trigger_pending(final(self).queue@, event as int)),
            forall|x: Action| action_pending(old(self).queue@, x) ==> #[trigger] action_pending(final(self).queue@, x),
            forall|x: Action| #[trigger] action_pending(final(self).queue@, x) ==> action_pending(old(self).queue@, x) || (r is Ok && x == a),
            r is Ok ==> action_pending(final(self).queue@, a),
    {
        match self.height {
            Some(current) => {
                if h <= current {
                    return Err(PropagationError::HeightNotIncreasing { height: h, current });
                }
            },
            None => {},
        }
        let ghost q0 = self.queue@;
        let ghost s0 = *self;
        let mut i: usize = 0;
        while i < self.queue.len() && self.queue[i].height < h
            invariant
                self.queue@ == q0,
                i <= q0.len(),
                forall|k: int| 0 <= k < i ==> (#[trigger] q0[k]).height < h,
            decreases q0.len() - i,
        {
            i = i + 1;
        }
        if i < self.queue.len() && self.queue[i].height == h {
            self.queue[i].actions.push(a);
            proof {
                let q1 = self.queue@;
                lemma_queue_push(q0, q1, i as int, h, a);
                assert forall|e: int| trigger_pending(q0, e) implies #[trigger] trigger_pending(q1, e) by {
                    let (j, k) = choose|j: int, k: int|
                        0 <= j < q0.len() && 0 <= k < q0[j].actions@.len() && (#[trigger] q0[j].actions@[k] matches Action::Trigger {
                            event,
                            ..
                        } && event == e);
                    assert(q1[j].actions@[k] == q0[j].actions@[k]);
                }
                assert(q1[i as int].actions@[q1[i as int].actions@.len() - 1] == a);
                assert forall|x: Action| action_pending(q0, x) implies #[trigger] action_pending(q1, x) by {
                    let (j, k) = choose|j: int, k: int| 0 <= j < q0.len() && 0 <= k < q0[j].actions@.len() && #[trigger] q0[j].actions@[k] == x;
                    assert(q1[j].actions@[k] == q0[j].actions@[k]);
                }
                assert forall|x: Action| #[trigger] action_pending(q1, x) implies action_pending(q0, x) || x == a by {
                    let (j, k) = choose|j: int, k: int| 0 <= j < q1.len() && 0 <= k < q1[j].actions@.len() && #[trigger] q1[j].actions@[k] == x;
                    if j == i && k == q1[j].actions@.len() - 1 {
                    } else {
                        assert(q0[j].actions@[k] == x);
                    }
                }
                assert forall|x: int, k: int|
                    0 <= x < q1.len() && 0 <= k < q1[x].actions@.len() implies self.action_ok(
                    #[trigger] q1[x].actions@[k],
                ) by {
                    if x == i && k == q1[x].actions@.len() - 1 {
                    } else {
                        assert(s0.action_ok(q0[x].actions@[k]));
                    }
                }
                assert forall|x: int| 0 <= x < q1.len() && self.height is Some implies #[trigger] q1[x].height
                    > self.height->0 by {
                    assert(q1[x].height == q0[x].height);
                }
                assert(self.queue_ok());
                lemma_inv_frame(s0, *self);
            }
        } else {
            let mut actions: Vec<Action> = Vec::new();
            actions.push(a);
            self.queue.insert(i, Round { height: h, actions });
            proof {
                let q1 = self.queue@;
                lemma_queue_insert(q0, q1, i as int, h, a);
                assert forall|e: int| trigger_pending(q0, e) implies #[trigger] trigger_pending(q1, e) by {
                    let (j, k) = choose|j: int, k: int|
                        0 <= j < q0.len() && 0 <= k < q0[j].actions@.len() && (#[trigger] q0[j].actions@[k] matches Action::Trigger {
                            event,
                            ..
                        } && event == e);
                    if j < i {
                        assert(q1[j].actions@[k] == q0[j].actions@[k]);
                    } else {
                        assert(q1[j + 1] == q0[j]);
                        assert(q1[j + 1].actions@[k] == q0[j].actions@[k]);
                    }
                }
                assert(q1[i as int].actions@[0] == a);
                assert forall|x: Action| action_pending(q0, x) implies #[trigger] action_pending(q1, x) by {
                    let (j, k) = choose|j: int, k: int| 0 <= j < q0.len() && 0 <= k < q0[j].actions@.len() && #[trigger] q0[j].actions@[k] == x;
                    if j < i {
                        assert(q1[j].actions@[k] == q0[j].actions@[k]);
                    } else {
                        assert(q1[j + 1] == q0[j]);
                        assert(q1[j + 1].actions@[k] == q0[j].actions@[k]);
                    }
                }
                assert forall|x: Action| #[trigger] action_pending(q1, x) implies action_pending(q0, x) || x == a by {
                    let (j, k) = choose|j: int, k: int| 0 <= j < q1.len() && 0 <= k < q1[j].actions@.len() && #[trigger] q1[j].actions@[k] == x;
                    if j < i {
                        assert(q0[j].actions@[k] == x);
                    } else if j > i {
                        assert(q1[j] == q0[j - 1]);
                        assert(q0[j - 1].actions@[k] == x);
                    }
                }
                assert forall|x: int, k: int|
                    0 <= x < q1.len() && 0 <= k < q1[x].actions@.len() implies self.action_ok(
                    #[trigger] q1[x].actions@[k],
                ) by {
                    if x < i {
                        assert(s0.action_ok(q0[x].actions@[k]));
                    } else if x > i {
                        assert(s0.action_ok(q0[x - 1].actions@[k]));
                    }
                }
                assert forall|x: int| 0 <= x < q1.len() && self.height is Some implies #[trigger] q1[x].height
                    > self.height->0 by {
                    if x < i {
                        assert(q1[x] == q0[x]);
                    } else if x > i {
                        assert(q1[x] == q0[x - 1]);
                    }
                }
                assert(self.queue_ok());
                lemma_inv_frame(s0, *self);
            }
        }
        Ok(())
    }
}


impl Runtime {
    /// First half of notifying subscriber list `m`: drop dead subscribers;
    /// with none left, give up the upstream subscription.
    pub(crate) fn begin_notify(&mut self, m: usize) -> (r: Option<Vec<Callback>>)
        requires
            old(self).wf(),
            m < old(self).managers@.len(),
        ensures
            final(self).step_ok(*old(self)),
            final(self).events@ == old(self).events@,
            final(self).behaviors@ == old(self).behaviors@,
            final(self).queue@ == old(self).queue@,
            final(self).logs@ == old(self).logs@,
            r is None <==> live_only(old(self).managers@[m as int].spec_subscribers(), old(self).live).len()
                == 0,
            r matches Some(v) ==> v@ == live_only(
                old(self).managers@[m as int].spec_subscribers(),
                old(self).live,
            ),
            r matches Some(v) ==> forall|i: int| 0 <= i < v@.len() ==> old(self).cb_ok(#[trigger] v@[i]),
            r matches Some(v) ==> forall|i: int| 0 <= i < v@.len() ==> final(self).live.alive(#[trigger] v@[i]),
            final(self).calm(*old(self)),
            old(self).managers@[m as int].spec_subscription() is None ==> final(self).live.tokens@ == old(self).live.tokens@,
    {
        let ghost s0 = *self;
        let r = self.managers[m].notify(&mut self.live);
        proof {
            assert(self.events@ =~= s0.events@);
            if s0.q_consistent() {
                lemma_q_same(s0, *self);
            }
            assert forall|mm: int, c: Callback|
                0 <= mm < self.managers@.len() && #[trigger] self.managers@[mm].spec_subscribers().contains(c) && c is Main
                    && self.live.alive(c) implies (mm < s0.managers@.len() && s0.managers@[mm].spec_subscribers().contains(c)
                    && s0.live.alive(c)) || self.main_sound(mm, c) by {
                if mm == m {
                    lemma_live_only(s0.managers@[mm].spec_subscribers(), s0.live);
                }
                assert(s0.managers@[mm].spec_subscribers().contains(c));
                let i = choose|i: int| 0 <= i < s0.managers@[mm].spec_subscribers().len() && s0.managers@[mm].spec_subscribers()[i] == c;
                assert(s0.cb_ok(s0.managers@[mm].spec_subscribers()[i]));
            }
            let subs0 = s0.managers@[m as int].spec_subscribers();
            lemma_live_only(subs0, s0.live);
            assert forall|mm: int, i: int|
                0 <= mm < self.managers@.len() && 0 <= i < self.managers@[mm].spec_subscribers().len()
                    implies self.cb_ok(#[trigger] self.managers@[mm].spec_subscribers()[i]) by {
                if mm == m {
                    let x = self.managers@[mm].spec_subscribers()[i];
                    assert(subs0.contains(x));
                    let k = choose|k: int| 0 <= k < subs0.len() && subs0[k] == x;
                    assert(s0.cb_ok(subs0[k]));
                } else {
                    assert(s0.cb_ok(s0.managers@[mm].spec_subscribers()[i]));
                }
            }
            assert forall|e: int| 0 <= e < self.events@.len() implies #[trigger] self.event_ok(e) by {
                assert(s0.event_ok(e));
            }
            assert forall|x: int| 0 <= x < self.behaviors@.len() implies #[trigger] self.behavior_ok(x) by {
                assert(s0.behavior_ok(x));
            }
            assert forall|mm: int| 0 <= mm < self.managers@.len() implies (#[trigger] self.managers@[mm]).spec_tag()
                == s0.managers@[mm].spec_tag() && self.managers@[mm].spec_owner() == s0.managers@[mm].spec_owner() by {}
            assert forall|mm: int, c: Callback|
                0 <= mm < s0.managers@.len() && #[trigger] s0.managers@[mm].spec_subscribers().contains(c)
                    && s0.live.alive(c) && self.live.alive(c) implies self.managers@[mm].spec_subscribers().contains(c) by {
                if mm == m {
                    lemma_live_only_keeps(s0.managers@[mm].spec_subscribers(), s0.live, c);
                }
            }
            lemma_logs_extend_refl(self.logs@);
            if r is Some {
                let v = r->0;
                {
                    assert forall|i: int| 0 <= i < v@.len() implies s0.cb_ok(#[trigger] v@[i]) by {
                        let x = v@[i];
                        assert(subs0.contains(x));
                        let k = choose|k: int| 0 <= k < subs0.len() && subs0[k] == x;
                        assert(s0.cb_ok(subs0[k]));
                    }
                    assert forall|i: int| 0 <= i < v@.len() implies self.live.alive(#[trigger] v@[i]) by {
                        assert(s0.live.alive(v@[i]));
                    }
                }
            }
        }
        r
    }

    /// Make sure subscriber list `ix` of event `e` holds a subscription on its
    /// input, if it has one; with `refresh`, replace the subscription.
    pub(crate) fn populate_at(&mut self, e: usize, ix: usize, refresh: bool)
        requires
            old(self).wf(),
            e < old(self).events@.len(),
            ix < manager_count(old(self).events@[e as int].kind),
        ensures
            final(self).step_ok(*old(self)),
            final(self).queue@ == old(self).queue@,
            final(self).logs@ == old(self).logs@,
            final(self).behaviors@ == old(self).behaviors@,
            final(self).events@ == old(self).events@,
            final(self).calm(*old(self)),
            old(self).spec_upstream(e as int, ix as int) is None ==> final(self).live.tokens@ == old(self).live.tokens@,
    {
        assert(self.event_ok(e as int));
        let nm = self.managers.len();
        let m = self.events[e].first_manager + ix;
        let up = self.upstream(e, ix);
        let ghost s0 = *self;
        let has = up.is_some();
        let t = self.managers[m].populate_subscriber(&mut self.live, has, refresh);
        proof {
            assert(self.events@ =~= s0.events@);
            if s0.q_consistent() {
                lemma_q_same(s0, *self);
            }
            assert forall|mm: int, c: Callback|
                0 <= mm < self.managers@.len() && #[trigger] self.managers@[mm].spec_subscribers().contains(c) && c is Main
                    && self.live.alive(c) implies (mm < s0.managers@.len() && s0.managers@[mm].spec_subscribers().contains(c)
                    && s0.live.alive(c)) || self.main_sound(mm, c) by {
                assert(s0.managers@[mm].spec_subscribers() == self.managers@[mm].spec_subscribers());
                let i = choose|i: int| 0 <= i < self.managers@[mm].spec_subscribers().len() && self.managers@[mm].spec_subscribers()[i] == c;
                assert(s0.cb_ok(s0.managers@[mm].spec_subscribers()[i]));
            }
            assert forall|mm: int| 0 <= mm < self.managers@.len() implies (#[trigger] self.managers@[mm]).spec_subscribers()
                == s0.managers@[mm].spec_subscribers() && self.managers@[mm].spec_owner() == s0.managers@[mm].spec_owner() by {}
            lemma_inv_frame(s0, *self);
            assert(t is Some ==> self.live.alive(
                Callback::Main { event: e, tag: self.managers@[m as int].spec_tag(), token: t->0 },
            ));
            assert forall|mm: int| 0 <= mm < self.managers@.len() implies (#[trigger] self.managers@[mm]).spec_tag()
                == s0.managers@[mm].spec_tag() && self.managers@[mm].spec_owner() == s0.managers@[mm].spec_owner() by {}
            lemma_step_refl(s0);
            assert forall|ee: int| 0 <= ee < self.events@.len() implies (#[trigger] self.events@[ee]).kind
                == s0.events@[ee].kind && self.events@[ee].first_manager == s0.events@[ee].first_manager by {}
            assert(self.step_ok(s0));
        }
        match (t, up) {
            (Some(token), Some(u)) => {
                let tag = self.managers[m].tag();
                let ghost s1 = *self;
                proof {
                    assert(self.event_ok(e as int));
                    assert(self.managers@[m as int].spec_owner() == e);
                    assert(tag == ix);
                }
                self.subscribe(u, Callback::Main { event: e, tag, token });
                proof {
                    lemma_logs_extend_refl(self.logs@);
                    assert(self.step_ok(s1));
                    lemma_step_trans(s0, s1, *self);
                    assert(self.events@ =~= s1.events@);
                    if s1.q_consistent() {
                        lemma_q_same(s1, *self);
                    }
                    assert(self.calm(s1));
                    lemma_calm_trans(s0, s1, *self);
                }
            },
            _ => {},
        }
    }

    /// Deliver a firing with value `v` to callback `cb`.
    pub(crate) fn event_fired(&mut self, cb: Callback, v: AnyValue) -> (r: Result<(), PropagationError>)
        requires
            old(self).wf(),
            old(self).cb_ok(cb),
            cb matches Callback::Log { log } ==> old(self).live.logs@[log as int],
        ensures
            final(self).step_ok(*old(self)),
            final(self).behaviors@ == old(self).behaviors@,
            forall|b: usize, w: AnyValue|
                #[trigger] action_pending(final(self).queue@, Action::Hold { behavior: b, value: w }) ==> action_pending(
                    old(self).queue@,
                    Action::Hold { behavior: b, value: w },
                ) || (cb == (Callback::Hold { behavior: b }) && w == v),
            forall|b: usize|
                cb == (Callback::Hold { behavior: b }) && r is Ok ==> #[trigger] action_pending(
                    final(self).queue@,
                    Action::Hold { behavior: b, value: v },
                ),
            forall|sw: usize, j: usize|
                #[trigger] action_pending(final(self).queue@, Action::Switch { event: sw, inner: j }) ==> action_pending(
                    old(self).queue@,
                    Action::Switch { event: sw, inner: j },
                ) || (cb == (Callback::SwitchOuter { event: sw }) && v == AnyValue::Event(j)),
            forall|sw: usize, j: usize|
                cb == (Callback::SwitchOuter { event: sw }) && v == AnyValue::Event(j) && j < old(self).events@.len() && r is Ok
                    ==> #[trigger] action_pending(final(self).queue@, Action::Switch { event: sw, inner: j }),
            cb matches Callback::Log { log } ==> r is Ok && final(self).logs@[log as int]@ == old(self).logs@[log as int]@.push(v) && forall|l: int|
                0 <= l < final(self).logs@.len() && l != log ==> #[trigger] final(self).logs@[l]
                    == old(self).logs@[l],
            !(cb is Log) ==> final(self).logs@ == old(self).logs@,
            cb matches Callback::Hold { behavior } ==> (r is Ok ==> final(self).pending_at(usize::MAX)
                == old(self).pending_at(usize::MAX).push(Action::Hold { behavior, value: v })),
            cb matches Callback::SwitchOuter { event } ==> match v {
                AnyValue::Event(i) => i < old(self).events@.len() && r is Ok ==> final(self).pending_at(
                    usize::MAX,
                ) == old(self).pending_at(usize::MAX).push(Action::Switch { event, inner: i }),
                _ => true,
            },
            cb matches Callback::Main { event, tag, .. } ==> (r is Ok ==> final(self).pending_at(
                old(self).height_of(event as int) as usize,
            ) == old(self).pending_at(old(self).height_of(event as int) as usize).push(
                Action::Main { event, value: v, tag },
            )),
            final(self).calm(*old(self)),
            old(self).fires_ok(cb) ==> r is Ok,
            final(self).live == old(self).live,
            cb matches Callback::Main { event, tag, .. } ==> (r is Ok ==> action_pending(
                final(self).queue@,
                Action::Main { event, value: v, tag },
            )),
            forall|z: int|
                0 <= z < old(self).events@.len() && !(cb matches Callback::Main { event, .. } && event == z)
                    ==> #[trigger] final(self).events@[z].winner == old(self).events@[z].winner,
    {
        let ghost s0 = *self;
        match cb {
            Callback::Main { event, tag, token } => {
                let h = self.height(event);
                self.early(event, &v, tag);
                let ghost s1 = *self;
                let r = self.schedule(h, Action::Main { event, value: v, tag });
                proof {
                    lemma_logs_extend_refl(self.logs@);
                    assert(self.shape_kept(s1));
                    assert(self.step_ok(s1));
                    lemma_step_trans(s0, s1, *self);
                    lemma_events_kept_heights(s0, s1);
                    lemma_schedule_calm(s1, *self, h, Action::Main { event, value: v, tag }, r is Ok);
                    lemma_calm_trans(s0, s1, *self);
                }
                r
            },
            Callback::Hold { behavior } => {
                let r = self.schedule(usize::MAX, Action::Hold { behavior, value: v });
                proof {
                    lemma_schedule_calm(s0, *self, usize::MAX, Action::Hold { behavior, value: v }, r is Ok);
                    lemma_logs_extend_refl(self.logs@);
                    assert(self.shape_kept(s0));
                }
                r
            },
            Callback::SwitchOuter { event } => {
                let n = self.events.len();
                match v {
                    AnyValue::Event(i) => {
                        if i < n {
                            let r = self.schedule(usize::MAX, Action::Switch { event, inner: i });
                            proof {
                                lemma_schedule_calm(s0, *self, usize::MAX, Action::Switch { event, inner: i }, r is Ok);
                                lemma_logs_extend_refl(self.logs@);
                                assert(self.shape_kept(s0));
                            }
                            r
                        } else {
                            proof {
                                lemma_step_refl(s0);
                                lemma_calm_refl(s0);
                            }
                            Ok(())
                        }
                    },
                    _ => {
                        proof {
                            lemma_step_refl(s0);
                            lemma_calm_refl(s0);
                        }
                        Ok(())
                    },
                }
            },
            Callback::Log { log } => {
                self.logs[log].push(v);
                proof {
                    lemma_inv_frame(s0, *self);
                    assert(self.events@ =~= s0.events@);
                    lemma_schedule_calm(s0, *self, 0, Action::Trigger { event: 0, value: v }, false);
                    assert forall|l: int| 0 <= l < s0.logs@.len() implies s0.logs@[l]@.len() <= (
                    #[trigger] self.logs@[l])@.len() && self.logs@[l]@.subrange(
                        0,
                        s0.logs@[l]@.len() as int,
                    ) == s0.logs@[l]@ by {
                        if l == log {
                            assert(self.logs@[l]@.subrange(0, s0.logs@[l]@.len() as int) =~= s0.logs@[l]@);
                        } else {
                            assert(self.logs@[l] == s0.logs@[l]);
                            assert(self.logs@[l]@.subrange(0, s0.logs@[l]@.len() as int) =~= s0.logs@[l]@);
                        }
                    }
                    assert(self.shape_kept(s0));
                }
                Ok(())
            },
        }
    }

    /// Record, before its main action runs, that event `e` saw a firing `v`
    /// of its input number `tag` (leftmost and combined events only).
    pub(crate) fn early(&mut self, e: usize, v: &AnyValue, tag: usize)
        requires
            old(self).wf(),
            e < old(self).events@.len(),
        ensures
            final(self).step_ok(*old(self)),
            final(self).managers@ == old(self).managers@,
            final(self).behaviors@ == old(self).behaviors@,
            final(self).queue@ == old(self).queue@,
            final(self).logs@ == old(self).logs@,
            final(self).live == old(self).live,
            final(self).events@.len() == old(self).events@.len(),
            forall|f: int|
                0 <= f < final(self).events@.len() && f != e ==> #[trigger] final(self).events@[f]
                    == old(self).events@[f],
            final(self).events@[e as int].kind == old(self).events@[e as int].kind,
            final(self).events@[e as int].first_manager == old(self).events@[e as int].first_manager,
            final(self).events@[e as int].inner == old(self).events@[e as int].inner,
            final(self).events@[e as int].scheduled == old(self).events@[e as int].scheduled,
            shape_of(old(self).events@[e as int].kind) is Leftmost ==> final(self).events@[e as int].winner
                == pick_winner(old(self).events@[e as int].winner, *v, tag),
            !(shape_of(old(self).events@[e as int].kind) is Leftmost) ==> final(self).events@[e as int].winner
                == old(self).events@[e as int].winner,
            shape_of(old(self).events@[e as int].kind) is Combine ==> final(self).events@[e as int].pending
                == merge_pending(*v, old(self).events@[e as int].pending),
            !(shape_of(old(self).events@[e as int].kind) is Combine) ==> final(self).events@[e as int].pending
                == old(self).events@[e as int].pending,
            final(self).calm(*old(self)),
    {
        let ghost s0 = *self;
        let s = self.shape(e);
        match s {
            Shape::Leftmost => {
                let keep = match &self.events[e].winner {
                    Some((_, cur)) => *cur < tag,
                    None => false,
                };
                if !keep {
                    self.events[e].winner = Some((v.clone(), tag));
                }
            },
            Shape::Combine => {
                let merged = match &self.events[e].pending {
                    Some(old) => match (v, old) {
                        (AnyValue::First(a), AnyValue::Second(b)) => Some(
                            AnyValue::Both(Box::new((**a).clone()), Box::new((**b).clone())),
                        ),
                        (AnyValue::Second(b), AnyValue::First(a)) => Some(
                            AnyValue::Both(Box::new((**a).clone()), Box::new((**b).clone())),
                        ),
                        _ => Some(old.clone()),
                    },
                    None => Some(v.clone()),
                };
                self.events[e].pending = merged;
            },
            _ => {},
        }
        proof {
            lemma_inv_frame(s0, *self);
            lemma_logs_extend_refl(self.logs@);
            assert(self.shape_kept(s0));
            assert forall|ee: int| 0 <= ee < self.events@.len() implies (#[trigger] self.events@[ee]).kind
                == s0.events@[ee].kind && self.events@[ee].inner == s0.events@[ee].inner by {}
            if s0.q_consistent() {
                lemma_q_same(s0, *self);
            }
        }
    }
}


impl Runtime {
    /// The value of behavior `b`, following at most `fuel` joins.
    pub(crate) fn query_fuel<D: Fn(usize, &Vec<AnyValue>) -> Option<AnyValue>>(&self, d: &D, b: usize, fuel: usize) -> (r: Option<AnyValue>)
        requires
            self.wf(),
            is_dispatcher(*d),
            b < self.behaviors@.len(),
        ensures
            r == spec_value(*d, self.behaviors@, b as int, fuel as nat),
        decreases fuel, b + 1, 0nat,
    {
        assert(self.behavior_ok(b as int));
        match &self.behaviors[b].kind {
            BehaviorKind::Constant => Some(self.behaviors[b].value.clone()),
            BehaviorKind::Hold { .. } => Some(self.behaviors[b].value.clone()),
            BehaviorKind::Apply { input, f } => {
                match self.query_fuel(d, *input, fuel) {
                    Some(x) => call1(d, *f, &x),
                    None => None,
                }
            },
            BehaviorKind::Apply2 { a, b: bb, f2 } => {
                let x = self.query_fuel(d, *a, fuel);
                let y = self.query_fuel(d, *bb, fuel);
                match (x, y) {
                    (Some(x), Some(y)) => crate::function::call2(d, *f2, &x, &y),
                    _ => None,
                }
            },
            BehaviorKind::Join { outer } => {
                match self.query_fuel(d, *outer, fuel) {
                    Some(AnyValue::Behavior(j)) => {
                        if fuel == 0 {
                            None
                        } else if j < self.behaviors.len() {
                            self.query_fuel(d, j, fuel - 1)
                        } else {
                            None
                        }
                    },
                    _ => None,
                }
            },
            BehaviorKind::Computation { inputs, fn_n } => {
                match self.query_values(d, inputs, inputs.len(), fuel, b) {
                    Some(xs) => call_fn(d, *fn_n, &xs),
                    None => None,
                }
            },
        }
    }

    /// The values of the first `k` behaviors of `ins`, all older than
    /// `owner`, if all have one.
    pub(crate) fn query_values<D: Fn(usize, &Vec<AnyValue>) -> Option<AnyValue>>(
        &self,
        d: &D,
        ins: &Vec<usize>,
        k: usize,
        fuel: usize,
        owner: usize,
    ) -> (r: Option<Vec<AnyValue>>)
        requires
            self.wf(),
            is_dispatcher(*d),
            k <= ins@.len(),
            owner < self.behaviors@.len(),
            forall|i: int| 0 <= i < ins@.len() ==> #[trigger] ins@[i] < owner,
        ensures
            spec_values(*d, self.behaviors@, ins@, k as nat, fuel as nat, owner as int) is None ==> r is None,
            spec_values(*d, self.behaviors@, ins@, k as nat, fuel as nat, owner as int) matches Some(xs) ==> (r matches Some(
                v,
            ) && v@ == xs),
        decreases fuel, owner, k + 1,
    {
        if k == 0 {
            return Some(Vec::new());
        }
        let rest = self.query_values(d, ins, k - 1, fuel, owner);
        let x = self.query_fuel(d, ins[k - 1], fuel);
        match (rest, x) {
            (Some(mut xs), Some(x)) => {
                xs.push(x);
                Some(xs)
            },
            _ => None,
        }
    }

    /// The current value of behavior `b`.
    pub(crate) fn query<D: Fn(usize, &Vec<AnyValue>) -> Option<AnyValue>>(&self, d: &D, b: usize) -> (r: Option<AnyValue>)
        requires
            self.wf(),
            is_dispatcher(*d),
            b < self.behaviors@.len(),
        ensures
            r == self.value_of(*d, b as int),
    {
        self.query_fuel(d, b, usize::MAX)
    }
}


/// Events that fire, each time their one input fires, with a value computed
/// from that firing: filtering, tagging and switching events.
pub open spec fn maps_one_input(k: EventKind) -> bool {
    k is FilterMap || k is Tag || k is SwitchHold
}

/// The value a derived event of kind `k` fires with when its input fires
/// with `v`, in a runtime whose behaviors are `rt`.
pub open spec fn fired_value<D: Fn(usize, &Vec<AnyValue>) -> Option<AnyValue>>(d: D, rt: Runtime, k: EventKind, v: AnyValue) -> Option<AnyValue> {
    match k {
        EventKind::FilterMap { f, .. } => spec_call(d, f, seq![v]),
        EventKind::Tag { behavior, tagger, .. } => match rt.value_of(d, behavior as int) {
            Some(w) => spec_call(d, tagger, seq![v, w]),
            None => None,
        },
        EventKind::SwitchHold { .. } => Some(v),
        EventKind::Combine { combiner, .. } => spec_call(d, combiner, seq![v]),
        _ => None,
    }
}

impl Runtime {
    /// Second half of notifying subscriber list `ix` of event `e`: deliver
    /// `value`, if there is one, to `subs` in order, then make sure the list
    /// still holds its upstream subscription.
    pub(crate) fn finish_notify(
        &mut self,
        e: usize,
        ix: usize,
        subs: &Vec<Callback>,
        value: &Option<AnyValue>,
    ) -> (r: Result<(), PropagationError>)
        requires
            old(self).wf(),
            e < old(self).events@.len(),
            ix < manager_count(old(self).events@[e as int].kind),
            forall|i: int| 0 <= i < subs@.len() ==> old(self).cb_ok(#[trigger] subs@[i]),
            forall|i: int| 0 <= i < subs@.len() ==> old(self).live.alive(#[trigger] subs@[i]),
        ensures
            final(self).step_ok(*old(self)),
            final(self).behaviors@ == old(self).behaviors@,
            forall|b: usize, w: AnyValue|
                #[trigger] action_pending(final(self).queue@, Action::Hold { behavior: b, value: w }) ==> action_pending(
                    old(self).queue@,
                    Action::Hold { behavior: b, value: w },
                ) || (*value == Some(w) && subs@.contains(Callback::Hold { behavior: b })),
            r is Ok ==> (value matches Some(v) ==> forall|b: usize|
                #[trigger] subs@.contains(Callback::Hold { behavior: b }) ==> action_pending(
                    final(self).queue@,
                    Action::Hold { behavior: b, value: *v },
                )),
            forall|sw: usize, j: usize|
                #[trigger] action_pending(final(self).queue@, Action::Switch { event: sw, inner: j }) ==> action_pending(
                    old(self).queue@,
                    Action::Switch { event: sw, inner: j },
                ) || (*value == Some(AnyValue::Event(j)) && subs@.contains(Callback::SwitchOuter { event: sw })),
            r is Ok ==> (value matches Some(v) ==> forall|sw: usize, j: usize|
                subs@.contains(Callback::SwitchOuter { event: sw }) && *v == AnyValue::Event(j) && j
                    < old(self).events@.len() ==> #[trigger] action_pending(final(self).queue@, Action::Switch { event: sw, inner: j })),
            r is Ok ==> (value matches Some(v) ==> forall|l: usize|
                #[trigger] subs@.contains(Callback::Log { log: l }) ==> heard_after(
                    final(self).logs@,
                    old(self).logs@,
                    l as int,
                    *v,
                )),
            final(self).calm(*old(self)),
            (forall|i: int| 0 <= i < subs@.len() ==> old(self).fires_ok(#[trigger] subs@[i])) ==> r is Ok,
            old(self).spec_upstream(e as int, ix as int) is None ==> final(self).live.tokens@ == old(self).live.tokens@,
            r is Ok ==> (value matches Some(v) ==> forall|z: usize, t: usize, tok: usize|
                #[trigger] subs@.contains(Callback::Main { event: z, tag: t, token: tok }) ==> action_pending(
                    final(self).queue@,
                    Action::Main { event: z, value: *v, tag: t },
                )),
            forall|z: int|
                0 <= z < old(self).events@.len() && (forall|k: int|
                    0 <= k < subs@.len() ==> !(#[trigger] subs@[k] matches Callback::Main { event, .. } && event == z))
                    ==> #[trigger] final(self).events@[z].winner == old(self).events@[z].winner,
    {
        let ghost s0 = *self;
        proof {
            lemma_step_refl(s0);
            lemma_calm_refl(s0);
        }
        if let Some(v) = value {
            let mut i: usize = 0;
            let mut failed: Option<PropagationError> = None;
            while i < subs.len() && failed.is_none()
                invariant
                    self.step_ok(s0),
                    e < self.events@.len(),
                    ix < manager_count(self.events@[e as int].kind),
                    forall|k: int| 0 <= k < subs@.len() ==> s0.cb_ok(#[trigger] subs@[k]),
                    forall|k: int| 0 <= k < subs@.len() ==> s0.live.alive(#[trigger] subs@[k]),
                    i <= subs@.len(),
                    self.calm(s0),
                    self.live.tokens@ == s0.live.tokens@,
                    failed is None ==> forall|z: usize, t: usize, tok: usize|
                        #[trigger] subs@.take(i as int).contains(Callback::Main { event: z, tag: t, token: tok }) ==> action_pending(
                            self.queue@,
                            Action::Main { event: z, value: *v, tag: t },
                        ),
                    (forall|k: int| 0 <= k < subs@.len() ==> s0.fires_ok(#[trigger] subs@[k])) ==> failed is None,
                    self.behaviors@ == s0.behaviors@,
                    forall|b: usize, w: AnyValue|
                        #[trigger] action_pending(self.queue@, Action::Hold { behavior: b, value: w }) ==> action_pending(
                            s0.queue@,
                            Action::Hold { behavior: b, value: w },
                        ) || (w == *v && subs@.contains(Callback::Hold { behavior: b })),
                    failed is None ==> forall|b: usize|
                        #[trigger] subs@.take(i as int).contains(Callback::Hold { behavior: b }) ==> action_pending(
                            self.queue@,
                            Action::Hold { behavior: b, value: *v },
                        ),
                    forall|sw: usize, j: usize|
                        #[trigger] action_pending(self.queue@, Action::Switch { event: sw, inner: j }) ==> action_pending(
                            s0.queue@,
                            Action::Switch { event: sw, inner: j },
                        ) || (*v == AnyValue::Event(j) && subs@.contains(Callback::SwitchOuter { event: sw })),
                    failed is None ==> forall|sw: usize, j: usize|
                        subs@.take(i as int).contains(Callback::SwitchOuter { event: sw }) && *v == AnyValue::Event(j)
                            && j < s0.events@.len() ==> #[trigger] action_pending(self.queue@, Action::Switch { event: sw, inner: j }),
                    failed is None ==> forall|l: usize|
                        #[trigger] subs@.take(i as int).contains(Callback::Log { log: l }) ==> heard_after(
                            self.logs@,
                            s0.logs@,
                            l as int,
                            *v,
                        ),
                    forall|z: int|
                        0 <= z < s0.events@.len() && (forall|k: int|
                            0 <= k < subs@.len() ==> !(#[trigger] subs@[k] matches Callback::Main { event, .. } && event == z))
                            ==> #[trigger] self.events@[z].winner == s0.events@[z].winner,
                decreases subs@.len() - i,
            {
                let ghost s1 = *self;
                assert(s0.cb_ok(subs@[i as int]));
                assert(s0.live.alive(subs@[i as int]));
                let r = self.event_fired(subs[i], v.clone());
                proof {
                    lemma_step_trans(s0, s1, *self);
                    lemma_calm_trans(s0, s1, *self);
                    if forall|k: int| 0 <= k < subs@.len() ==> s0.fires_ok(#[trigger] subs@[k]) {
                        assert(s0.fires_ok(subs@[i as int]));
                        lemma_fires_kept(s0, s1, subs@[i as int]);
                    }
                    assert forall|b: usize, w: AnyValue|
                        #[trigger] action_pending(self.queue@, Action::Hold { behavior: b, value: w }) implies action_pending(
                            s0.queue@,
                            Action::Hold { behavior: b, value: w },
                        ) || (w == *v && subs@.contains(Callback::Hold { behavior: b })) by {
                        if !action_pending(s1.queue@, Action::Hold { behavior: b, value: w }) {
                            assert(subs@[i as int] == Callback::Hold { behavior: b });
                        }
                    }
                    assert forall|sw: usize, j: usize|
                        #[trigger] action_pending(self.queue@, Action::Switch { event: sw, inner: j }) implies action_pending(
                            s0.queue@,
                            Action::Switch { event: sw, inner: j },
                        ) || (*v == AnyValue::Event(j) && subs@.contains(Callback::SwitchOuter { event: sw })) by {
                        if !action_pending(s1.queue@, Action::Switch { event: sw, inner: j }) {
                            assert(subs@[i as int] == Callback::SwitchOuter { event: sw });
                        }
                    }
                    if failed is None && r is Ok {
                        assert forall|z: usize, t: usize, tok: usize|
                            #[trigger] subs@.take(i + 1).contains(Callback::Main { event: z, tag: t, token: tok }) implies action_pending(
                                self.queue@,
                                Action::Main { event: z, value: *v, tag: t },
                            ) by {
                            let c = Callback::Main { event: z, tag: t, token: tok };
                            let k = choose|k: int| 0 <= k < subs@.take(i + 1).len() && #[trigger] subs@.take(i + 1)[k] == c;
                            if k < i {
                                assert(subs@.take(i as int)[k] == c);
                                assert(subs@.take(i as int).contains(c));
                            } else {
                                assert(subs@[i as int] == c);
                            }
                        }
                        assert forall|sw: usize, j: usize|
                            subs@.take(i + 1).contains(Callback::SwitchOuter { event: sw }) && *v == AnyValue::Event(j)
                                && j < s0.events@.len() implies #[trigger] action_pending(self.queue@, Action::Switch { event: sw, inner: j }) by {
                            let k = choose|k: int| 0 <= k < subs@.take(i + 1).len() && #[trigger] subs@.take(i + 1)[k] == Callback::SwitchOuter { event: sw };
                            if k < i {
                                assert(subs@.take(i as int)[k] == Callback::SwitchOuter { event: sw });
                                assert(subs@.take(i as int).contains(Callback::SwitchOuter { event: sw }));
                            } else {
                                assert(subs@[i as int] == Callback::SwitchOuter { event: sw });
                                assert(s1.events@.len() == s0.events@.len());
                            }
                        }
                        assert forall|b: usize|
                            #[trigger] subs@.take(i + 1).contains(Callback::Hold { behavior: b }) implies action_pending(
                                self.queue@,
                                Action::Hold { behavior: b, value: *v },
                            ) by {
                            let k = choose|k: int| 0 <= k < subs@.take(i + 1).len() && #[trigger] subs@.take(i + 1)[k] == Callback::Hold { behavior: b };
                            if k < i {
                                assert(subs@.take(i as int)[k] == Callback::Hold { behavior: b });
                                assert(subs@.take(i as int).contains(Callback::Hold { behavior: b }));
                            } else {
                                assert(subs@[i as int] == Callback::Hold { behavior: b });
                            }
                        }
                        assert forall|l: usize|
                            #[trigger] subs@.take(i + 1).contains(Callback::Log { log: l }) implies heard_after(
                                self.logs@,
                                s0.logs@,
                                l as int,
                                *v,
                            ) by {
                            assert(s0.cb_ok(Callback::Log { log: l })) by {
                                let k = choose|k: int| 0 <= k < subs@.take(i + 1).len() && #[trigger] subs@.take(i + 1)[k] == Callback::Log { log: l };
                                assert(subs@[k] == Callback::Log { log: l });
                            }
                            if subs@[i as int] == (Callback::Log { log: l }) {
                                let sl = self.logs@[l as int]@.subrange(
                                    s0.logs@[l as int]@.len() as int,
                                    self.logs@[l as int]@.len() as int,
                                );
                                assert(self.logs@[l as int]@ == s1.logs@[l as int]@.push(*v));
                                assert(sl[s1.logs@[l as int]@.len() - s0.logs@[l as int]@.len()] == *v);
                            } else {
                                let k = choose|k: int| 0 <= k < subs@.take(i + 1).len() && #[trigger] subs@.take(i + 1)[k] == Callback::Log { log: l };
                                assert(k < i);
                                assert(subs@.take(i as int)[k] == Callback::Log { log: l });
                                assert(subs@.take(i as int).contains(Callback::Log { log: l }));
                                lemma_heard_after_extend(s0.logs@, s1.logs@, self.logs@, l as int, *v);
                            }
                        }
                    }
                }
                match r {
                    Err(err) => {
                        failed = Some(err);
                    },
                    Ok(()) => {},
                }
                i = i + 1;
            }
            match failed {
                Some(err) => {
                    return Err(err);
                },
                None => {},
            }
        }
        let ghost s2 = *self;
        self.populate_at(e, ix, false);
        proof {
            lemma_step_trans(s0, s2, *self);
            lemma_calm_trans(s0, s2, *self);
            if value is Some {
                let v = value->0;
                assert(subs@.take(subs@.len() as int) =~= subs@);
                assert forall|b: usize| #[trigger] subs@.contains(Callback::Hold { behavior: b }) implies action_pending(
                    self.queue@,
                    Action::Hold { behavior: b, value: v },
                ) by {
                    assert(subs@.take(subs@.len() as int).contains(Callback::Hold { behavior: b }));
                }
                assert forall|sw: usize, j: usize|
                    subs@.contains(Callback::SwitchOuter { event: sw }) && v == AnyValue::Event(j) && j
                        < s0.events@.len() implies #[trigger] action_pending(self.queue@, Action::Switch { event: sw, inner: j }) by {
                    assert(subs@.take(subs@.len() as int).contains(Callback::SwitchOuter { event: sw }));
                }
                assert forall|z: usize, t: usize, tok: usize|
                    #[trigger] subs@.contains(Callback::Main { event: z, tag: t, token: tok }) implies action_pending(
                        self.queue@,
                        Action::Main { event: z, value: v, tag: t },
                    ) by {
                    assert(subs@.take(subs@.len() as int).contains(Callback::Main { event: z, tag: t, token: tok }));
                }
                assert forall|l: usize| #[trigger] subs@.contains(Callback::Log { log: l }) implies heard_after(
                    self.logs@,
                    s0.logs@,
                    l as int,
                    v,
                ) by {
                    assert(subs@.take(subs@.len() as int).contains(Callback::Log { log: l }));
                    let k = choose|k: int| 0 <= k < subs@.len() && #[trigger] subs@[k] == Callback::Log { log: l };
                    assert(s0.cb_ok(subs@[k]));
                    lemma_heard_after_extend(s0.logs@, s2.logs@, self.logs@, l as int, v);
                }
            }
        }
        Ok(())
    }

    /// The value a filtering, tagging or switching event fires with when its
    /// input fires with `v`.
    pub(crate) fn compute_value<D: Fn(usize, &Vec<AnyValue>) -> Option<AnyValue>>(&self, d: &D, e: usize, v: &AnyValue) -> (r: Option<AnyValue>)
        requires
            self.wf(),
            is_dispatcher(*d),
            e < self.events@.len(),
        ensures
            r == fired_value(*d, *self, self.events@[e as int].kind, *v),
    {
        assert(self.event_ok(e as int));
        match &self.events[e].kind {
            EventKind::FilterMap { f, .. } => call1(d, *f, v),
            EventKind::Tag { behavior, tagger, .. } => match self.query(d, *behavior) {
                Some(w) => crate::function::call2(d, *tagger, v, &w),
                None => None,
            },
            EventKind::SwitchHold { .. } => Some(v.clone()),
            EventKind::Combine { combiner, .. } => call1(d, *combiner, v),
            _ => None,
        }
    }

    /// Notify subscriber list `ix` of event `e`: when it has live
    /// subscribers, compute the value and deliver it.
    pub(crate) fn notify_list<D: Fn(usize, &Vec<AnyValue>) -> Option<AnyValue>>(&mut self, d: &D, e: usize, ix: usize, v: &AnyValue, compute: bool) -> (r:
        Result<(), PropagationError>)
        requires
            old(self).wf(),
            is_dispatcher(*d),
            e < old(self).events@.len(),
            ix < manager_count(old(self).events@[e as int].kind),
        ensures
            final(self).step_ok(*old(self)),
            final(self).behaviors@ == old(self).behaviors@,
            forall|b: usize, w: AnyValue|
                #[trigger] action_pending(final(self).queue@, Action::Hold { behavior: b, value: w }) ==> action_pending(
                    old(self).queue@,
                    Action::Hold { behavior: b, value: w },
                ) || (old(self).managers@[old(self).events@[e as int].first_manager + ix].spec_subscribers().contains(
                    Callback::Hold { behavior: b },
                ) && (if compute {
                    fired_value(*d, *old(self), old(self).events@[e as int].kind, *v) == Some(w)
                } else {
                    w == *v
                })),
            r is Ok && !compute ==> forall|b: usize|
                #[trigger] old(self).managers@[old(self).events@[e as int].first_manager + ix].spec_subscribers().contains(
                    Callback::Hold { behavior: b },
                ) ==> action_pending(final(self).queue@, Action::Hold { behavior: b, value: *v }),
            forall|sw: usize, j: usize|
                #[trigger] action_pending(final(self).queue@, Action::Switch { event: sw, inner: j }) ==> action_pending(
                    old(self).queue@,
                    Action::Switch { event: sw, inner: j },
                ) || (old(self).managers@[old(self).events@[e as int].first_manager + ix].spec_subscribers().contains(
                    Callback::SwitchOuter { event: sw },
                ) && (if compute {
                    fired_value(*d, *old(self), old(self).events@[e as int].kind, *v) == Some(AnyValue::Event(j))
                } else {
                    *v == AnyValue::Event(j)
                })),
            r is Ok && !compute ==> forall|sw: usize, j: usize|
                old(self).managers@[old(self).events@[e as int].first_manager + ix].spec_subscribers().contains(
                    Callback::SwitchOuter { event: sw },
                ) && *v == AnyValue::Event(j) && j < old(self).events@.len() ==> #[trigger] action_pending(
                    final(self).queue@,
                    Action::Switch { event: sw, inner: j },
                ),
            r is Ok ==> forall|l: usize|
                #[trigger] old(self).managers@[old(self).events@[e as int].first_manager + ix].spec_subscribers().contains(
                    Callback::Log { log: l },
                ) && old(self).live.logs@[l as int] ==> {
                    &&& !compute ==> heard_after(final(self).logs@, old(self).logs@, l as int, *v)
                    &&& compute ==> (fired_value(*d, *old(self), old(self).events@[e as int].kind, *v) matches Some(w)
                        ==> heard_after(final(self).logs@, old(self).logs@, l as int, w))
                },
            final(self).calm(*old(self)),
            old(self).list_fires_ok(old(self).events@[e as int].first_manager + ix) ==> r is Ok,
            old(self).spec_upstream(e as int, ix as int) is None ==> final(self).live.tokens@ == old(self).live.tokens@,
            r is Ok && !compute ==> forall|z: usize, t: usize, tok: usize|
                #[trigger] old(self).managers@[old(self).events@[e as int].first_manager + ix].spec_subscribers().contains(
                    Callback::Main { event: z, tag: t, token: tok },
                ) && old(self).live.alive(Callback::Main { event: z, tag: t, token: tok }) ==> action_pending(
                    final(self).queue@,
                    Action::Main { event: z, value: *v, tag: t },
                ),
            forall|z: int|
                0 <= z < old(self).events@.len() && (forall|c: Callback|
                    #[trigger] old(self).managers@[old(self).events@[e as int].first_manager + ix].spec_subscribers().contains(c)
                        && old(self).live.alive(c) ==> !(c matches Callback::Main { event, .. } && event == z))
                    ==> #[trigger] final(self).events@[z].winner == old(self).events@[z].winner,
    {
        let ghost s0 = *self;
        assert(self.event_ok(e as int));
        let nm = self.managers.len();
        let m = self.events[e].first_manager + ix;
        proof {
            assert(self.managers@[m as int].spec_owner() == e);
            assert(self.managers@[m as int].spec_tag() == ix);
            if self.managers@[m as int].spec_subscription() is Some {
                assert(self.spec_upstream(e as int, ix as int) is Some);
            }
        }
        let subs = self.begin_notify(m);
        match subs {
            None => {
                proof {
                    assert forall|l: usize|
                        #[trigger] s0.managers@[m as int].spec_subscribers().contains(Callback::Log { log: l })
                            && s0.live.logs@[l as int] implies false by {
                        lemma_live_only_keeps(s0.managers@[m as int].spec_subscribers(), s0.live, Callback::Log { log: l });
                    }
                    assert forall|b: usize|
                        #[trigger] s0.managers@[m as int].spec_subscribers().contains(Callback::Hold { behavior: b }) implies false by {
                        lemma_live_only_keeps(s0.managers@[m as int].spec_subscribers(), s0.live, Callback::Hold { behavior: b });
                    }
                    assert forall|sw: usize|
                        #[trigger] s0.managers@[m as int].spec_subscribers().contains(Callback::SwitchOuter { event: sw }) implies false by {
                        lemma_live_only_keeps(s0.managers@[m as int].spec_subscribers(), s0.live, Callback::SwitchOuter { event: sw });
                    }
                    assert forall|z: usize, t: usize, tok: usize|
                        #[trigger] s0.managers@[m as int].spec_subscribers().contains(Callback::Main { event: z, tag: t, token: tok })
                            && s0.live.alive(Callback::Main { event: z, tag: t, token: tok }) implies false by {
                        lemma_live_only_keeps(s0.managers@[m as int].spec_subscribers(), s0.live, Callback::Main { event: z, tag: t, token: tok });
                    }
                }
                Ok(())
            },
            Some(subs) => {
                let value = if compute {
                    self.compute_value(d, e, v)
                } else {
                    Some(v.clone())
                };
                let ghost s1 = *self;
                proof {
                    if s0.list_fires_ok(m as int) {
                        lemma_live_only(s0.managers@[m as int].spec_subscribers(), s0.live);
                        assert forall|k: int| 0 <= k < subs@.len() implies s1.fires_ok(#[trigger] subs@[k]) by {
                            assert(s0.managers@[m as int].spec_subscribers().contains(subs@[k]));
                            assert(s0.live.alive(subs@[k]));
                            lemma_fires_kept(s0, s1, subs@[k]);
                        }
                    }
                }
                let r = self.finish_notify(e, ix, &subs, &value);
                proof {
                    lemma_step_trans(s0, s1, *self);
                    lemma_calm_trans(s0, s1, *self);
                    assert forall|l: usize|
                        #[trigger] s0.managers@[m as int].spec_subscribers().contains(Callback::Log { log: l })
                            && s0.live.logs@[l as int] implies subs@.contains(Callback::Log { log: l }) by {
                        lemma_live_only_keeps(s0.managers@[m as int].spec_subscribers(), s0.live, Callback::Log { log: l });
                    }
                    assert forall|b: usize|
                        #[trigger] s0.managers@[m as int].spec_subscribers().contains(Callback::Hold { behavior: b })
                            implies subs@.contains(Callback::Hold { behavior: b }) by {
                        lemma_live_only_keeps(s0.managers@[m as int].spec_subscribers(), s0.live, Callback::Hold { behavior: b });
                    }
                    lemma_live_only(s0.managers@[m as int].spec_subscribers(), s0.live);
                    assert forall|b: usize|
                        #[trigger] subs@.contains(Callback::Hold { behavior: b }) implies s0.managers@[m as int].spec_subscribers().contains(
                            Callback::Hold { behavior: b },
                        ) by {
                        let k = choose|k: int| 0 <= k < subs@.len() && subs@[k] == Callback::Hold { behavior: b };
                        assert(s0.managers@[m as int].spec_subscribers().contains(subs@[k]));
                    }
                    assert forall|sw: usize|
                        #[trigger] s0.managers@[m as int].spec_subscribers().contains(Callback::SwitchOuter { event: sw })
                            implies subs@.contains(Callback::SwitchOuter { event: sw }) by {
                        lemma_live_only_keeps(s0.managers@[m as int].spec_subscribers(), s0.live, Callback::SwitchOuter { event: sw });
                    }
                    assert forall|sw: usize|
                        #[trigger] subs@.contains(Callback::SwitchOuter { event: sw }) implies s0.managers@[m as int].spec_subscribers().contains(
                            Callback::SwitchOuter { event: sw },
                        ) by {
                        let k = choose|k: int| 0 <= k < subs@.len() && subs@[k] == Callback::SwitchOuter { event: sw };
                        assert(s0.managers@[m as int].spec_subscribers().contains(subs@[k]));
                    }
                    assert(s1.events@.len() == s0.events@.len());
                    assert forall|z: usize, t: usize, tok: usize|
                        #[trigger] s0.managers@[m as int].spec_subscribers().contains(Callback::Main { event: z, tag: t, token: tok })
                            && s0.live.alive(Callback::Main { event: z, tag: t, token: tok }) implies subs@.contains(
                            Callback::Main { event: z, tag: t, token: tok },
                        ) by {
                        lemma_live_only_keeps(s0.managers@[m as int].spec_subscribers(), s0.live, Callback::Main { event: z, tag: t, token: tok });
                    }
                }
                r
            },
        }
    }

    /// A derived event handles a firing `v` of its input number `tag`.
    pub(crate) fn handle_main<D: Fn(usize, &Vec<AnyValue>) -> Option<AnyValue>>(&mut self, d: &D, e: usize, v: AnyValue, tag: usize) -> (r: Result<
        (),
        PropagationError,
    >)
        requires
            old(self).wf(),
            is_dispatcher(*d),
            e < old(self).events@.len(),
        ensures
            final(self).step_ok(*old(self)),
            final(self).behaviors@ == old(self).behaviors@,
            forall|b: usize, w: AnyValue|
                #[trigger] action_pending(final(self).queue@, Action::Hold { behavior: b, value: w }) ==> action_pending(
                    old(self).queue@,
                    Action::Hold { behavior: b, value: w },
                ) || (!(old(self).events@[e as int].kind is External) && exists|ix: int|
                    0 <= ix < manager_count(old(self).events@[e as int].kind) && #[trigger] old(self).managers@[old(
                        self,
                    ).events@[e as int].first_manager + ix].spec_subscribers().contains(Callback::Hold { behavior: b })),
            forall|sw: usize, j: usize|
                #[trigger] action_pending(final(self).queue@, Action::Switch { event: sw, inner: j }) ==> action_pending(
                    old(self).queue@,
                    Action::Switch { event: sw, inner: j },
                ) || (!(old(self).events@[e as int].kind is External) && exists|ix: int|
                    0 <= ix < manager_count(old(self).events@[e as int].kind) && #[trigger] old(self).managers@[old(
                        self,
                    ).events@[e as int].first_manager + ix].spec_subscribers().contains(Callback::SwitchOuter { event: sw })),
            final(self).calm(*old(self)),
            maps_one_input(old(self).events@[e as int].kind) && r is Ok ==> forall|l: usize|
                #[trigger] old(self).managers@[old(self).events@[e as int].first_manager + 0].spec_subscribers().contains(
                    Callback::Log { log: l },
                ) && old(self).live.logs@[l as int] ==> (fired_value(*d, *old(self), old(self).events@[e as int].kind, v) matches Some(
                    w,
                ) ==> heard_after(final(self).logs@, old(self).logs@, l as int, w)),
            (forall|ix: int|
                0 <= ix < manager_count(old(self).events@[e as int].kind) ==> #[trigger] old(self).list_fires_ok(
                    old(self).events@[e as int].first_manager + ix,
                )) ==> r is Ok,
            shape_of(old(self).events@[e as int].kind) is Leftmost && (forall|ix: int, c: Callback|
                0 <= ix < manager_count(old(self).events@[e as int].kind) && #[trigger] old(self).managers@[old(
                    self,
                ).events@[e as int].first_manager + ix].spec_subscribers().contains(c) && old(self).live.alive(c)
                    ==> !(c matches Callback::Main { event, .. } && event == e)) ==> final(self).events@[e as int].winner
                is None,
            shape_of(old(self).events@[e as int].kind) is Leftmost && r is Ok ==> (old(self).events@[e as int].winner matches Some(
                (wv, wt),
            ) ==> (wt < manager_count(old(self).events@[e as int].kind) ==> forall|l: usize|
                #[trigger] old(self).managers@[old(self).events@[e as int].first_manager + wt].spec_subscribers().contains(
                    Callback::Log { log: l },
                ) && old(self).live.logs@[l as int] ==> heard_after(final(self).logs@, old(self).logs@, l as int, wv))),
    {
        let ghost s0 = *self;
        proof {
            lemma_step_refl(s0);
            lemma_calm_refl(s0);
        }
        assert(self.event_ok(e as int));
        let s = self.shape(e);
        match s {
            Shape::FilterMap => self.notify_list(d, e, 0, &v, true),
            Shape::Tag => self.notify_list(d, e, 0, &v, true),
            Shape::SwitchHold => self.notify_list(d, e, 0, &v, true),
            Shape::Leftmost => {
                let w = match &self.events[e].winner {
                    Some((x, t)) => Some((x.clone(), *t)),
                    None => None,
                };
                self.events[e].winner = None;
                let ghost s1 = *self;
                proof {
                    lemma_inv_frame(s0, *self);
                    lemma_logs_extend_refl(self.logs@);
                    assert(self.shape_kept(s0));
                    assert(self.step_ok(s0));
                    lemma_calm_frame(s0, *self);
                }
                match w {
                    Some((wv, wt)) => {
                        let n = self.manager_count_of(e);
                        if wt < n {
                            proof {
                                assert(self.events@[e as int].first_manager == s0.events@[e as int].first_manager);
                                let mm = s0.events@[e as int].first_manager + wt;
                                if s0.list_fires_ok(mm) {
                                    lemma_list_fires_kept(s0, s1, mm);
                                }
                            }
                            let r = self.notify_list(d, e, wt, &wv, false);
                            proof {
                                lemma_step_trans(s0, s1, *self);
                                lemma_calm_trans(s0, s1, *self);
                            }
                            r
                        } else {
                            Ok(())
                        }
                    },
                    None => Ok(()),
                }
            },
            Shape::Combine => {
                let p = match &self.events[e].pending {
                    Some(x) => Some(x.clone()),
                    None => None,
                };
                self.events[e].pending = None;
                let ghost s1 = *self;
                proof {
                    lemma_inv_frame(s0, *self);
                    lemma_logs_extend_refl(self.logs@);
                    assert(self.shape_kept(s0));
                    assert(self.step_ok(s0));
                    lemma_calm_frame(s0, *self);
                    let mm = s0.events@[e as int].first_manager + 0;
                    if s0.list_fires_ok(mm) {
                        lemma_list_fires_kept(s0, s1, mm);
                    }
                }
                match p {
                    Some(pv) => {
                        let r = self.notify_list(d, e, 0, &pv, true);
                        let ghost s2 = *self;
                        proof {
                            lemma_step_trans(s0, s1, *self);
                            lemma_calm_trans(s0, s1, *self);
                        }
                        if r.is_err() {
                            return r;
                        }
                        assert(self.event_ok(e as int));
                        assert(self.events@[e as int].kind == s0.events@[e as int].kind);
                        let nm = self.managers.len();
                        let m = self.events[e].first_manager + 1;
                        let _ = self.managers[m].consolidate(&self.live);
                        proof {
                            assert(self.managers@[m as int].spec_subscribers() == live_only(
                                s2.managers@[m as int].spec_subscribers(),
                                s2.live,
                            ));
                            lemma_live_only(s2.managers@[m as int].spec_subscribers(), s2.live);
                            assert forall|mm: int, i: int|
                                0 <= mm < self.managers@.len() && 0 <= i
                                    < self.managers@[mm].spec_subscribers().len() implies self.cb_ok(
                                #[trigger] self.managers@[mm].spec_subscribers()[i],
                            ) by {
                                if mm == m {
                                    let subs0 = s2.managers@[mm].spec_subscribers();
                                    let x = self.managers@[mm].spec_subscribers()[i];
                                    assert(subs0.contains(x));
                                    let k = choose|k: int| 0 <= k < subs0.len() && subs0[k] == x;
                                    assert(s2.cb_ok(subs0[k]));
                                } else {
                                    assert(s2.cb_ok(s2.managers@[mm].spec_subscribers()[i]));
                                }
                            }
                            assert forall|ee: int| 0 <= ee < self.events@.len() implies #[trigger] self.event_ok(ee) by {
                                assert(s2.event_ok(ee));
                            }
                            assert forall|x: int| 0 <= x < self.behaviors@.len() implies #[trigger] self.behavior_ok(x) by {
                                assert(s2.behavior_ok(x));
                            }
                            lemma_logs_extend_refl(self.logs@);
                            assert(self.shape_kept(s2));
                            assert forall|mm: int, c: Callback|
                                0 <= mm < s2.managers@.len() && #[trigger] s2.managers@[mm].spec_subscribers().contains(c)
                                    && s2.live.alive(c) && self.live.alive(c) implies self.managers@[mm].spec_subscribers().contains(c) by {
                                if mm == m {
                                    lemma_live_only_keeps(s2.managers@[mm].spec_subscribers(), s2.live, c);
                                }
                            }
                            assert(self.step_ok(s2));
                            lemma_step_trans(s0, s2, *self);
                            assert(self.events@ =~= s2.events@);
                            if s2.q_consistent() {
                                lemma_q_same(s2, *self);
                            }
                            assert forall|mm: int, c: Callback|
                                0 <= mm < self.managers@.len() && #[trigger] self.managers@[mm].spec_subscribers().contains(c) && c is Main
                                    && self.live.alive(c) implies (mm < s2.managers@.len() && s2.managers@[mm].spec_subscribers().contains(c)
                                    && s2.live.alive(c)) || self.main_sound(mm, c) by {
                                if mm == m {
                                    lemma_live_only(s2.managers@[mm].spec_subscribers(), s2.live);
                                }
                                assert(s2.managers@[mm].spec_subscribers().contains(c));
                            }
                            assert(self.calm(s2));
                            lemma_calm_trans(s0, s2, *self);
                        }
                        Ok(())
                    },
                    None => Ok(()),
                }
            },
            _ => Ok(()),
        }
    }
}


impl Runtime {
    /// Run one scheduled action.
    pub(crate) fn run_action<D: Fn(usize, &Vec<AnyValue>) -> Option<AnyValue>>(&mut self, d: &D, a: Action) -> (r: Result<(), PropagationError>)
        requires
            old(self).wf(),
            is_dispatcher(*d),
            old(self).action_ok(a),
        ensures
            final(self).step_ok(*old(self)),
            a matches Action::Trigger { event, .. } ==> !final(self).events@[event as int].scheduled,
            a matches Action::Trigger { event, value } ==> (old(self).events@[event as int].kind is External && r is Ok
                ==> forall|l: usize|
                #[trigger] old(self).managers@[old(self).events@[event as int].first_manager as int].spec_subscribers().contains(
                    Callback::Log { log: l },
                ) && old(self).live.logs@[l as int] ==> heard_after(final(self).logs@, old(self).logs@, l as int, value)),
            a matches Action::Hold { behavior, value } ==> (old(self).behaviors@[behavior as int].kind is Hold
                ==> final(self).behaviors@[behavior as int].value == value),
            a matches Action::Switch { event, inner } ==> (old(self).events@[event as int].kind is SwitchHold
                ==> final(self).events@[event as int].inner == Some(inner)),
            a matches Action::Trigger { event, value } ==> (old(self).events@[event as int].kind is External && r is Ok
                ==> forall|b: usize|
                #[trigger] old(self).managers@[old(self).events@[event as int].first_manager + 0].spec_subscribers().contains(
                    Callback::Hold { behavior: b },
                ) ==> action_pending(final(self).queue@, Action::Hold { behavior: b, value })),
            !(a is Hold) ==> final(self).behaviors@ == old(self).behaviors@,
            a matches Action::Hold { behavior, .. } ==> forall|x: int|
                0 <= x < old(self).behaviors@.len() && x != behavior ==> #[trigger] final(self).behaviors@[x]
                    == old(self).behaviors@[x],
            forall|b: usize, w: AnyValue|
                #[trigger] action_pending(final(self).queue@, Action::Hold { behavior: b, value: w }) ==> action_pending(
                    old(self).queue@,
                    Action::Hold { behavior: b, value: w },
                ) || match a {
                    Action::Trigger { event, value } => old(self).events@[event as int].kind is External && w == value
                        && old(self).managers@[old(self).events@[event as int].first_manager + 0].spec_subscribers().contains(
                        Callback::Hold { behavior: b },
                    ),
                    Action::Main { event, .. } => !(old(self).events@[event as int].kind is External) && exists|ix: int|
                        0 <= ix < manager_count(old(self).events@[event as int].kind) && #[trigger] old(self).managers@[old(
                            self,
                        ).events@[event as int].first_manager + ix].spec_subscribers().contains(Callback::Hold { behavior: b }),
                    _ => false,
                },
            (a matches Action::Switch { event, .. } ==> !(old(self).events@[event as int].kind is SwitchHold))
                ==> final(self).calm(*old(self)),
            old(self).action_fires_ok(a) ==> r is Ok,
            forall|sw: usize, j: usize|
                #[trigger] action_pending(final(self).queue@, Action::Switch { event: sw, inner: j }) ==> action_pending(
                    old(self).queue@,
                    Action::Switch { event: sw, inner: j },
                ) || match a {
                    Action::Trigger { event, value } => old(self).events@[event as int].kind is External && value
                        == AnyValue::Event(j) && old(self).managers@[old(self).events@[event as int].first_manager
                        + 0].spec_subscribers().contains(Callback::SwitchOuter { event: sw }),
                    Action::Main { event, .. } => !(old(self).events@[event as int].kind is External) && exists|ix: int|
                        0 <= ix < manager_count(old(self).events@[event as int].kind) && #[trigger] old(self).managers@[old(
                            self,
                        ).events@[event as int].first_manager + ix].spec_subscribers().contains(
                            Callback::SwitchOuter { event: sw },
                        ),
                    _ => false,
                },
            a matches Action::Trigger { event, value } ==> (old(self).events@[event as int].kind is External && r is Ok
                ==> forall|sw: usize, j: usize|
                old(self).managers@[old(self).events@[event as int].first_manager + 0].spec_subscribers().contains(
                    Callback::SwitchOuter { event: sw },
                ) && value == AnyValue::Event(j) && j < old(self).events@.len() ==> #[trigger] action_pending(
                    final(self).queue@,
                    Action::Switch { event: sw, inner: j },
                )),
            forall|x: int|
                0 <= x < old(self).events@.len() && !(a matches Action::Switch { event, .. } && event == x)
                    ==> #[trigger] final(self).events@[x].inner == old(self).events@[x].inner,
            a is Trigger ==> final(self).live.tokens@ == old(self).live.tokens@,
            a matches Action::Trigger { event, value } ==> (old(self).events@[event as int].kind is External && r is Ok
                ==> forall|z: usize, t: usize, tok: usize|
                #[trigger] old(self).managers@[old(self).events@[event as int].first_manager + 0].spec_subscribers().contains(
                    Callback::Main { event: z, tag: t, token: tok },
                ) && old(self).live.alive(Callback::Main { event: z, tag: t, token: tok }) ==> action_pending(
                    final(self).queue@,
                    Action::Main { event: z, value, tag: t },
                )),
            a matches Action::Main { event, value, .. } ==> (maps_one_input(old(self).events@[event as int].kind) && r is Ok
                ==> forall|l: usize|
                #[trigger] old(self).managers@[old(self).events@[event as int].first_manager + 0].spec_subscribers().contains(
                    Callback::Log { log: l },
                ) && old(self).live.logs@[l as int] ==> (fired_value(*d, *old(self), old(self).events@[event as int].kind, value)
                    matches Some(w) ==> heard_after(final(self).logs@, old(self).logs@, l as int, w))),
    {
        let ghost s0 = *self;
        proof {
            lemma_step_refl(s0);
            lemma_calm_refl(s0);
        }
        match a {
            Action::Trigger { event, value } => {
                self.events[event].scheduled = false;
                let ghost s1 = *self;
                proof {
                    lemma_inv_frame(s0, *self);
                    lemma_logs_extend_refl(self.logs@);
                    assert(self.shape_kept(s0));
                    assert(self.step_ok(s0));
                    assert forall|ee: int| 0 <= ee < self.events@.len() implies (#[trigger] self.events@[ee]).kind
                        == s0.events@[ee].kind && self.events@[ee].inner == s0.events@[ee].inner by {}
                    lemma_calm_frame(s0, *self);
                }
                match self.shape(event) {
                    Shape::External => {
                        proof {
                            let mm = s0.events@[event as int].first_manager + 0;
                            if s0.action_fires_ok(a) {
                                assert(s0.list_fires_ok(mm));
                                lemma_list_fires_kept(s0, s1, mm);
                            }
                        }
                        let r = self.notify_list(d, event, 0, &value, false);
                        proof {
                            lemma_step_trans(s0, s1, *self);
                            lemma_calm_trans(s0, s1, *self);
                            if r is Ok {
                                assert forall|l: usize|
                                    #[trigger] s0.managers@[s0.events@[event as int].first_manager as int].spec_subscribers().contains(
                                        Callback::Log { log: l },
                                    ) && s0.live.logs@[l as int] implies heard_after(self.logs@, s0.logs@, l as int, value) by {
                                    assert(s1.managers@[s1.events@[event as int].first_manager + 0].spec_subscribers().contains(
                                        Callback::Log { log: l },
                                    ));
                                }
                            }
                        }
                        r
                    },
                    _ => Ok(()),
                }
            },
            Action::Main { event, value, tag } => self.handle_main(d, event, value, tag),
            Action::Hold { behavior, value } => {
                let is_hold = match &self.behaviors[behavior].kind {
                    BehaviorKind::Hold { .. } => true,
                    _ => false,
                };
                if is_hold {
                    self.behaviors[behavior].value = value;
                    proof {
                        lemma_inv_frame(s0, *self);
                        lemma_logs_extend_refl(self.logs@);
                        assert(self.shape_kept(s0));
                        assert forall|x: int| 0 <= x < self.behaviors@.len() implies (#[trigger] self.behaviors@[x]).kind
                            == s0.behaviors@[x].kind && (s0.behaviors@[x].kind is Hold
                            || self.behaviors@[x].value == s0.behaviors@[x].value) by {}
                        assert(self.events@ =~= s0.events@);
                        lemma_calm_frame(s0, *self);
                    }
                }
                Ok(())
            },
            Action::Switch { event, inner } => {
                match self.shape(event) {
                    Shape::SwitchHold => {
                        self.events[event].inner = Some(inner);
                        let ghost s1 = *self;
                        proof {
                            lemma_inv_frame(s0, *self);
                            lemma_logs_extend_refl(self.logs@);
                            assert(self.shape_kept(s0));
                            assert(self.step_ok(s0));
                        }
                        assert(self.event_ok(event as int));
                        let m = self.events[event].first_manager;
                        let cbs = self.managers[m].consolidate(&self.live);
                        let ghost s2 = *self;
                        proof {
                            lemma_live_only(s1.managers@[m as int].spec_subscribers(), s1.live);
                            assert forall|mm: int, i: int|
                                0 <= mm < self.managers@.len() && 0 <= i
                                    < self.managers@[mm].spec_subscribers().len() implies self.cb_ok(
                                #[trigger] self.managers@[mm].spec_subscribers()[i],
                            ) by {
                                if mm == m {
                                    let subs0 = s1.managers@[mm].spec_subscribers();
                                    let x = self.managers@[mm].spec_subscribers()[i];
                                    assert(subs0.contains(x));
                                    let k = choose|k: int| 0 <= k < subs0.len() && subs0[k] == x;
                                    assert(s1.cb_ok(subs0[k]));
                                } else {
                                    assert(s1.cb_ok(s1.managers@[mm].spec_subscribers()[i]));
                                }
                            }
                            assert forall|ee: int| 0 <= ee < self.events@.len() implies #[trigger] self.event_ok(ee) by {
                                assert(s1.event_ok(ee));
                            }
                            assert forall|x: int| 0 <= x < self.behaviors@.len() implies #[trigger] self.behavior_ok(x) by {
                                assert(s1.behavior_ok(x));
                            }
                            lemma_logs_extend_refl(self.logs@);
                            assert(self.shape_kept(s1));
                            assert forall|mm: int, c: Callback|
                                0 <= mm < s1.managers@.len() && #[trigger] s1.managers@[mm].spec_subscribers().contains(c)
                                    && s1.live.alive(c) && self.live.alive(c) implies self.managers@[mm].spec_subscribers().contains(c) by {
                                if mm == m {
                                    lemma_live_only_keeps(s1.managers@[mm].spec_subscribers(), s1.live, c);
                                }
                            }
                            assert(self.step_ok(s1));
                            lemma_step_trans(s0, s1, *self);
                        }
                        if cbs.len() == 0 {
                            self.managers[m].clear_subscriber(&mut self.live);
                            proof {
                                assert forall|mm: int| 0 <= mm < self.managers@.len() implies (#[trigger] self.managers@[mm]).spec_subscribers()
                                    == s2.managers@[mm].spec_subscribers() && self.managers@[mm].spec_owner() == s2.managers@[mm].spec_owner() by {}
                                lemma_inv_frame(s2, *self);
                                lemma_logs_extend_refl(self.logs@);
                                assert(self.shape_kept(s2));
                                assert(self.step_ok(s2));
                                lemma_step_trans(s0, s2, *self);
                            }
                        } else {
                            self.populate_at(event, 0, true);
                            proof {
                                lemma_step_trans(s0, s2, *self);
                            }
                        }
                        Ok(())
                    },
                    _ => Ok(()),
                }
            },
        }
    }

    /// Propagate scheduled events: run the scheduled actions, lowest height
    /// first, until none is left.
    pub fn propagate<D: Fn(usize, &Vec<AnyValue>) -> Option<AnyValue>>(&mut self, d: &D) -> (r: Result<(), PropagationError>)
        requires
            old(self).wf(),
            is_dispatcher(*d),
        ensures
            final(self).wf(),
            final(self).keeps(*old(self)),
            old(self).propagating() ==> r is Err && *final(self) == *old(self),
            r is Ok ==> !final(self).propagating() && final(self).queue_empty(),
            r is Ok ==> forall|e: int|
                0 <= e < final(self).num_events() ==> !(#[trigger] final(self).event_node(e)).scheduled,
            r is Ok ==> forall|e: usize, v: AnyValue, l: int|
                #![trigger old(self).pending_at(0).contains(Action::Trigger { event: e, value: v }), old(self).listens(e as int, l)]
                old(self).pending_at(0).contains(Action::Trigger { event: e, value: v }) && (e as int) < old(self).num_events()
                    && old(self).event_node(e as int).kind is External && old(self).listens(e as int, l)
                    ==> final(self).heard_since(*old(self), l, v),
            r is Ok ==> forall|e: usize, v: AnyValue, b: usize|
                #[trigger] old(self).hold_setup(e, v, b) ==> final(self).behavior_node(b as int).value == v,
            r is Ok ==> forall|e: usize, b: usize|
                #[trigger] old(self).hold_still(e, b) ==> final(self).behavior_node(b as int).value == old(
                    self,
                ).behavior_node(b as int).value,
            r is Ok ==> forall|o: usize, j: usize, sw: usize|
                #[trigger] old(self).switch_setup(o, j, sw) ==> final(self).event_node(sw as int).inner == Some(j),
            r is Ok ==> forall|e: usize, v: AnyValue, fe: usize, l: int|
                #[trigger] old(self).derived_setup(e, v, fe, l) ==> (fired_value(*d, *old(self), old(self).event_node(
                    fe as int,
                ).kind, v) matches Some(w) ==> final(self).heard_since(*old(self), l, w)),
            !old(self).propagating() && old(self).heights_ok() && old(self).idle_queue() && old(self).num_events()
                < usize::MAX ==> r is Ok,
            r is Ok ==> final(self).idle_queue(),
            r is Ok && old(self).heights_ok() && (forall|e: int|
                0 <= e < old(self).num_events() ==> !(#[trigger] old(self).event_node(e).kind is SwitchHold))
                ==> final(self).heights_ok(),
    {
        let ghost s0 = *self;
        let ghost good = s0.heights_ok() && s0.idle_queue() && s0.events@.len() < usize::MAX;
        let ghost stay = s0.heights_ok() && forall|e: int|
            0 <= e < s0.num_events() ==> !(#[trigger] s0.event_node(e).kind is SwitchHold);
        if self.height.is_some() {
            proof {
                lemma_logs_extend_refl(s0.logs@);
                assert forall|ee: int| 0 <= ee < self.events@.len() implies (#[trigger] self.events@[ee]).kind
                    == s0.events@[ee].kind && self.events@[ee].first_manager == s0.events@[ee].first_manager by {}
            }
            return Err(PropagationError::AlreadyPropagating);
        }
        proof {
            lemma_logs_extend_refl(s0.logs@);
            assert forall|ee: int| 0 <= ee < self.events@.len() implies (#[trigger] self.events@[ee]).kind
                == s0.events@[ee].kind && self.events@[ee].first_manager == s0.events@[ee].first_manager by {}
            assert forall|e: usize, v: AnyValue, b: usize| #[trigger] s0.hold_setup(e, v, b) implies hold_track(
                self.queue@,
                Seq::empty(),
                self.behaviors@,
                e,
                v,
                b,
            ) by {
                lemma_hold_init(s0, e, v, b);
            }
            assert forall|e: usize, b: usize| #[trigger] s0.hold_still(e, b) implies still_track(
                self.queue@,
                Seq::empty(),
                self.behaviors@,
                e,
                b,
                s0.behaviors@[b as int].value,
            ) by {
                lemma_still_init(s0, e, b);
            }
            assert forall|o: usize, j: usize, sw: usize| #[trigger] s0.switch_setup(o, j, sw) implies switch_track(
                self.queue@,
                Seq::empty(),
                self.events@,
                o,
                j,
                sw,
            ) by {
                lemma_switch_init(s0, o, j, sw);
            }
            assert forall|e: usize, v: AnyValue, fe: usize, l: int| #[trigger] s0.derived_setup(e, v, fe, l) implies derived_track(
                *d,
                s0,
                *self,
                Seq::empty(),
                e,
                v,
                fe,
                l,
                derived_sub(s0, e, fe).0,
            ) by {
                lemma_derived_init(*d, s0, e, v, fe, l);
            }
            if good {
                lemma_idle_consistent(s0);
            }
        }
        loop
            invariant
                self.wf(),
                self.same_graph(s0),
                logs_extend(self.logs@, s0.logs@),
                dead_logs_kept(self.logs@, s0.logs@, s0.live.logs@),
                s0 == *old(self),
                s0.height is None,
                is_dispatcher(*d),
                forall|e: int|
                    0 <= e < self.events@.len() && (#[trigger] self.events@[e]).scheduled ==> trigger_pending(
                        self.queue@,
                        e,
                    ),
                self.height is None ==> *self == s0,
                s0.wf(),
                self.tokens_mono(s0),
                self.subs_kept_live(s0),
                self.height is Some ==> forall|e: usize, v: AnyValue, l: int|
                    #![trigger s0.pending_at(0).contains(Action::Trigger { event: e, value: v }), s0.listens(e as int, l)]
                    s0.pending_at(0).contains(Action::Trigger { event: e, value: v }) && (e as int) < s0.events@.len()
                    && s0.events@[e as int].kind is External && s0.listens(e as int, l) ==> heard_after(self.logs@, s0.logs@, l, v),
                forall|e: usize, v: AnyValue, b: usize|
                    #[trigger] s0.hold_setup(e, v, b) ==> hold_track(self.queue@, Seq::empty(), self.behaviors@, e, v, b),
                forall|e: usize, b: usize|
                    #[trigger] s0.hold_still(e, b) ==> still_track(
                        self.queue@,
                        Seq::empty(),
                        self.behaviors@,
                        e,
                        b,
                        s0.behaviors@[b as int].value,
                    ),
                forall|o: usize, j: usize, sw: usize|
                    #[trigger] s0.switch_setup(o, j, sw) ==> switch_track(self.queue@, Seq::empty(), self.events@, o, j, sw),
                forall|e: usize, v: AnyValue, fe: usize, l: int|
                    #[trigger] s0.derived_setup(e, v, fe, l) ==> derived_track(
                        *d,
                        s0,
                        *self,
                        Seq::empty(),
                        e,
                        v,
                        fe,
                        l,
                        derived_sub(s0, e, fe).0,
                    ),
                good == (s0.heights_ok() && s0.idle_queue() && s0.events@.len() < usize::MAX),
                good ==> self.height == Some(usize::MAX) || (self.spec_heights_ok() && self.q_consistent()),
                stay == (s0.heights_ok() && forall|e: int|
                    0 <= e < s0.num_events() ==> !(#[trigger] s0.event_node(e).kind is SwitchHold)),
                stay ==> self.spec_heights_ok(),
            decreases (match self.height {
                Some(h) => usize::MAX - h,
                None => usize::MAX + 1,
            }),
        {
            if self.queue.len() == 0 {
                let ghost s1 = *self;
                self.height = None;
                proof {
                    assert forall|e: int| 0 <= e < self.events@.len() && (#[trigger] self.events@[e]).scheduled implies trigger_pending(
                        self.queue@,
                        e,
                    ) by {
                        assert(trigger_pending(s1.queue@, e));
                    }
                    lemma_inv_frame(s1, *self);
                    assert forall|e: int| 0 <= e < self.events@.len() implies !(#[trigger] self.events@[e]).scheduled by {
                        if self.events@[e].scheduled {
                            assert(trigger_pending(s1.queue@, e));
                        }
                    }
                    assert forall|e: usize, v: AnyValue, l: int|
                        #![trigger s0.pending_at(0).contains(Action::Trigger { event: e, value: v }), s0.listens(e as int, l)]
                        s0.pending_at(0).contains(Action::Trigger { event: e, value: v }) && (e as int) < s0.events@.len()
                    && s0.events@[e as int].kind is External && s0.listens(e as int, l) implies self.heard_since(s0, l, v) by {
                        if s1.height is None {
                            assert(s0.pending_at(0) =~= Seq::<Action>::empty());
                        }
                        assert(heard_after(self.logs@, s0.logs@, l, v));
                    }
                    if stay {
                        lemma_heights_same(s1, *self);
                    }
                    assert forall|e: usize, v: AnyValue, b: usize| #[trigger] s0.hold_setup(e, v, b) implies self.behavior_node(
                        b as int,
                    ).value == v by {
                        assert(hold_track(s1.queue@, Seq::empty(), s1.behaviors@, e, v, b));
                        assert(!action_pending(s1.queue@, Action::Trigger { event: e, value: v }));
                        assert(!action_pending(s1.queue@, Action::Hold { behavior: b, value: v }));
                    }
                    assert forall|e: usize, b: usize| #[trigger] s0.hold_still(e, b) implies self.behavior_node(
                        b as int,
                    ).value == s0.behavior_node(b as int).value by {
                        assert(still_track(s1.queue@, Seq::empty(), s1.behaviors@, e, b, s0.behaviors@[b as int].value));
                    }
                    assert forall|o: usize, j: usize, sw: usize| #[trigger] s0.switch_setup(o, j, sw) implies self.event_node(
                        sw as int,
                    ).inner == Some(j) by {
                        assert(switch_track(s1.queue@, Seq::empty(), s1.events@, o, j, sw));
                        assert(!action_pending(s1.queue@, Action::Trigger { event: o, value: AnyValue::Event(j) }));
                        assert(!action_pending(s1.queue@, Action::Switch { event: sw, inner: j }));
                    }
                    assert forall|e: usize, v: AnyValue, fe: usize, l: int| #[trigger] s0.derived_setup(e, v, fe, l) implies (
                    fired_value(*d, s0, s0.event_node(fe as int).kind, v) matches Some(w) ==> self.heard_since(s0, l, w)) by {
                        let t = derived_sub(s0, e, fe).0;
                        assert(derived_track(*d, s0, s1, Seq::empty(), e, v, fe, l, t));
                        assert(!action_pending(s1.queue@, Action::Trigger { event: e, value: v }));
                        assert(!action_pending(s1.queue@, Action::Main { event: fe, value: v, tag: t }));
                        assert(!Seq::<Action>::empty().contains(Action::Trigger { event: e, value: v }));
                        assert(!Seq::<Action>::empty().contains(Action::Main { event: fe, value: v, tag: t }));
                    }
                }
                return Ok(());
            }
            let ghost s1 = *self;
            let round = self.queue.remove(0);
            let ghost prev = s1.height;
            self.height = Some(round.height);
            proof {
                assert(s1.queue@[0] == round);
                if stay {
                    lemma_heights_same(s1, *self);
                }
                if good {
                    if s1.height == Some(usize::MAX) {
                        assert(s1.queue@[0].height > usize::MAX);
                    }
                    lemma_actions_at(s1.queue@, 0);
                    assert forall|k: int| 0 <= k < round.actions@.len() implies s1.action_height_ok(
                        round.height,
                        #[trigger] round.actions@[k],
                    ) by {
                        assert(actions_at(s1.queue@, round.height)[k] == round.actions@[k]);
                        assert(actions_at(s1.queue@, round.height).contains(round.actions@[k]));
                    }
                    assert forall|h: usize, x: Action| #[trigger] actions_at(self.queue@, h).contains(x) implies self.action_height_ok(h, x) by {
                        lemma_pop_at_height(s1.queue@, h, x);
                    }
                    assert(self.events@ == s1.events@ && self.managers@ == s1.managers@ && self.live == s1.live);
                    if round.height < usize::MAX {
                        lemma_heights_same(s1, *self);
                        assert forall|k: int| 0 <= k < round.actions@.len() implies self.action_height_ok(
                            round.height,
                            #[trigger] round.actions@[k],
                        ) by {
                            assert(s1.action_height_ok(round.height, round.actions@[k]));
                        }
                    }
                    assert forall|k: int| 0 <= k < round.actions@.len() && round.height == usize::MAX implies !(
                    #[trigger] round.actions@[k] is Trigger) && !(round.actions@[k] is Main) by {
                        assert(s1.action_height_ok(round.height, round.actions@[k]));
                        if let Action::Main { event, .. } = round.actions@[k] {
                            assert(s1.action_ok(s1.queue@[0].actions@[k]));
                            assert(s1.events.len() == s1.events@.len());
                            assert(s1.height_of(event as int) < usize::MAX);
                        }
                    }
                }
                assert forall|e: usize, v: AnyValue, b: usize| #[trigger] s0.hold_setup(e, v, b) implies hold_track(
                    self.queue@,
                    round.actions@.subrange(0, round.actions@.len() as int),
                    self.behaviors@,
                    e,
                    v,
                    b,
                ) by {
                    lemma_hold_pop(s1.queue@, s1.behaviors@, e, v, b);
                    assert(round.actions@.subrange(0, round.actions@.len() as int) =~= round.actions@);
                }
                assert forall|e: usize, b: usize| #[trigger] s0.hold_still(e, b) implies still_track(
                    self.queue@,
                    round.actions@.subrange(0, round.actions@.len() as int),
                    self.behaviors@,
                    e,
                    b,
                    s0.behaviors@[b as int].value,
                ) by {
                    lemma_still_pop(s1.queue@, s1.behaviors@, e, b, s0.behaviors@[b as int].value);
                    assert(round.actions@.subrange(0, round.actions@.len() as int) =~= round.actions@);
                }
                assert forall|o: usize, j: usize, sw: usize| #[trigger] s0.switch_setup(o, j, sw) implies switch_track(
                    self.queue@,
                    round.actions@.subrange(0, round.actions@.len() as int),
                    self.events@,
                    o,
                    j,
                    sw,
                ) by {
                    lemma_switch_pop(s1.queue@, s1.events@, o, j, sw);
                    assert(round.actions@.subrange(0, round.actions@.len() as int) =~= round.actions@);
                }
                assert(queue_sorted(s1.queue@));
                assert forall|e: usize, v: AnyValue, fe: usize, l: int| #[trigger] s0.derived_setup(e, v, fe, l) implies derived_track(
                    *d,
                    s0,
                    *self,
                    round.actions@.subrange(0, round.actions@.len() as int),
                    e,
                    v,
                    fe,
                    l,
                    derived_sub(s0, e, fe).0,
                ) by {
                    lemma_derived_pop(*d, s0, s1, *self, e, v, fe, l, derived_sub(s0, e, fe).0);
                    assert(round.actions@.subrange(0, round.actions@.len() as int) =~= round.actions@);
                }
                assert forall|i: int| 0 <= i < self.queue@.len() && self.height is Some implies #[trigger] self.queue@[i].height
                    > self.height->0 by {
                    assert(self.queue@[i] == s1.queue@[i + 1]);
                    assert(s1.queue@[0].height < s1.queue@[i + 1].height);
                }
                assert forall|i: int, k: int|
                    0 <= i < self.queue@.len() && 0 <= k < self.queue@[i].actions@.len() implies self.action_ok(
                    #[trigger] self.queue@[i].actions@[k],
                ) by {
                    assert(self.queue@[i] == s1.queue@[i + 1]);
                    assert(s1.action_ok(s1.queue@[i + 1].actions@[k]));
                }
                assert forall|x: int, y: int| 0 <= x < y < self.queue@.len() implies self.queue@[x].height
                    < self.queue@[y].height by {
                    assert(self.queue@[x] == s1.queue@[x + 1]);
                    assert(self.queue@[y] == s1.queue@[y + 1]);
                }
                assert(self.queue_ok());
                lemma_inv_frame(s1, *self);
                assert forall|k: int| 0 <= k < round.actions@.len() implies self.action_ok(#[trigger] round.actions@[k]) by {
                    assert(s1.action_ok(s1.queue@[0].actions@[k]));
                }
                assert(prev is Some ==> round.height > prev->0);
                assert forall|e: int| 0 <= e < self.events@.len() && (#[trigger] self.events@[e]).scheduled implies trigger_pending(
                    self.queue@,
                    e,
                ) || exists|k: int|
                    0 <= k < round.actions@.len() && (#[trigger] round.actions@[k] matches Action::Trigger {
                        event,
                        ..
                    } && event == e) by {
                    assert(trigger_pending(s1.queue@, e));
                    let (j, k) = choose|j: int, k: int|
                        0 <= j < s1.queue@.len() && 0 <= k < s1.queue@[j].actions@.len() && (
                        #[trigger] s1.queue@[j].actions@[k] matches Action::Trigger { event, .. } && event
                            == e);
                    if j == 0 {
                        assert(s1.queue@[0] == round);
                        assert(round.actions@ == s1.queue@[0].actions@);
                        assert(round.actions@[k] == s1.queue@[0].actions@[k]);
                        assert(round.actions@[k] matches Action::Trigger { event, .. } && event == e);
                    } else {
                        assert(self.queue@[j - 1] == s1.queue@[j]);
                        assert(self.queue@[j - 1].actions@[k] == s1.queue@[j].actions@[k]);
                        assert(0 <= j - 1 < self.queue@.len());
                        assert(trigger_pending(self.queue@, e));
                    }
                }
                if prev is None {
                    if round.height == 0 {
                        lemma_actions_at(s0.queue@, 0);
                        assert(s0.pending_at(0) == round.actions@);
                    } else {
                        assert(!exists|x: int| 0 <= x < s0.queue@.len() && s0.queue@[x].height == 0) by {
                            if exists|x: int| 0 <= x < s0.queue@.len() && s0.queue@[x].height == 0 {
                                let x = choose|x: int| 0 <= x < s0.queue@.len() && s0.queue@[x].height == 0;
                                if x > 0 {
                                    assert(s0.queue@[0].height < s0.queue@[x].height);
                                }
                            }
                        }
                        assert(s0.pending_at(0) =~= Seq::<Action>::empty());
                    }
                }
            }
            let ghost first_round = prev is None;
            let n = round.actions.len();
            let mut i: usize = 0;
            while i < n
                invariant
                    self.wf(),
                    self.same_graph(s0),
                    logs_extend(self.logs@, s0.logs@),
                    dead_logs_kept(self.logs@, s0.logs@, s0.live.logs@),
                    self.height == Some(round.height),
                    n == round.actions@.len(),
                    i <= n,
                    forall|e: int|
                        0 <= e < self.events@.len() && (#[trigger] self.events@[e]).scheduled ==> trigger_pending(
                            self.queue@,
                            e,
                        ) || exists|k: int|
                            i <= k < n && (#[trigger] round.actions@[k] matches Action::Trigger {
                                event,
                                ..
                            } && event == e),
                    forall|k: int| 0 <= k < round.actions@.len() ==> self.action_ok(#[trigger] round.actions@[k]),
                    s0 == *old(self),
                    s0.height is None,
                    is_dispatcher(*d),
                    self.tokens_mono(s0),
                    self.subs_kept_live(s0),
                    s0.wf(),
                    first_round ==> (round.height == 0 && s0.pending_at(0) == round.actions@) || s0.pending_at(0)
                        == Seq::<Action>::empty(),
                    first_round ==> forall|e: usize, v: AnyValue, l: int|
                        #![trigger s0.pending_at(0).contains(Action::Trigger { event: e, value: v }), s0.listens(e as int, l)]
                        s0.pending_at(0).contains(Action::Trigger { event: e, value: v }) && (e as int) < s0.events@.len()
                    && s0.events@[e as int].kind is External && s0.listens(e as int, l) && (exists|k: int| 0 <= k < i && round.actions@[k] == (Action::Trigger { event: e, value: v }))
                            ==> heard_after(self.logs@, s0.logs@, l, v),
                    !first_round ==> forall|e: usize, v: AnyValue, l: int|
                        #![trigger s0.pending_at(0).contains(Action::Trigger { event: e, value: v }), s0.listens(e as int, l)]
                        s0.pending_at(0).contains(Action::Trigger { event: e, value: v }) && (e as int) < s0.events@.len()
                    && s0.events@[e as int].kind is External && s0.listens(e as int, l) ==> heard_after(self.logs@, s0.logs@, l, v),
                    forall|e: usize, v: AnyValue, b: usize|
                        #[trigger] s0.hold_setup(e, v, b) ==> hold_track(
                            self.queue@,
                            round.actions@.subrange(i as int, n as int),
                            self.behaviors@,
                            e,
                            v,
                            b,
                        ),
                    forall|e: usize, b: usize|
                        #[trigger] s0.hold_still(e, b) ==> still_track(
                            self.queue@,
                            round.actions@.subrange(i as int, n as int),
                            self.behaviors@,
                            e,
                            b,
                            s0.behaviors@[b as int].value,
                        ),
                    forall|o: usize, j: usize, sw: usize|
                        #[trigger] s0.switch_setup(o, j, sw) ==> switch_track(
                            self.queue@,
                            round.actions@.subrange(i as int, n as int),
                            self.events@,
                            o,
                            j,
                            sw,
                        ),
                    forall|e: usize, v: AnyValue, fe: usize, l: int|
                        #[trigger] s0.derived_setup(e, v, fe, l) ==> derived_track(
                            *d,
                            s0,
                            *self,
                            round.actions@.subrange(i as int, n as int),
                            e,
                            v,
                            fe,
                            l,
                            derived_sub(s0, e, fe).0,
                        ),
                    good == (s0.heights_ok() && s0.idle_queue() && s0.events@.len() < usize::MAX),
                    good ==> (round.height == usize::MAX ==> forall|k: int|
                        0 <= k < n ==> !(#[trigger] round.actions@[k] is Trigger) && !(round.actions@[k] is Main)),
                    good && round.height < usize::MAX ==> self.spec_heights_ok() && self.q_consistent() && forall|k: int|
                        0 <= k < n ==> self.action_height_ok(round.height, #[trigger] round.actions@[k]),
                    stay == (s0.heights_ok() && forall|e: int|
                    0 <= e < s0.num_events() ==> !(#[trigger] s0.event_node(e).kind is SwitchHold)),
                    stay ==> self.spec_heights_ok(),
                decreases n - i,
            {
                let ghost s2 = *self;
                let a = round.actions[i].clone();
                proof {
                    if good {
                        if round.height < usize::MAX {
                            assert(self.action_height_ok(round.height, round.actions@[i as int]));
                            lemma_fires_from_heights(*self, a);
                        } else {
                            assert(!(round.actions@[i as int] is Trigger) && !(round.actions@[i as int] is Main));
                        }
                    }
                }
                let r = self.run_action(d, a);
                proof {
                    if stay {
                        if let Action::Switch { event, .. } = round.actions@[i as int] {
                            assert(!(s0.event_node(event as int).kind is SwitchHold));
                            assert(s0.events@[event as int].kind == s2.events@[event as int].kind);
                        }
                        lemma_heights_kept(s2, *self);
                    }
                    if good && round.height < usize::MAX {
                        assert(!(a is Switch));
                        lemma_heights_kept(s2, *self);
                        lemma_events_kept_heights(s2, *self);
                        assert forall|k: int| 0 <= k < n implies self.action_height_ok(round.height, #[trigger] round.actions@[k]) by {
                            assert(s2.action_height_ok(round.height, round.actions@[k]));
                        }
                    }
                    crate::runtime::lemma_same_graph_trans(s0, s2, *self);
                    lemma_logs_extend_trans(s0.logs@, s2.logs@, self.logs@);
                    assert forall|l: int| 0 <= l < s0.logs@.len() && !s0.live.logs@[l] implies #[trigger] self.logs@[l]
                        == s0.logs@[l] by {
                        assert(s2.logs@[l] == s0.logs@[l]);
                    }
                    assert forall|e: int| 0 <= e < self.events@.len() && (#[trigger] self.events@[e]).scheduled implies trigger_pending(
                        self.queue@,
                        e,
                    ) || exists|k: int|
                        i + 1 <= k < n && (#[trigger] round.actions@[k] matches Action::Trigger {
                            event,
                            ..
                        } && event == e) by {
                        assert(s2.events@[e].scheduled);
                        if trigger_pending(s2.queue@, e) {
                        } else {
                            let k = choose|k: int|
                                i <= k < n && (#[trigger] round.actions@[k] matches Action::Trigger {
                                    event,
                                    ..
                                } && event == e);
                            assert(k != i);
                        }
                    }
                    lemma_live_trans(s0, s2, *self);
                    if r is Ok {
                        let rest = round.actions@.subrange(i as int, n as int);
                        assert(rest[0] == a);
                        assert(rest.drop_first() =~= round.actions@.subrange(i + 1, n as int));
                        assert forall|e: usize, v: AnyValue, b: usize| #[trigger] s0.hold_setup(e, v, b) implies hold_track(
                            self.queue@,
                            round.actions@.subrange(i + 1, n as int),
                            self.behaviors@,
                            e,
                            v,
                            b,
                        ) by {
                            let m = s0.events@[e as int].first_manager + 0;
                            assert(s0.event_ok(e as int));
                            assert(s2.events@[e as int].first_manager == s0.events@[e as int].first_manager);
                            assert(s2.events@[e as int].kind == s0.events@[e as int].kind);
                            assert(s2.behaviors@[b as int].kind == s0.behaviors@[b as int].kind);
                            assert(s0.managers@[m].spec_subscribers().contains(Callback::Hold { behavior: b }));
                            assert(s2.managers@[m].spec_subscribers().contains(Callback::Hold { behavior: b }));
                            lemma_hold_step(s2, *self, rest, e, v, b);
                        }
                        assert forall|e: usize, b: usize| #[trigger] s0.hold_still(e, b) implies still_track(
                            self.queue@,
                            round.actions@.subrange(i + 1, n as int),
                            self.behaviors@,
                            e,
                            b,
                            s0.behaviors@[b as int].value,
                        ) by {
                            assert(s2.events@[e as int].kind == s0.events@[e as int].kind);
                            assert(s2.behaviors@[b as int].kind == s0.behaviors@[b as int].kind);
                            lemma_still_step(s2, *self, rest, e, b, s0.behaviors@[b as int].value);
                        }
                        assert forall|o: usize, j: usize, sw: usize| #[trigger] s0.switch_setup(o, j, sw) implies switch_track(
                            self.queue@,
                            round.actions@.subrange(i + 1, n as int),
                            self.events@,
                            o,
                            j,
                            sw,
                        ) by {
                            let m = s0.events@[o as int].first_manager + 0;
                            assert(s0.event_ok(o as int));
                            assert(s2.events@[o as int].first_manager == s0.events@[o as int].first_manager);
                            assert(s2.events@[o as int].kind == s0.events@[o as int].kind);
                            assert(s2.events@[sw as int].kind == s0.events@[sw as int].kind);
                            assert(s0.managers@[m].spec_subscribers().contains(Callback::SwitchOuter { event: sw }));
                            assert(s2.managers@[m].spec_subscribers().contains(Callback::SwitchOuter { event: sw }));
                            lemma_switch_step(s2, *self, rest, o, j, sw);
                        }
                        assert forall|e: usize, v: AnyValue, fe: usize, l: int| #[trigger] s0.derived_setup(e, v, fe, l) implies derived_track(
                            *d,
                            s0,
                            *self,
                            round.actions@.subrange(i + 1, n as int),
                            e,
                            v,
                            fe,
                            l,
                            derived_sub(s0, e, fe).0,
                        ) by {
                            lemma_derived_step(*d, s0, s2, *self, rest, e, v, fe, l);
                        }
                    }
                    if r is Ok {
                        if first_round {
                            assert forall|e: usize, v: AnyValue, l: int|
                                #![trigger s0.pending_at(0).contains(Action::Trigger { event: e, value: v }), s0.listens(e as int, l)]
                                s0.pending_at(0).contains(Action::Trigger { event: e, value: v }) && (e as int) < s0.events@.len()
                    && s0.events@[e as int].kind is External && s0.listens(e as int, l) && (exists|k: int| 0 <= k < i + 1 && round.actions@[k] == (Action::Trigger { event: e, value: v }))
                                    implies heard_after(self.logs@, s0.logs@, l, v) by {
                                if exists|k: int| 0 <= k < i && round.actions@[k] == (Action::Trigger { event: e, value: v }) {
                                    lemma_heard_after_extend(s0.logs@, s2.logs@, self.logs@, l, v);
                                } else {
                                    assert(a == (Action::Trigger { event: e, value: v }));
                                    let m = s0.events@[e as int].first_manager as int;
                                    assert(s2.events@[e as int].kind == s0.events@[e as int].kind);
                                    assert(s2.events@[e as int].first_manager == s0.events@[e as int].first_manager);
                                    assert(s2.live.logs@ == s0.live.logs@);
                                    assert(s0.logs.len() == s0.logs@.len());
                                    assert(s0.event_ok(e as int));
                                    assert(s0.managers@[m].spec_subscribers().contains(Callback::Log { log: l as usize }));
                                    assert(s2.live.alive(Callback::Log { log: l as usize }));
                                    assert(s2.managers@[m].spec_subscribers().contains(Callback::Log { log: l as usize }));
                                    assert(heard_after(self.logs@, s2.logs@, l, v));
                                    lemma_heard_after_earlier(s0.logs@, s2.logs@, self.logs@, l, v);
                                }
                            }
                        } else {
                            assert forall|e: usize, v: AnyValue, l: int|
                                #![trigger s0.pending_at(0).contains(Action::Trigger { event: e, value: v }), s0.listens(e as int, l)]
                                s0.pending_at(0).contains(Action::Trigger { event: e, value: v }) && (e as int) < s0.events@.len()
                    && s0.events@[e as int].kind is External && s0.listens(e as int, l) implies heard_after(self.logs@, s0.logs@, l, v) by {
                                lemma_heard_after_extend(s0.logs@, s2.logs@, self.logs@, l, v);
                            }
                        }
                    }
                }
                match r {
                    Err(err) => {
                        return Err(err);
                    },
                    Ok(()) => {},
                }
                i = i + 1;
            }
            proof {
                assert(round.actions@.subrange(n as int, n as int) =~= Seq::<Action>::empty());
                if first_round {
                    assert forall|e: usize, v: AnyValue, l: int|
                        #![trigger s0.pending_at(0).contains(Action::Trigger { event: e, value: v }), s0.listens(e as int, l)]
                        s0.pending_at(0).contains(Action::Trigger { event: e, value: v }) && (e as int) < s0.events@.len()
                    && s0.events@[e as int].kind is External && s0.listens(e as int, l) implies heard_after(self.logs@, s0.logs@, l, v) by {
                        let k = choose|k: int| 0 <= k < s0.pending_at(0).len() && s0.pending_at(0)[k] == (Action::Trigger { event: e, value: v });
                        assert(round.actions@[k] == (Action::Trigger { event: e, value: v }));
                    }
                }
            }
        }
    }

    /// Outside listener `l` listens to external event `e`: it is still
    /// listening and is among the subscribers of the event.
    pub open spec fn listens(self, e: int, l: int) -> bool {
        &&& 0 <= l < self.num_logs()
        &&& self.log_alive(l)
        &&& self.manager(self.event_node(e).first_manager as int).spec_subscribers().contains(
            Callback::Log { log: l as usize },
        )
    }

    /// Listener `l` heard `v` in `self`, after what it had heard in `old`.
    pub open spec fn heard_since(self, old: Runtime, l: int, v: AnyValue) -> bool {
        &&& old.log_of(l).len() <= self.log_of(l).len()
        &&& self.log_of(l).subrange(old.log_of(l).len() as int, self.log_of(l).len() as int).contains(v)
    }

    /// External event `e` waits to fire with `v`, and with no other value;
    /// behavior `b` holds `e`, is subscribed to it, and no update of `b`
    /// waits.
    pub open spec fn hold_setup(self, e: usize, v: AnyValue, b: usize) -> bool {
        &&& self.pending_at(0).contains(Action::Trigger { event: e, value: v })
        &&& (e as int) < self.num_events()
        &&& self.event_node(e as int).kind is External
        &&& (b as int) < self.num_behaviors()
        &&& self.behavior_node(b as int).kind == (BehaviorKind::Hold { event: e })
        &&& self.manager(self.event_node(e as int).first_manager as int).spec_subscribers().contains(
            Callback::Hold { behavior: b },
        )
        &&& forall|h: usize, k: int|
            0 <= k < self.pending_at(h).len() ==> match #[trigger] self.pending_at(h)[k] {
                Action::Trigger { event, value } => event == e ==> value == v,
                Action::Hold { behavior, .. } => behavior != b,
                _ => true,
            }
    }

    /// Behavior `b` holds external event `e`, only firings wait, and none of
    /// them is a firing of `e`.
    pub open spec fn hold_still(self, e: usize, b: usize) -> bool {
        &&& self.idle_queue()
        &&& (e as int) < self.num_events()
        &&& self.event_node(e as int).kind is External
        &&& (b as int) < self.num_behaviors()
        &&& self.behavior_node(b as int).kind == (BehaviorKind::Hold { event: e })
        &&& forall|k: int|
            0 <= k < self.pending_at(0).len() ==> !(#[trigger] self.pending_at(0)[k] matches Action::Trigger {
                event,
                ..
            } && event == e)
    }

    /// External event `o` waits to fire with event `j`, and with no other
    /// value; switching event `s` follows the firings of `o`, hears them, and
    /// no switch of `s` waits.
    pub open spec fn switch_setup(self, o: usize, j: usize, s: usize) -> bool {
        &&& self.pending_at(0).contains(Action::Trigger { event: o, value: AnyValue::Event(j) })
        &&& (o as int) < self.num_events()
        &&& self.event_node(o as int).kind is External
        &&& (j as int) < self.num_events()
        &&& (s as int) < self.num_events()
        &&& self.event_node(s as int).kind == (EventKind::SwitchHold { outer: o })
        &&& self.manager(self.event_node(o as int).first_manager as int).spec_subscribers().contains(
            Callback::SwitchOuter { event: s },
        )
        &&& forall|h: usize, k: int|
            0 <= k < self.pending_at(h).len() ==> match #[trigger] self.pending_at(h)[k] {
                Action::Trigger { event, value } => event == o ==> value == AnyValue::Event(j),
                Action::Switch { event, .. } => event != s,
                _ => true,
            }
    }

    /// External event `e` waits to fire with `v`, and only firings wait;
    /// event `fe` fires, when its one input does, with a value computed from
    /// that firing, and hears `e` through a live subscription; outside
    /// listener `l` listens to `fe`. A tagging `fe` also needs every event
    /// above its inputs and fewer events than the largest height, so that
    /// it reads its behavior before any held behavior changes.
    pub open spec fn derived_setup(self, e: usize, v: AnyValue, fe: usize, l: int) -> bool {
        &&& self.idle_queue()
        &&& self.pending_at(0).contains(Action::Trigger { event: e, value: v })
        &&& (e as int) < self.num_events()
        &&& self.event_node(e as int).kind is External
        &&& (fe as int) < self.num_events()
        &&& maps_one_input(self.event_node(fe as int).kind)
        &&& self.event_node(fe as int).kind is Tag ==> self.heights_ok() && self.num_events() < usize::MAX
        &&& self.listens(fe as int, l)
        &&& self.hears(fe, e)
    }

    /// `self` came from `old` by propagation: the same nodes, and every
    /// outside listener's log extends the one it had.
    pub closed spec fn keeps(self, old: Runtime) -> bool {
        &&& self.same_graph(old)
        &&& logs_extend(self.logs@, old.logs@)
        &&& dead_logs_kept(self.logs@, old.logs@, old.live.logs@)
        &&& self.tokens_mono(old)
        &&& self.subs_kept_live(old)
    }

    /// A listener that listens to an event before a propagation still
    /// listens to it after.
    pub proof fn lemma_keeps_listens(self, old: Runtime, e: int, l: int)
        requires
            old.wf(),
            self.keeps(old),
            0 <= e < old.num_events(),
            old.event_node(e).kind is External,
            old.listens(e, l),
        ensures
            self.listens(e, l),
    {
        assert(old.event_ok(e));
        assert(old.logs.len() == old.logs@.len());
        let m = old.events@[e].first_manager as int;
        assert(self.events@[e].first_manager == old.events@[e].first_manager);
        assert(old.managers@[m].spec_subscribers().contains(Callback::Log { log: l as usize }));
        assert(self.live.alive(Callback::Log { log: l as usize }));
    }

    /// Propagation keeps every node with its kind, and the stored value of
    /// every behavior that does not hold an event.
    pub proof fn lemma_keeps_nodes(self, old: Runtime)
        requires
            self.keeps(old),
        ensures
            self.num_events() == old.num_events(),
            self.num_behaviors() == old.num_behaviors(),
            self.num_logs() == old.num_logs(),
            forall|e: int| 0 <= e < old.num_events() ==> (#[trigger] self.event_node(e)).kind == old.event_node(e).kind,
            forall|b: int|
                0 <= b < old.num_behaviors() ==> (#[trigger] self.behavior_node(b)).kind == old.behavior_node(b).kind,
            forall|b: int|
                0 <= b < old.num_behaviors() && !(old.behavior_node(b).kind is Hold) ==> (#[trigger] self.behavior_node(b)).value
                    == old.behavior_node(b).value,
            forall|l: int| 0 <= l < old.num_logs() ==> #[trigger] self.log_alive(l) == old.log_alive(l),
    {
        assert forall|e: int| 0 <= e < old.num_events() implies (#[trigger] self.event_node(e)).kind
            == old.event_node(e).kind by {
            assert(self.events@[e].kind == old.events@[e].kind);
        }
        assert forall|b: int| 0 <= b < old.num_behaviors() implies (#[trigger] self.behavior_node(b)).kind
            == old.behavior_node(b).kind by {
            assert(self.behaviors@[b].kind == old.behaviors@[b].kind);
        }
        assert forall|b: int|
            0 <= b < old.num_behaviors() && !(old.behavior_node(b).kind is Hold) implies (#[trigger] self.behavior_node(b)).value
                == old.behavior_node(b).value by {
            assert(self.behaviors@[b].kind == old.behaviors@[b].kind);
        }
    }

    /// A log only grows by propagation: what a listener heard before, it
    /// still has, in the same order, at the start of its log.
    pub proof fn lemma_keeps_logs(self, old: Runtime, l: int)
        requires
            self.keeps(old),
            0 <= l < old.num_logs(),
        ensures
            old.log_of(l).len() <= self.log_of(l).len(),
            self.log_of(l).subrange(0, old.log_of(l).len() as int) == old.log_of(l),
            !old.log_alive(l) ==> self.log_of(l) == old.log_of(l),
    {
        assert(old.logs@[l]@.len() <= self.logs@[l]@.len());
    }
}

impl Runtime {
    /// Schedule an external event to fire with `value` in the next
    /// propagation. The same event can be scheduled only once before
    /// propagating, and not while a propagation is running.
    pub fn schedule_trigger<T: ValueType>(&mut self, trigger: &EventTrigger<T>, value: Value<T>)
        requires
            old(self).wf(),
            trigger@ < old(self).num_events(),
            old(self).event_node(trigger@ as int).kind is External,
            !old(self).event_node(trigger@ as int).scheduled,
            !old(self).propagating(),
        ensures
            final(self).wf(),
            final(self).event_node(trigger@ as int).scheduled,
            final(self).only_flag_changed(*old(self), trigger@ as int),
            final(self).pending_at(0) == old(self).pending_at(0).push(
                Action::Trigger { event: trigger@, value: value.any() },
            ),
            forall|h: usize| h != 0 ==> #[trigger] final(self).pending_at(h) == old(self).pending_at(h),
            old(self).idle_queue() ==> final(self).idle_queue(),
            old(self).heights_ok() ==> final(self).heights_ok(),
            forall|z: usize, u: usize|
                (u as int) < old(self).num_events() ==> #[trigger] final(self).hears(z, u) == old(self).hears(z, u),
            forall|e: int, l: int|
                0 <= e < old(self).num_events() ==> #[trigger] final(self).listens(e, l) == old(self).listens(e, l),
    {
        let ghost s0 = *self;
        let v = value.to_any_value();
        let _ = self.schedule_any(trigger.id(), v);
        proof {
            assert forall|z: usize, u: usize|
                (u as int) < s0.num_events() implies #[trigger] self.hears(z, u) == s0.hears(z, u) by {
                assert(self.events@[u as int].first_manager == s0.events@[u as int].first_manager);
            }
            assert forall|e: int, l: int|
                0 <= e < s0.num_events() implies #[trigger] self.listens(e, l) == s0.listens(e, l) by {
                assert(self.events@[e].first_manager == s0.events@[e].first_manager);
            }
        }
    }

    /// Is the external event of `trigger` scheduled to fire in the next
    /// propagation?
    pub fn is_scheduled<T: ValueType>(&self, trigger: &EventTrigger<T>) -> (r: bool)
        requires
            trigger@ < self.num_events(),
        ensures
            r == self.event_node(trigger@ as int).scheduled,
    {
        self.events[trigger.id()].scheduled
    }

    /// Is a propagation running?
    pub fn is_propagating(&self) -> (r: bool)
        ensures
            r == self.propagating(),
    {
        self.height.is_some()
    }

    /// [`Runtime::schedule_trigger`] for a value of any type.
    pub(crate) fn schedule_any(&mut self, e: usize, v: AnyValue) -> (r: Result<(), PropagationError>)
        requires
            old(self).wf(),
            e < old(self).num_events(),
            old(self).event_node(e as int).kind is External,
        ensures
            final(self).wf(),
            old(self).event_node(e as int).scheduled ==> r == Err::<(), PropagationError>(
                PropagationError::AlreadyScheduled,
            ) && *final(self) == *old(self),
            !old(self).event_node(e as int).scheduled && old(self).propagating() ==> (r matches Err(
                PropagationError::HeightNotIncreasing { height, .. },
            ) && height == 0) && *final(self) == *old(self),
            !old(self).event_node(e as int).scheduled && !old(self).propagating() ==> {
                &&& r is Ok
                &&& final(self).event_node(e as int).scheduled
                &&& final(self).only_flag_changed(*old(self), e as int)
                &&& final(self).pending_at(0) == old(self).pending_at(0).push(
                    Action::Trigger { event: e, value: v },
                )
                &&& forall|h: usize|
                    h != 0 ==> #[trigger] final(self).pending_at(h) == old(self).pending_at(h)
            },
            old(self).idle_queue() ==> final(self).idle_queue(),
            old(self).heights_ok() ==> final(self).heights_ok(),
    {
        if self.events[e].scheduled {
            return Err(PropagationError::AlreadyScheduled);
        }
        match self.height {
            Some(h) => {
                return Err(PropagationError::HeightNotIncreasing { height: 0, current: h });
            },
            None => {},
        }
        let ghost s0 = *self;
        let r = self.schedule(0, Action::Trigger { event: e, value: v });
        let ghost s1 = *self;
        self.events[e].scheduled = true;
        proof {
            lemma_inv_frame(s1, *self);
            if s0.heights_ok() {
                assert forall|ee: int| 0 <= ee < self.events@.len() implies (#[trigger] self.events@[ee]).kind
                    == s0.events@[ee].kind && self.events@[ee].inner == s0.events@[ee].inner by {}
                lemma_heights_same(s0, *self);
            }
            if s0.idle_queue() {
                let q = self.queue@;
                assert forall|i: int, k: int| 0 <= i < q.len() && 0 <= k < q[i].actions@.len() implies q[i].height == 0
                    && (#[trigger] q[i].actions@[k]) is Trigger by {
                    let x = q[i].actions@[k];
                    lemma_actions_at(q, i);
                    assert(actions_at(q, q[i].height)[k] == x);
                    assert(actions_at(q, q[i].height).contains(x));
                    let h = q[i].height;
                    if h != 0 || x != (Action::Trigger { event: e, value: v }) {
                        assert(actions_at(s0.queue@, h).contains(x)) by {
                            if h == 0 {
                                let s = actions_at(s0.queue@, 0);
                                let j = choose|j: int| 0 <= j < s.push(Action::Trigger { event: e, value: v }).len()
                                    && s.push(Action::Trigger { event: e, value: v })[j] == x;
                                assert(s[j] == x);
                            }
                        }
                        let i0 = choose|i0: int| 0 <= i0 < s0.queue@.len() && s0.queue@[i0].height == h;
                        let k0 = choose|k0: int| 0 <= k0 < actions_at(s0.queue@, h).len() && actions_at(s0.queue@, h)[k0] == x;
                        assert(s0.queue@[i0].actions@[k0] == x);
                    }
                }
            }
        }
        r
    }
}

} // verus!
