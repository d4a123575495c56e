//! Subscriber lists. Every derived event keeps the callbacks that subscribed
//! to it, and, while it has any, one subscription of its own on the event it
//! is derived from. Subscriptions are weak: a callback whose owner has gone
//! away is dropped the next time the list is consolidated.

use vstd::prelude::*;

verus! {

/// Someone who asked to hear about the firings of an event.
#[derive(Clone, Copy, Debug)]
pub enum Callback {
    /// The main subscription of a derived event on its input. `token` names
    /// the subscription; it is alive while the derived event holds it.
    Main { event: usize, tag: usize, token: usize },
    /// A held behavior that takes the value of every firing.
    Hold { behavior: usize },
    /// The outer subscription of a switching event.
    SwitchOuter { event: usize },
    /// An outside listener that records every firing.
    Log { log: usize },
}

/// Which subscriptions and which outside listeners are still alive.
pub struct Liveness {
    /// Whether each subscription token is still held.
    pub tokens: Vec<bool>,
    /// Whether each outside listener is still listening.
    pub logs: Vec<bool>,
}

impl Liveness {
    /// Is the owner of this callback still alive?
    pub open spec fn alive(self, cb: Callback) -> bool {
        match cb {
            Callback::Main { token, .. } => token < self.tokens@.len() && self.tokens@[token as int],
            Callback::Log { log } => log < self.logs@.len() && self.logs@[log as int],
            _ => true,
        }
    }

    /// A liveness table with nothing in it.
    pub fn new() -> (r: Self)
        ensures
            r.tokens@.len() == 0,
            r.logs@.len() == 0,
    {
        Liveness { tokens: Vec::new(), logs: Vec::new() }
    }

    /// Is the owner of this callback still alive?
    pub fn is_alive(&self, cb: &Callback) -> (b: bool)
        ensures
            b == self.alive(*cb),
    {
        match cb {
            Callback::Main { token, .. } => *token < self.tokens.len() && self.tokens[*token],
            Callback::Log { log } => *log < self.logs.len() && self.logs[*log],
            _ => true,
        }
    }

    /// Make a new, live subscription token.
    pub fn fresh_token(&mut self) -> (t: usize)
        ensures
            t == old(self).tokens@.len(),
            final(self).tokens@ == old(self).tokens@.push(true),
            final(self).logs@ == old(self).logs@,
    {
        let t = self.tokens.len();
        self.tokens.push(true);
        t
    }

    /// The subscription named by `t` has been given up.
    pub fn kill_token(&mut self, t: usize)
        ensures
            t < old(self).tokens@.len() ==> final(self).tokens@ == old(self).tokens@.update(
                t as int,
                false,
            ),
            t >= old(self).tokens@.len() ==> final(self).tokens@ == old(self).tokens@,
            final(self).logs@ == old(self).logs@,
    {
        if t < self.tokens.len() {
            self.tokens.set(t, false);
        }
    }
}

/// The live callbacks of `s`, in order.
pub open spec fn live_only(s: Seq<Callback>, live: Liveness) -> Seq<Callback>
    decreases s.len(),
{
    if s.len() == 0 {
        Seq::empty()
    } else {
        let r = live_only(s.drop_last(), live);
        if live.alive(s.last()) {
            r.push(s.last())
        } else {
            r
        }
    }
}

/// Every callback in `live_only(s, live)` is alive and was in `s`.
pub proof fn lemma_live_only(s: Seq<Callback>, live: Liveness)
    ensures
        live_only(s, live).len() <= s.len(),
        forall|i: int|
            0 <= i < live_only(s, live).len() ==> live.alive(#[trigger] live_only(s, live)[i])
                && s.contains(live_only(s, live)[i]),
    decreases s.len(),
{
    if s.len() > 0 {
        lemma_live_only(s.drop_last(), live);
        let r = live_only(s.drop_last(), live);
        assert forall|i: int| 0 <= i < live_only(s, live).len() implies live.alive(
            #[trigger] live_only(s, live)[i],
        ) && s.contains(live_only(s, live)[i]) by {
            if i < r.len() {
                assert(s.drop_last().contains(r[i]));
                let k = choose|k: int| 0 <= k < s.drop_last().len() && s.drop_last()[k] == r[i];
                assert(s[k] == r[i]);
            } else {
                assert(s[s.len() - 1] == s.last());
            }
        }
    }
}

/// Consolidating keeps every callback that is still alive.
pub proof fn lemma_live_only_keeps(s: Seq<Callback>, live: Liveness, c: Callback)
    requires
        s.contains(c),
        live.alive(c),
    ensures
        live_only(s, live).contains(c),
    decreases s.len(),
{
    let r = live_only(s.drop_last(), live);
    if s.last() == c {
        assert(r.push(c)[r.len() as int] == c);
    } else {
        let k = choose|k: int| 0 <= k < s.len() && s[k] == c;
        assert(k < s.len() - 1);
        assert(s.drop_last()[k] == c);
        lemma_live_only_keeps(s.drop_last(), live, c);
        let j = choose|j: int| 0 <= j < r.len() && r[j] == c;
        if live.alive(s.last()) {
            assert(r.push(s.last())[j] == c);
        }
    }
}

/// Consolidating twice keeps what consolidating once kept.
pub proof fn lemma_live_only_idempotent(s: Seq<Callback>, live: Liveness)
    ensures
        live_only(live_only(s, live), live) == live_only(s, live),
    decreases s.len(),
{
    if s.len() > 0 {
        lemma_live_only_idempotent(s.drop_last(), live);
        let r = live_only(s.drop_last(), live);
        if live.alive(s.last()) {
            assert(r.push(s.last()).drop_last() =~= r);
        }
    }
}

/// `tokens` after the subscription `sub`, if any, has been given up.
pub open spec fn without_token(tokens: Seq<bool>, sub: Option<usize>) -> Seq<bool> {
    match sub {
        Some(t) => if t < tokens.len() {
            tokens.update(t as int, false)
        } else {
            tokens
        },
        None => tokens,
    }
}

/// The subscriber list of one event (or of one input of an event).
pub struct SubscriptionManager {
    pub(crate) subscribers: Vec<Callback>,
    pub(crate) subscription: Option<usize>,
    pub(crate) tag: usize,
    pub(crate) owner: usize,
}

impl SubscriptionManager {
    /// The callbacks subscribed here, in the order they subscribed.
    pub closed spec fn spec_subscribers(self) -> Seq<Callback> {
        self.subscribers@
    }

    /// The token of this list's own subscription upstream, if it holds one.
    pub closed spec fn spec_subscription(self) -> Option<usize> {
        self.subscription
    }

    /// The tag this list puts on its upstream subscription.
    pub closed spec fn spec_tag(self) -> usize {
        self.tag
    }

    /// The tag this list puts on its upstream subscription.
    pub fn tag(&self) -> (t: usize)
        ensures
            t == self.spec_tag(),
    {
        self.tag
    }

    /// The event this list belongs to.
    pub closed spec fn spec_owner(self) -> usize {
        self.owner
    }

    /// An empty list of event `owner`, whose upstream subscription will
    /// carry `tag`.
    pub fn new(tag: usize, owner: usize) -> (r: Self)
        ensures
            r.spec_subscribers() == Seq::<Callback>::empty(),
            r.spec_subscription() is None,
            r.spec_tag() == tag,
            r.spec_owner() == owner,
    {
        SubscriptionManager { subscribers: Vec::new(), subscription: None, tag, owner }
    }

    /// Add a subscriber. Returns whether it is the first one, in which case
    /// the caller must make sure the list holds its upstream subscription.
    /// Every sixteenth subscriber, dead callbacks are dropped.
    pub fn add_subscriber(&mut self, live: &Liveness, cb: Callback) -> (first: bool)
        ensures
            first == (old(self).spec_subscribers().len() == 0),
            old(self).spec_subscribers().len() % 16 != 0 || first ==> final(self).spec_subscribers() == old(self).spec_subscribers().push(cb),
            old(self).spec_subscribers().len() % 16 == 0 && !first ==> final(self).spec_subscribers() == live_only(old(self).spec_subscribers().push(cb), *live),
            final(self).spec_subscription() == old(self).spec_subscription(),
            final(self).spec_tag() == old(self).spec_tag(),
            final(self).spec_owner() == old(self).spec_owner(),
    {
        let len = self.subscribers.len();
        self.subscribers.push(cb);
        if len == 0 {
            true
        } else {
            if len % 16 == 0 {
                let _ = self.consolidate(live);
            }
            false
        }
    }

    /// Give up this list's upstream subscription.
    pub fn clear_subscriber(&mut self, live: &mut Liveness)
        ensures
            final(self).spec_subscription() is None,
            final(self).spec_subscribers() == old(self).spec_subscribers(),
            final(self).spec_tag() == old(self).spec_tag(),
            final(self).spec_owner() == old(self).spec_owner(),
            final(live).logs@ == old(live).logs@,
            final(live).tokens@.len() == old(live).tokens@.len(),
            final(live).tokens@ == without_token(old(live).tokens@, old(self).spec_subscription()),
    {
        match self.subscription {
            Some(t) => live.kill_token(t),
            None => {},
        }
        self.subscription = None;
    }

    /// Make sure this list holds an upstream subscription when there is an
    /// upstream event. With `refresh`, a new subscription replaces the old one.
    /// Returns the token of a new subscription that the caller must register
    /// with the upstream event.
    pub fn populate_subscriber(&mut self, live: &mut Liveness, has_event: bool, refresh: bool) -> (r:
        Option<usize>)
        ensures
            final(self).spec_subscribers() == old(self).spec_subscribers(),
            final(self).spec_tag() == old(self).spec_tag(),
            final(self).spec_owner() == old(self).spec_owner(),
            final(live).logs@ == old(live).logs@,
            has_event && (old(self).spec_subscription() is None || refresh) ==> {
                &&& r is Some && r->0 == old(live).tokens@.len()
                &&& final(self).spec_subscription() == r
                &&& final(live).tokens@.len() == old(live).tokens@.len() + 1
                &&& final(live).tokens@[old(live).tokens@.len() as int]
                &&& forall|t: int|
                    0 <= t < old(live).tokens@.len() ==> final(live).tokens@[t] == (old(live).tokens@[t] && old(self).spec_subscription() != Some(t as usize))
            },
            !(has_event && (old(self).spec_subscription() is None || refresh)) ==> {
                &&& r is None
                &&& final(self).spec_subscription() == old(self).spec_subscription()
                &&& final(live).tokens@ == old(live).tokens@
            },
    {
        if has_event && (self.subscription.is_none() || refresh) {
            match self.subscription {
                Some(t) => live.kill_token(t),
                None => {},
            }
            let t = live.fresh_token();
            self.subscription = Some(t);
            Some(t)
        } else {
            None
        }
    }

    /// Drop the subscribers whose owners are gone; return the ones left.
    pub fn consolidate(&mut self, live: &Liveness) -> (r: Vec<Callback>)
        ensures
            r@ == live_only(old(self).spec_subscribers(), *live),
            final(self).spec_subscribers() == r@,
            final(self).spec_subscription() == old(self).spec_subscription(),
            final(self).spec_tag() == old(self).spec_tag(),
            final(self).spec_owner() == old(self).spec_owner(),
    {
        let mut kept: Vec<Callback> = Vec::new();
        let n = self.subscribers.len();
        let mut i: usize = 0;
        while i < n
            invariant
                n == self.subscribers@.len(),
                self.subscribers@ == old(self).subscribers@,
                self.subscription == old(self).subscription,
                self.tag == old(self).tag,
                self.owner == old(self).owner,
                i <= n,
                kept@ == live_only(self.subscribers@.take(i as int), *live),
            decreases n - i,
        {
            let cb = self.subscribers[i];
            assert(self.subscribers@.take(i + 1).drop_last() =~= self.subscribers@.take(i as int));
            if live.is_alive(&cb) {
                kept.push(cb);
            }
            i = i + 1;
        }
        assert(self.subscribers@.take(n as int) =~= self.subscribers@);
        self.subscribers = kept.clone();
        assert(self.subscribers@ =~= kept@);
        kept
    }

    /// First half of notifying: consolidate. With nobody left listening, the
    /// upstream subscription is given up and `None` is returned; otherwise the
    /// callbacks to fire, in order.
    pub fn notify(&mut self, live: &mut Liveness) -> (r: Option<Vec<Callback>>)
        ensures
            final(self).spec_subscribers() == live_only(old(self).spec_subscribers(), *old(live)),
            final(self).spec_tag() == old(self).spec_tag(),
            final(self).spec_owner() == old(self).spec_owner(),
            final(live).logs@ == old(live).logs@,
            final(live).tokens@.len() == old(live).tokens@.len(),
            live_only(old(self).spec_subscribers(), *old(live)).len() == 0 ==> {
                &&& r is None
                &&& final(self).spec_subscription() is None
                &&& final(live).tokens@ == without_token(old(live).tokens@, old(self).spec_subscription())
            },
            live_only(old(self).spec_subscribers(), *old(live)).len() > 0 ==> {
                &&& r matches Some(v) && v@ == live_only(old(self).spec_subscribers(), *old(live))
                &&& final(self).spec_subscription() == old(self).spec_subscription()
                &&& final(live).tokens@ == old(live).tokens@
            },
    {
        let subs = self.consolidate(live);
        if subs.len() == 0 {
            self.clear_subscriber(live);
            None
        } else {
            Some(subs)
        }
    }
}

} // verus!
