//! Functions in the reactive graph. The graph holds values in their dynamic
//! representation and names the functions it applies to them by [`FnRef`]:
//! a few structural functions of its own, and user functions by number.
//! User functions are interpreted by a *dispatcher*, a pure closure that
//! takes the number of a function and its arguments.
//!
//! User functions are assumed to be pure: a dispatcher accepts every
//! argument and gives one result for each.

use crate::value::AnyValue;
use vstd::prelude::*;

verus! {

/// A function applied by the graph.
#[derive(Clone, Copy, Debug)]
pub enum FnRef {
    /// The user function with this number, interpreted by the dispatcher.
    User(usize),
    /// Tags its argument as coming from the first of two sources.
    WrapFirst,
    /// Tags its argument as coming from the second of two sources.
    WrapSecond,
    /// Gives its argument back.
    Identity,
    /// Pairs its two arguments behind a heap pointer.
    PairUp,
    /// Takes the firings of two events tagged with each other's current
    /// value and applies the user function with this number to the value of
    /// the first and the value of the second.
    Untag(usize),
}

/// `d` accepts every call and gives one result for each list of arguments.
pub open spec fn is_dispatcher<D: Fn(usize, &Vec<AnyValue>) -> Option<AnyValue>>(d: D) -> bool {
    &&& forall|i: usize, xs: &Vec<AnyValue>| #[trigger] call_requires(d, (i, xs))
    &&& forall|i: usize, xs: &Vec<AnyValue>, ys: &Vec<AnyValue>, r1: Option<AnyValue>, r2: Option<AnyValue>|
        #![trigger call_ensures(d, (i, xs), r1), call_ensures(d, (i, ys), r2)]
        xs@ == ys@ && call_ensures(d, (i, xs), r1) && call_ensures(d, (i, ys), r2) ==> r1 == r2
}

/// What the dispatcher gives for user function `i` on arguments `xs`.
pub open spec fn dispatch<D: Fn(usize, &Vec<AnyValue>) -> Option<AnyValue>>(
    d: D,
    i: usize,
    xs: Seq<AnyValue>,
) -> Option<AnyValue> {
    choose|r: Option<AnyValue>| #[trigger] dispatches_to(d, i, xs, r)
}

/// The dispatcher can give `r` for user function `i` on arguments `xs`.
pub open spec fn dispatches_to<D: Fn(usize, &Vec<AnyValue>) -> Option<AnyValue>>(
    d: D,
    i: usize,
    xs: Seq<AnyValue>,
    r: Option<AnyValue>,
) -> bool {
    exists|v: &Vec<AnyValue>| #![trigger call_ensures(d, (i, v), r)] v@ == xs && call_ensures(d, (i, v), r)
}

/// Apply the user function with number `i` to the value of the first and the
/// value of the second of two events, each firing tagged with the other's value.
pub open spec fn spec_untag<D: Fn(usize, &Vec<AnyValue>) -> Option<AnyValue>>(
    d: D,
    i: usize,
    x: AnyValue,
) -> Option<AnyValue> {
    match x {
        AnyValue::First(t) => match *t {
            AnyValue::Heap(p) => match *p {
                AnyValue::Pair(a, b) => dispatch(d, i, seq![*a, *b]),
                _ => None,
            },
            _ => None,
        },
        AnyValue::Second(t) => match *t {
            AnyValue::Heap(p) => match *p {
                AnyValue::Pair(b, a) => dispatch(d, i, seq![*a, *b]),
                _ => None,
            },
            _ => None,
        },
        AnyValue::Both(ta, tb) => match (*ta, *tb) {
            (AnyValue::Heap(pa), AnyValue::Heap(pb)) => match (*pa, *pb) {
                (AnyValue::Pair(a, _), AnyValue::Pair(b, _)) => dispatch(d, i, seq![*a, *b]),
                _ => None,
            },
            _ => None,
        },
        _ => None,
    }
}

/// What function `f` gives on arguments `xs`.
pub open spec fn spec_call<D: Fn(usize, &Vec<AnyValue>) -> Option<AnyValue>>(
    d: D,
    f: FnRef,
    xs: Seq<AnyValue>,
) -> Option<AnyValue> {
    match f {
        FnRef::User(i) => dispatch(d, i, xs),
        FnRef::WrapFirst => if xs.len() == 1 {
            Some(AnyValue::First(Box::new(xs[0])))
        } else {
            None
        },
        FnRef::WrapSecond => if xs.len() == 1 {
            Some(AnyValue::Second(Box::new(xs[0])))
        } else {
            None
        },
        FnRef::Identity => if xs.len() == 1 {
            Some(xs[0])
        } else {
            None
        },
        FnRef::PairUp => if xs.len() == 2 {
            Some(AnyValue::Heap(Box::new(AnyValue::Pair(Box::new(xs[0]), Box::new(xs[1])))))
        } else {
            None
        },
        FnRef::Untag(i) => if xs.len() == 1 {
            spec_untag(d, i, xs[0])
        } else {
            None
        },
    }
}

/// A user function applied by the graph gives exactly what the dispatcher
/// answers when called with the same arguments, in the same order.
pub proof fn lemma_user_call<D: Fn(usize, &Vec<AnyValue>) -> Option<AnyValue>>(
    d: D,
    i: usize,
    v: &Vec<AnyValue>,
    r: Option<AnyValue>,
)
    requires
        is_dispatcher(d),
        call_ensures(d, (i, v), r),
    ensures
        spec_call(d, FnRef::User(i), v@) == r,
{
    let c = dispatch(d, i, v@);
    assert(dispatches_to(d, i, v@, r));
    assert(dispatches_to(d, i, v@, c));
    let w = choose|w: &Vec<AnyValue>| #![trigger call_ensures(d, (i, w), c)] w@ == v@ && call_ensures(d, (i, w), c);
}

/// Whichever of two tagged sources fired, untagging gives user function
/// `i` the new value of the first source and then the new value of the
/// second: a firing of the first alone carries `(x, y)`, one of the second
/// alone carries `(y, x)`, and a firing of both carries each side's new
/// value first.
pub proof fn lemma_untag_order<D: Fn(usize, &Vec<AnyValue>) -> Option<AnyValue>>(
    d: D,
    i: usize,
    x: AnyValue,
    y: AnyValue,
    x_old: AnyValue,
    y_old: AnyValue,
)
    ensures
        spec_untag(
            d,
            i,
            AnyValue::First(Box::new(AnyValue::Heap(Box::new(AnyValue::Pair(Box::new(x), Box::new(y)))))),
        ) == dispatch(d, i, seq![x, y]),
        spec_untag(
            d,
            i,
            AnyValue::Second(Box::new(AnyValue::Heap(Box::new(AnyValue::Pair(Box::new(y), Box::new(x)))))),
        ) == dispatch(d, i, seq![x, y]),
        spec_untag(
            d,
            i,
            AnyValue::Both(
                Box::new(AnyValue::Heap(Box::new(AnyValue::Pair(Box::new(x), Box::new(y_old))))),
                Box::new(AnyValue::Heap(Box::new(AnyValue::Pair(Box::new(y), Box::new(x_old))))),
            ),
        ) == dispatch(d, i, seq![x, y]),
{
}

/// Call user function `i` through the dispatcher.
pub fn call_user<D: Fn(usize, &Vec<AnyValue>) -> Option<AnyValue>>(d: &D, i: usize, xs: &Vec<AnyValue>) -> (r:
    Option<AnyValue>)
    requires
        is_dispatcher(*d),
    ensures
        r == dispatch(*d, i, xs@),
{
    let r = d(i, xs);
    proof {
        assert(call_ensures(*d, (i, xs), r));
        let c = dispatch(*d, i, xs@);
        assert(dispatches_to(*d, i, xs@, r));
        assert(dispatches_to(*d, i, xs@, c));
        let v = choose|v: &Vec<AnyValue>| #![trigger call_ensures(*d, (i, v), c)] v@ == xs@ && call_ensures(*d, (i, v), c);
    }
    r
}

/// Apply the user function `i` to the untagged values of `x`.
pub fn call_untag<D: Fn(usize, &Vec<AnyValue>) -> Option<AnyValue>>(d: &D, i: usize, x: &AnyValue) -> (r:
    Option<AnyValue>)
    requires
        is_dispatcher(*d),
    ensures
        r == spec_untag(*d, i, *x),
{
    match x {
        AnyValue::First(t) => match &**t {
            AnyValue::Heap(p) => match &**p {
                AnyValue::Pair(a, b) => {
                    let mut v: Vec<AnyValue> = Vec::new();
                    v.push((**a).clone());
                    v.push((**b).clone());
                    assert(v@ =~= seq![**a, **b]);
                    call_user(d, i, &v)
                },
                _ => None,
            },
            _ => None,
        },
        AnyValue::Second(t) => match &**t {
            AnyValue::Heap(p) => match &**p {
                AnyValue::Pair(b, a) => {
                    let mut v: Vec<AnyValue> = Vec::new();
                    v.push((**a).clone());
                    v.push((**b).clone());
                    assert(v@ =~= seq![**a, **b]);
                    call_user(d, i, &v)
                },
                _ => None,
            },
            _ => None,
        },
        AnyValue::Both(ta, tb) => match (&**ta, &**tb) {
            (AnyValue::Heap(pa), AnyValue::Heap(pb)) => match (&**pa, &**pb) {
                (AnyValue::Pair(a, _), AnyValue::Pair(b, _)) => {
                    let mut v: Vec<AnyValue> = Vec::new();
                    v.push((**a).clone());
                    v.push((**b).clone());
                    assert(v@ =~= seq![**a, **b]);
                    call_user(d, i, &v)
                },
                _ => None,
            },
            _ => None,
        },
        _ => None,
    }
}

/// Apply function `f` to `xs`.
pub fn call_fn<D: Fn(usize, &Vec<AnyValue>) -> Option<AnyValue>>(d: &D, f: FnRef, xs: &Vec<AnyValue>) -> (r:
    Option<AnyValue>)
    requires
        is_dispatcher(*d),
    ensures
        r == spec_call(*d, f, xs@),
{
    match f {
        FnRef::User(i) => call_user(d, i, xs),
        FnRef::WrapFirst => if xs.len() == 1 {
            Some(AnyValue::First(Box::new(xs[0].clone())))
        } else {
            None
        },
        FnRef::WrapSecond => if xs.len() == 1 {
            Some(AnyValue::Second(Box::new(xs[0].clone())))
        } else {
            None
        },
        FnRef::Identity => if xs.len() == 1 {
            Some(xs[0].clone())
        } else {
            None
        },
        FnRef::PairUp => if xs.len() == 2 {
            Some(
                AnyValue::Heap(
                    Box::new(AnyValue::Pair(Box::new(xs[0].clone()), Box::new(xs[1].clone()))),
                ),
            )
        } else {
            None
        },
        FnRef::Untag(i) => if xs.len() == 1 {
            call_untag(d, i, &xs[0])
        } else {
            None
        },
    }
}

/// Apply function `f` to one argument.
pub fn call1<D: Fn(usize, &Vec<AnyValue>) -> Option<AnyValue>>(d: &D, f: FnRef, x: &AnyValue) -> (r: Option<
    AnyValue,
>)
    requires
        is_dispatcher(*d),
    ensures
        r == spec_call(*d, f, seq![*x]),
{
    let mut v: Vec<AnyValue> = Vec::new();
    v.push(x.clone());
    assert(v@ =~= seq![*x]);
    call_fn(d, f, &v)
}

/// Apply function `f` to two arguments.
pub fn call2<D: Fn(usize, &Vec<AnyValue>) -> Option<AnyValue>>(
    d: &D,
    f: FnRef,
    x: &AnyValue,
    y: &AnyValue,
) -> (r: Option<AnyValue>)
    requires
        is_dispatcher(*d),
    ensures
        r == spec_call(*d, f, seq![*x, *y]),
{
    let mut v: Vec<AnyValue> = Vec::new();
    v.push(x.clone());
    v.push(y.clone());
    assert(v@ =~= seq![*x, *y]);
    call_fn(d, f, &v)
}

} // verus!
