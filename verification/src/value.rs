//! The value system. Prism is a typed language whose types are not always
//! visible to Rust. Every value travelling through the reactive graph is an
//! [`AnyValue`]; [`Value<T>`] is the same value together with the knowledge,
//! checked when it was made, that it has the Rust type `T`.

use std::marker::PhantomData;
use std::sync::Arc;
use vstd::prelude::*;
use vstd::std_specs::convert::FromSpecImpl;
use vstd::string::StringExecFns;

verus! {

/// A value whose type is tracked outside of Rust.
#[derive(Debug)]
pub enum AnyValue {
    /// The unit value `()`.
    Unit,
    /// An unsigned 32-bit integer.
    U32(u32),
    /// A signed 32-bit integer.
    I32(i32),
    /// A value stored behind a shared heap pointer.
    Heap(Box<AnyValue>),
    /// A pair of values.
    Pair(Box<AnyValue>, Box<AnyValue>),
    /// Only the first of two simultaneous sources had a value.
    First(Box<AnyValue>),
    /// Only the second of two simultaneous sources had a value.
    Second(Box<AnyValue>),
    /// Both of two simultaneous sources had a value.
    Both(Box<AnyValue>, Box<AnyValue>),
    /// A handle of an event of the runtime.
    Event(usize),
    /// A handle of a behavior of the runtime.
    Behavior(usize),
    /// A handle of a dynamic: its event and its behavior.
    Dynamic(usize, usize),
    /// A string.
    Str(String),
}

impl Clone for AnyValue {
    fn clone(&self) -> (r: Self)
        ensures
            r == *self,
        decreases self,
    {
        match self {
            AnyValue::Unit => AnyValue::Unit,
            AnyValue::U32(x) => AnyValue::U32(*x),
            AnyValue::I32(x) => AnyValue::I32(*x),
            AnyValue::Heap(b) => AnyValue::Heap(Box::new((**b).clone())),
            AnyValue::Pair(a, b) => AnyValue::Pair(Box::new((**a).clone()), Box::new((**b).clone())),
            AnyValue::First(a) => AnyValue::First(Box::new((**a).clone())),
            AnyValue::Second(b) => AnyValue::Second(Box::new((**b).clone())),
            AnyValue::Both(a, b) => AnyValue::Both(Box::new((**a).clone()), Box::new((**b).clone())),
            AnyValue::Event(e) => AnyValue::Event(*e),
            AnyValue::Behavior(b) => AnyValue::Behavior(*b),
            AnyValue::Dynamic(e, b) => AnyValue::Dynamic(*e, *b),
            AnyValue::Str(t) => AnyValue::Str(t.clone()),
        }
    }
}

/// The name of the shape of a value, for diagnostics.
pub open spec fn spec_shape_name(v: AnyValue) -> Seq<char>
    decreases v,
{
    match v {
        AnyValue::Unit => "()"@,
        AnyValue::U32(_) => "u32"@,
        AnyValue::I32(_) => "i32"@,
        AnyValue::Heap(b) => "PrismArc<"@ + spec_shape_name(*b) + ">"@,
        AnyValue::Pair(a, b) => "("@ + spec_shape_name(*a) + ", "@ + spec_shape_name(*b) + ")"@,
        AnyValue::First(a) => "OneOrBoth::A<"@ + spec_shape_name(*a) + ">"@,
        AnyValue::Second(b) => "OneOrBoth::B<"@ + spec_shape_name(*b) + ">"@,
        AnyValue::Both(a, b) => "OneOrBoth::Both<"@ + spec_shape_name(*a) + ", "@ + spec_shape_name(*b)
            + ">"@,
        AnyValue::Event(_) => "Event"@,
        AnyValue::Behavior(_) => "Behavior"@,
        AnyValue::Dynamic(_, _) => "Dynamic"@,
        AnyValue::Str(_) => "String"@,
    }
}

impl AnyValue {
    /// Describe the shape of this value (test and debug purposes).
    pub fn type_string(&self) -> (s: String)
        ensures
            s@ == spec_shape_name(*self),
        decreases self,
    {
        match self {
            AnyValue::Unit => String::from_str("()"),
            AnyValue::U32(_) => String::from_str("u32"),
            AnyValue::I32(_) => String::from_str("i32"),
            AnyValue::Heap(b) => {
                let mut s = String::from_str("PrismArc<");
                let inner = (**b).type_string();
                s.append(inner.as_str());
                s.append(">");
                s
            },
            AnyValue::Pair(a, b) => {
                let mut s = String::from_str("(");
                let sa = (**a).type_string();
                let sb = (**b).type_string();
                s.append(sa.as_str());
                s.append(", ");
                s.append(sb.as_str());
                s.append(")");
                s
            },
            AnyValue::First(a) => {
                let mut s = String::from_str("OneOrBoth::A<");
                let sa = (**a).type_string();
                s.append(sa.as_str());
                s.append(">");
                s
            },
            AnyValue::Second(b) => {
                let mut s = String::from_str("OneOrBoth::B<");
                let sb = (**b).type_string();
                s.append(sb.as_str());
                s.append(">");
                s
            },
            AnyValue::Both(a, b) => {
                let mut s = String::from_str("OneOrBoth::Both<");
                let sa = (**a).type_string();
                let sb = (**b).type_string();
                s.append(sa.as_str());
                s.append(", ");
                s.append(sb.as_str());
                s.append(">");
                s
            },
            AnyValue::Event(_) => String::from_str("Event"),
            AnyValue::Behavior(_) => String::from_str("Behavior"),
            AnyValue::Dynamic(_, _) => String::from_str("Dynamic"),
            AnyValue::Str(_) => String::from_str("String"),
        }
    }
}

/// Implemented on the Rust types that can travel through the reactive graph.
///
/// `has_type` says which dynamic values represent a value of the type;
/// `spec_to_any` and `spec_from_any` are inverse to each other on them.
pub trait ValueType: Sized {
    /// Does `v` represent a value of this type?
    spec fn has_type(v: AnyValue) -> bool;

    /// The dynamic representation of a value of this type.
    spec fn spec_to_any(self) -> AnyValue;

    /// The value of this type that `v` represents (meaningful when `has_type(v)`).
    spec fn spec_from_any(v: AnyValue) -> Self;

    /// The name of this type.
    spec fn spec_type_name() -> Seq<char>;

    /// Convert to the dynamic representation.
    fn to_any(&self) -> (r: AnyValue)
        ensures
            r == self.spec_to_any(),
            Self::has_type(r),
            Self::spec_from_any(r) == *self,
    ;

    /// Convert from the dynamic representation.
    fn from_any(v: &AnyValue) -> (r: Self)
        requires
            Self::has_type(*v),
        ensures
            r == Self::spec_from_any(*v),
            r.spec_to_any() == *v,
    ;

    /// Does `v` represent a value of this type?
    fn check(v: &AnyValue) -> (b: bool)
        ensures
            b == Self::has_type(*v),
    ;

    /// The name of this type.
    fn type_string() -> (s: String)
        ensures
            s@ == Self::spec_type_name(),
    ;
}

impl ValueType for () {
    open spec fn has_type(v: AnyValue) -> bool {
        v is Unit
    }

    open spec fn spec_to_any(self) -> AnyValue {
        AnyValue::Unit
    }

    open spec fn spec_from_any(v: AnyValue) -> Self {
        ()
    }

    open spec fn spec_type_name() -> Seq<char> {
        "()"@
    }

    fn to_any(&self) -> (r: AnyValue) {
        AnyValue::Unit
    }

    fn from_any(v: &AnyValue) -> (r: Self) {
        ()
    }

    fn check(v: &AnyValue) -> (b: bool) {
        match v {
            AnyValue::Unit => true,
            _ => false,
        }
    }

    fn type_string() -> (s: String) {
        String::from_str("()")
    }
}

impl ValueType for u32 {
    open spec fn has_type(v: AnyValue) -> bool {
        v is U32
    }

    open spec fn spec_to_any(self) -> AnyValue {
        AnyValue::U32(self)
    }

    open spec fn spec_from_any(v: AnyValue) -> Self {
        v->U32_0
    }

    open spec fn spec_type_name() -> Seq<char> {
        "u32"@
    }

    fn to_any(&self) -> (r: AnyValue) {
        AnyValue::U32(*self)
    }

    fn from_any(v: &AnyValue) -> (r: Self) {
        match v {
            AnyValue::U32(x) => *x,
            _ => 0,
        }
    }

    fn check(v: &AnyValue) -> (b: bool) {
        match v {
            AnyValue::U32(_) => true,
            _ => false,
        }
    }

    fn type_string() -> (s: String) {
        String::from_str("u32")
    }
}

impl ValueType for i32 {
    open spec fn has_type(v: AnyValue) -> bool {
        v is I32
    }

    open spec fn spec_to_any(self) -> AnyValue {
        AnyValue::I32(self)
    }

    open spec fn spec_from_any(v: AnyValue) -> Self {
        v->I32_0
    }

    open spec fn spec_type_name() -> Seq<char> {
        "i32"@
    }

    fn to_any(&self) -> (r: AnyValue) {
        AnyValue::I32(*self)
    }

    fn from_any(v: &AnyValue) -> (r: Self) {
        match v {
            AnyValue::I32(x) => *x,
            _ => 0,
        }
    }

    fn check(v: &AnyValue) -> (b: bool) {
        match v {
            AnyValue::I32(_) => true,
            _ => false,
        }
    }

    fn type_string() -> (s: String) {
        String::from_str("i32")
    }
}

impl ValueType for String {
    open spec fn has_type(v: AnyValue) -> bool {
        v is Str
    }

    open spec fn spec_to_any(self) -> AnyValue {
        AnyValue::Str(self)
    }

    open spec fn spec_from_any(v: AnyValue) -> Self {
        v->Str_0
    }

    open spec fn spec_type_name() -> Seq<char> {
        "String"@
    }

    fn to_any(&self) -> (r: AnyValue) {
        AnyValue::Str(self.clone())
    }

    fn from_any(v: &AnyValue) -> (r: Self) {
        match v {
            AnyValue::Str(t) => t.clone(),
            _ => String::new(),
        }
    }

    fn check(v: &AnyValue) -> (b: bool) {
        match v {
            AnyValue::Str(_) => true,
            _ => false,
        }
    }

    fn type_string() -> (s: String) {
        String::from_str("String")
    }
}

impl ValueType for AnyValue {
    open spec fn has_type(v: AnyValue) -> bool {
        true
    }

    open spec fn spec_to_any(self) -> AnyValue {
        self
    }

    open spec fn spec_from_any(v: AnyValue) -> Self {
        v
    }

    open spec fn spec_type_name() -> Seq<char> {
        "AnyValue"@
    }

    fn to_any(&self) -> (r: AnyValue) {
        self.clone()
    }

    fn from_any(v: &AnyValue) -> (r: Self) {
        v.clone()
    }

    fn check(v: &AnyValue) -> (b: bool) {
        true
    }

    fn type_string() -> (s: String) {
        String::from_str("AnyValue")
    }
}

impl<T: ValueType> ValueType for Arc<T> {
    open spec fn has_type(v: AnyValue) -> bool {
        v is Heap && T::has_type(*v->Heap_0)
    }

    open spec fn spec_to_any(self) -> AnyValue {
        AnyValue::Heap(Box::new((*self).spec_to_any()))
    }

    open spec fn spec_from_any(v: AnyValue) -> Self {
        Arc::new(T::spec_from_any(*v->Heap_0))
    }

    open spec fn spec_type_name() -> Seq<char> {
        "PrismArc<"@ + T::spec_type_name() + ">"@
    }

    fn to_any(&self) -> (r: AnyValue) {
        let inner = (**self).to_any();
        AnyValue::Heap(Box::new(inner))
    }

    fn from_any(v: &AnyValue) -> (r: Self) {
        match v {
            AnyValue::Heap(b) => Arc::new(T::from_any(&**b)),
            _ => {
                assert(false);
                Arc::new(T::from_any(v))
            },
        }
    }

    fn check(v: &AnyValue) -> (b: bool) {
        match v {
            AnyValue::Heap(b) => T::check(&**b),
            _ => false,
        }
    }

    fn type_string() -> (s: String) {
        let mut s = String::from_str("PrismArc<");
        let inner = T::type_string();
        s.append(inner.as_str());
        s.append(">");
        s
    }
}

/// A Prism value that you know the type of in Rust.
#[derive(Debug)]
pub struct Value<T: ValueType> {
    value: AnyValue,
    phantom: PhantomData<T>,
}

impl<T: ValueType> Value<T> {
    #[verifier::type_invariant]
    spec fn inv(self) -> bool {
        &&& T::has_type(self.value)
        &&& T::spec_from_any(self.value).spec_to_any() == self.value
    }

    /// The dynamic representation of this value.
    pub closed spec fn any(self) -> AnyValue {
        self.value
    }

    /// Wrap a Rust value.
    pub fn wrap(value: T) -> (r: Self)
        ensures
            r@ == value,
            r.any() == value.spec_to_any(),
    {
        let any = value.to_any();
        Value { value: any, phantom: PhantomData }
    }

    /// Convert to the inner value.
    pub fn get(self) -> (r: T)
        ensures
            r == self@,
            r.spec_to_any() == self.any(),
    {
        proof {
            use_type_invariant(&self);
        }
        T::from_any(&self.value)
    }

    /// Read the inner value without giving up the handle.
    pub fn get_ref(&self) -> (r: T)
        ensures
            r == self@,
    {
        proof {
            use_type_invariant(self);
        }
        T::from_any(&self.value)
    }

    /// The dynamic representation of this value.
    pub fn to_any_value(&self) -> (r: AnyValue)
        ensures
            r == self.any(),
    {
        self.value.clone()
    }
}

impl<T: ValueType> View for Value<T> {
    type V = T;

    closed spec fn view(&self) -> T {
        T::spec_from_any(self.value)
    }
}

impl<T: ValueType> Clone for Value<T> {
    fn clone(&self) -> (r: Self)
        ensures
            r == *self,
    {
        proof {
            use_type_invariant(self);
        }
        Value { value: self.value.clone(), phantom: PhantomData }
    }
}

impl<T: ValueType> ValueType for Value<T> {
    open spec fn has_type(v: AnyValue) -> bool {
        T::has_type(v)
    }

    closed spec fn spec_to_any(self) -> AnyValue {
        self.value
    }

    closed spec fn spec_from_any(v: AnyValue) -> Self {
        Value { value: v, phantom: PhantomData }
    }

    open spec fn spec_type_name() -> Seq<char> {
        "Value<"@ + T::spec_type_name() + ">"@
    }

    fn to_any(&self) -> (r: AnyValue) {
        proof {
            use_type_invariant(self);
        }
        self.value.clone()
    }

    fn from_any(v: &AnyValue) -> (r: Self) {
        let t = T::from_any(v);
        Value { value: v.clone(), phantom: PhantomData }
    }

    fn check(v: &AnyValue) -> (b: bool) {
        T::check(v)
    }

    fn type_string() -> (s: String) {
        let mut s = String::from_str("Value<");
        let inner = T::type_string();
        s.append(inner.as_str());
        s.append(">");
        s
    }
}

impl<A: ValueType, B: ValueType> ValueType for (A, B) {
    open spec fn has_type(v: AnyValue) -> bool {
        v is Pair && A::has_type(*v->Pair_0) && B::has_type(*v->Pair_1)
    }

    open spec fn spec_to_any(self) -> AnyValue {
        AnyValue::Pair(Box::new(self.0.spec_to_any()), Box::new(self.1.spec_to_any()))
    }

    open spec fn spec_from_any(v: AnyValue) -> Self {
        (A::spec_from_any(*v->Pair_0), B::spec_from_any(*v->Pair_1))
    }

    open spec fn spec_type_name() -> Seq<char> {
        "("@ + A::spec_type_name() + ", "@ + B::spec_type_name() + ")"@
    }

    fn to_any(&self) -> (r: AnyValue) {
        let a = self.0.to_any();
        let b = self.1.to_any();
        AnyValue::Pair(Box::new(a), Box::new(b))
    }

    fn from_any(v: &AnyValue) -> (r: Self) {
        match v {
            AnyValue::Pair(a, b) => (A::from_any(&**a), B::from_any(&**b)),
            _ => {
                assert(false);
                (A::from_any(v), B::from_any(v))
            },
        }
    }

    fn check(v: &AnyValue) -> (b: bool) {
        match v {
            AnyValue::Pair(a, b) => A::check(&**a) && B::check(&**b),
            _ => false,
        }
    }

    fn type_string() -> (s: String) {
        let mut s = String::from_str("(");
        let a = A::type_string();
        let b = B::type_string();
        s.append(a.as_str());
        s.append(", ");
        s.append(b.as_str());
        s.append(")");
        s
    }
}

/// A Prism value for a heap, boxed type.
pub type PrismArc<T> = Value<Arc<T>>;

impl<T: ValueType> PrismArc<T> {
    /// Create a new managed heap value.
    pub fn new(value: T) -> (r: Self)
        ensures
            *r@ == value,
            r.any() == AnyValue::Heap(Box::new(value.spec_to_any())),
    {
        Value::wrap(Arc::new(value))
    }

    /// Take the heap value out of its handle.
    pub fn extract(self) -> (r: T)
        ensures
            r == *self@,
    {
        proof {
            use_type_invariant(&self);
        }
        let any = self.to_any_value();
        match any {
            AnyValue::Heap(b) => T::from_any(&*b),
            _ => {
                assert(false);
                T::from_any(&any)
            },
        }
    }
}

impl<T: ValueType> From<T> for Value<T> {
    /// Wrap a Rust value.
    fn from(value: T) -> (r: Value<T>) {
        Value::wrap(value)
    }
}

impl<T: ValueType> FromSpecImpl<T> for Value<T> {
    open spec fn obeys_from_spec() -> bool {
        true
    }

    closed spec fn from_spec(v: T) -> Value<T> {
        Value { value: v.spec_to_any(), phantom: PhantomData }
    }
}

impl<T: ValueType> From<Value<T>> for AnyValue {
    /// The dynamic representation of a value.
    fn from(value: Value<T>) -> (r: AnyValue) {
        value.to_any_value()
    }
}

impl<T: ValueType> FromSpecImpl<Value<T>> for AnyValue {
    open spec fn obeys_from_spec() -> bool {
        true
    }

    closed spec fn from_spec(v: Value<T>) -> AnyValue {
        v.value
    }
}

/// There's a type mismatch.
#[derive(Debug)]
pub struct TypeMismatch {
    /// The name of the type that was asked for.
    pub expected: String,
    /// The shape of the value that was found.
    pub actual: String,
}

impl AnyValue {
    /// Go from [`AnyValue`] to a specific [`Value`] type, or report the mismatch.
    pub fn try_downcast<T: ValueType>(self) -> (r: Result<Value<T>, TypeMismatch>)
        ensures
            T::has_type(self) ==> (r matches Ok(v) && v.any() == self),
            !T::has_type(self) ==> (r matches Err(m) && m.expected@ == T::spec_type_name()
                && m.actual@ == spec_shape_name(self)),
    {
        if T::check(&self) {
            Ok(self.downcast())
        } else {
            let expected = T::type_string();
            let actual = self.type_string();
            Err(TypeMismatch { expected, actual })
        }
    }

    /// Go from [`AnyValue`] to a specific [`Value`] type. The value must have the type.
    pub fn downcast<T: ValueType>(self) -> (r: Value<T>)
        requires
            T::has_type(self),
        ensures
            r.any() == self,
            r@ == T::spec_from_any(self),
    {
        let t = T::from_any(&self);
        Value { value: self, phantom: PhantomData }
    }
}

/// `a` and `b` are the same value: the same shape and contents, strings
/// compared by their characters.
pub open spec fn same(a: AnyValue, b: AnyValue) -> bool
    decreases a,
{
    match (a, b) {
        (AnyValue::Heap(x), AnyValue::Heap(y)) => same(*x, *y),
        (AnyValue::Pair(x1, x2), AnyValue::Pair(y1, y2)) => same(*x1, *y1) && same(*x2, *y2),
        (AnyValue::First(x), AnyValue::First(y)) => same(*x, *y),
        (AnyValue::Second(x), AnyValue::Second(y)) => same(*x, *y),
        (AnyValue::Both(x1, x2), AnyValue::Both(y1, y2)) => same(*x1, *y1) && same(*x2, *y2),
        (AnyValue::Str(x), AnyValue::Str(y)) => x@ == y@,
        _ => a == b,
    }
}

/// `v` holds no string anywhere inside.
pub open spec fn string_free(v: AnyValue) -> bool
    decreases v,
{
    match v {
        AnyValue::Heap(x) => string_free(*x),
        AnyValue::Pair(a, b) => string_free(*a) && string_free(*b),
        AnyValue::First(x) => string_free(*x),
        AnyValue::Second(x) => string_free(*x),
        AnyValue::Both(a, b) => string_free(*a) && string_free(*b),
        AnyValue::Str(_) => false,
        _ => true,
    }
}

/// On values without strings, two values are the same exactly when they
/// are equal, component by component.
pub proof fn lemma_same_is_equality(a: AnyValue, b: AnyValue)
    requires
        string_free(a),
    ensures
        same(a, b) <==> a == b,
    decreases a,
{
    match (a, b) {
        (AnyValue::Heap(x), AnyValue::Heap(y)) => {
            lemma_same_is_equality(*x, *y);
        },
        (AnyValue::Pair(x1, x2), AnyValue::Pair(y1, y2)) => {
            lemma_same_is_equality(*x1, *y1);
            lemma_same_is_equality(*x2, *y2);
        },
        (AnyValue::First(x), AnyValue::First(y)) => {
            lemma_same_is_equality(*x, *y);
        },
        (AnyValue::Second(x), AnyValue::Second(y)) => {
            lemma_same_is_equality(*x, *y);
        },
        (AnyValue::Both(x1, x2), AnyValue::Both(y1, y2)) => {
            lemma_same_is_equality(*x1, *y1);
            lemma_same_is_equality(*x2, *y2);
        },
        _ => {},
    }
}

/// Every value that has type `T` has the shape that the name of `T` spells.
pub open spec fn names_shape<T: ValueType>() -> bool {
    forall|v: AnyValue| T::has_type(v) ==> #[trigger] spec_shape_name(v) == T::spec_type_name()
}

/// The name of `()` spells the shape of its value.
pub proof fn lemma_unit_names_shape()
    ensures
        names_shape::<()>(),
{
}

/// The name of `u32` spells the shape of its values.
pub proof fn lemma_u32_names_shape()
    ensures
        names_shape::<u32>(),
{
}

/// The name of `i32` spells the shape of its values.
pub proof fn lemma_i32_names_shape()
    ensures
        names_shape::<i32>(),
{
}

/// The name of `String` spells the shape of its values.
pub proof fn lemma_string_names_shape()
    ensures
        names_shape::<String>(),
{
}

/// When the names of `A` and `B` spell the shapes of their values, the name
/// of the pair type spells the shape of its values: the first component's
/// name, then the second's.
pub proof fn lemma_pair_names_shape<A: ValueType, B: ValueType>()
    requires
        names_shape::<A>(),
        names_shape::<B>(),
    ensures
        names_shape::<(A, B)>(),
{
    assert forall|v: AnyValue| <(A, B) as ValueType>::has_type(v) implies #[trigger] spec_shape_name(v)
        == <(A, B) as ValueType>::spec_type_name() by {
        assert(A::has_type(*v->Pair_0));
        assert(B::has_type(*v->Pair_1));
        assert(spec_shape_name(*v->Pair_0) == A::spec_type_name());
        assert(spec_shape_name(*v->Pair_1) == B::spec_type_name());
    }
}

/// When the name of `T` spells the shape of its values, so does the name of
/// a shared pointer to `T`.
pub proof fn lemma_arc_names_shape<T: ValueType>()
    requires
        names_shape::<T>(),
    ensures
        names_shape::<Arc<T>>(),
{
    assert forall|v: AnyValue| <Arc<T> as ValueType>::has_type(v) implies #[trigger] spec_shape_name(v)
        == <Arc<T> as ValueType>::spec_type_name() by {
        assert(T::has_type(*v->Heap_0));
        assert(spec_shape_name(*v->Heap_0) == T::spec_type_name());
    }
}

/// Are `a` and `b` the same value?
pub fn same_value(a: &AnyValue, b: &AnyValue) -> (r: bool)
    ensures
        r == same(*a, *b),
    decreases a,
{
    match (a, b) {
        (AnyValue::Unit, AnyValue::Unit) => true,
        (AnyValue::U32(x), AnyValue::U32(y)) => *x == *y,
        (AnyValue::I32(x), AnyValue::I32(y)) => *x == *y,
        (AnyValue::Heap(x), AnyValue::Heap(y)) => same_value(&**x, &**y),
        (AnyValue::Pair(x1, x2), AnyValue::Pair(y1, y2)) => same_value(&**x1, &**y1) && same_value(
            &**x2,
            &**y2,
        ),
        (AnyValue::First(x), AnyValue::First(y)) => same_value(&**x, &**y),
        (AnyValue::Second(x), AnyValue::Second(y)) => same_value(&**x, &**y),
        (AnyValue::Both(x1, x2), AnyValue::Both(y1, y2)) => same_value(&**x1, &**y1) && same_value(
            &**x2,
            &**y2,
        ),
        (AnyValue::Event(x), AnyValue::Event(y)) => *x == *y,
        (AnyValue::Behavior(x), AnyValue::Behavior(y)) => *x == *y,
        (AnyValue::Dynamic(x1, x2), AnyValue::Dynamic(y1, y2)) => *x1 == *y1 && *x2 == *y2,
        (AnyValue::Str(x), AnyValue::Str(y)) => *x == *y,
        _ => false,
    }
}

} // verus!
