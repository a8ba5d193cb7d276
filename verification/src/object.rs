//! The interpreter's values: integers, floating-point numbers and strings,
//! with addition, display and equality.
use vstd::prelude::*;
use vstd::string::StringExecFns;
use crate::text::{int_text, int_to_chars, string_of};

verus! {

/// A floating-point value, held as the expression that computes it: the
/// `f64` that a literal's text parses to, an integer converted with
/// `as f64`, or the `f64` sum of two such values, left operand first.
///
/// Floating-point arithmetic is not done in this library: the functions
/// that display or compare floating-point values take the host's
/// computation as a closure.
#[derive(Debug)]
pub enum FloatTerm {
    Literal(String),
    Integer(i64),
    Sum(Box<FloatTerm>, Box<FloatTerm>),
}

/// A `FloatTerm` as a mathematical value.
pub enum FloatValue {
    Literal(Seq<char>),
    Integer(i64),
    Sum(Box<FloatValue>, Box<FloatValue>),
}

pub open spec fn float_value(t: FloatTerm) -> FloatValue
    decreases t,
{
    match t {
        FloatTerm::Literal(s) => FloatValue::Literal(s@),
        FloatTerm::Integer(i) => FloatValue::Integer(i),
        FloatTerm::Sum(a, b) => FloatValue::Sum(
            Box::new(float_value(*a)),
            Box::new(float_value(*b)),
        ),
    }
}

impl View for FloatTerm {
    type V = FloatValue;

    open spec fn view(&self) -> FloatValue {
        float_value(*self)
    }
}

impl Clone for FloatTerm {
    fn clone(&self) -> (r: Self)
        ensures
            r@ == self@,
        decreases self,
    {
        match self {
            FloatTerm::Literal(s) => FloatTerm::Literal(s.clone()),
            FloatTerm::Integer(i) => FloatTerm::Integer(*i),
            FloatTerm::Sum(a, b) => {
                let x = (**a).clone();
                let y = (**b).clone();
                FloatTerm::Sum(Box::new(x), Box::new(y))
            },
        }
    }
}

/// A value of the interpreter, as a mathematical value.
pub enum Value {
    Int(i64),
    Float(FloatValue),
    Str(Seq<char>),
}

/// What displaying a value gives: a text, or the display of a
/// floating-point value, which the host computes.
pub enum Shown {
    Text(Seq<char>),
    Float(FloatValue),
}

/// The display of a value: an integer in decimal, a string as itself.
pub open spec fn shown(v: Value) -> Shown {
    match v {
        Value::Int(i) => Shown::Text(int_text(i as int)),
        Value::Float(f) => Shown::Float(f),
        Value::Str(s) => Shown::Text(s),
    }
}

/// The sum of two values, or `None` where adding them fails: integers add
/// as `i64` (failing on overflow), an integer and a floating-point value add
/// as floating-point values, strings concatenate; a string and a number do
/// not add.
pub open spec fn add_values(a: Value, b: Value) -> Option<Value> {
    match (a, b) {
        (Value::Int(x), Value::Int(y)) => if i64::MIN <= x + y <= i64::MAX {
            Some(Value::Int((x + y) as i64))
        } else {
            None
        },
        (Value::Int(x), Value::Float(y)) => Some(
            Value::Float(FloatValue::Sum(Box::new(FloatValue::Integer(x)), Box::new(y))),
        ),
        (Value::Float(x), Value::Float(y)) => Some(
            Value::Float(FloatValue::Sum(Box::new(x), Box::new(y))),
        ),
        (Value::Float(x), Value::Int(y)) => Some(
            Value::Float(FloatValue::Sum(Box::new(x), Box::new(FloatValue::Integer(y)))),
        ),
        (Value::Str(x), Value::Str(y)) => Some(Value::Str(x + y)),
        _ => None,
    }
}

/// `out` is a text that `float_text` gives for a term of value `v`.
pub open spec fn float_text_gives<F: Fn(&FloatTerm) -> String>(
    float_text: F,
    v: FloatValue,
    out: Seq<char>,
) -> bool {
    exists|t: FloatTerm, r: String| t@ == v && #[trigger] float_text.ensures((&t,), r) && r@ == out
}

/// `out` is the display `s`, floating-point values displayed by `float_text`.
pub open spec fn shows_as<F: Fn(&FloatTerm) -> String>(float_text: F, s: Shown, out: Seq<char>) -> bool {
    match s {
        Shown::Text(t) => out == t,
        Shown::Float(v) => float_text_gives(float_text, v, out),
    }
}

/// `r` is what comparing `a` with `b` gives: values of different kinds are
/// unequal, integers and strings compare by value, and floating-point values
/// as `float_equal` compares them.
pub open spec fn equal_as<G: Fn(&FloatTerm, &FloatTerm) -> bool>(
    float_equal: G,
    a: Value,
    b: Value,
    r: bool,
) -> bool {
    match (a, b) {
        (Value::Int(x), Value::Int(y)) => r == (x == y),
        (Value::Str(x), Value::Str(y)) => r == (x == y),
        (Value::Float(x), Value::Float(y)) => exists|s: FloatTerm, t: FloatTerm|
            s@ == x && t@ == y && #[trigger] float_equal.ensures((&s, &t), r),
        _ => !r,
    }
}

#[derive(Debug)]
pub struct IntObject {
    pub value: i64,
}

#[derive(Debug)]
pub struct FloatObject {
    pub value: FloatTerm,
}

#[derive(Debug)]
pub struct StringObject {
    pub value: String,
}

/// The three kinds of object.
#[derive(Debug)]
pub enum ObjectKind {
    Int(IntObject),
    Float(FloatObject),
    String(StringObject),
}

/// A value of the interpreter.
#[derive(Debug)]
pub struct Object {
    pub obj: ObjectKind,
}

impl View for ObjectKind {
    type V = Value;

    open spec fn view(&self) -> Value {
        match self {
            ObjectKind::Int(o) => Value::Int(o.value),
            ObjectKind::Float(o) => Value::Float(o.value@),
            ObjectKind::String(o) => Value::Str(o.value@),
        }
    }
}

impl View for Object {
    type V = Value;

    open spec fn view(&self) -> Value {
        self.obj@
    }
}

impl IntObject {
    pub fn new(value: i64) -> (o: IntObject)
        ensures
            o.value == value,
    {
        IntObject { value }
    }

    /// The decimal text of the value.
    pub fn to_string(&self) -> (s: String)
        ensures
            s@ == int_text(self.value as int),
    {
        string_of(&int_to_chars(self.value))
    }

    /// This integer plus `other`.
    pub fn add(&self, other: &ObjectKind) -> (r: ObjectKind)
        requires
            add_values(Value::Int(self.value), other@) is Some,
        ensures
            r@ == add_values(Value::Int(self.value), other@)->0,
    {
        match other {
            ObjectKind::Int(o) => ObjectKind::Int(IntObject::new(self.value + o.value)),
            ObjectKind::Float(o) => {
                let leaf = FloatTerm::Integer(self.value);
                assert(leaf@ == FloatValue::Integer(self.value));
                let t = FloatTerm::Sum(Box::new(leaf), Box::new(o.value.clone()));
                ObjectKind::Float(FloatObject::new(t))
            },
            ObjectKind::String(_) => {
                assert(false);
                ObjectKind::Int(IntObject::new(0))
            },
        }
    }

    /// Whether `other` is the same integer.
    pub fn equals(&self, other: &ObjectKind) -> (b: bool)
        ensures
            b == (other@ == Value::Int(self.value)),
    {
        match other {
            ObjectKind::Int(o) => self.value == o.value,
            _ => false,
        }
    }
}

impl FloatObject {
    pub fn new(value: FloatTerm) -> (o: FloatObject)
        ensures
            o.value == value,
    {
        FloatObject { value }
    }

    /// The display of the value, which `float_text` computes.
    pub fn to_string<F: Fn(&FloatTerm) -> String>(&self, float_text: &F) -> (s: String)
        requires
            forall|t: &FloatTerm| float_text.requires((t,)),
        ensures
            float_text.ensures((&self.value,), s),
            float_text_gives(*float_text, self.value@, s@),
    {
        float_text(&self.value)
    }

    /// This floating-point value plus `other`.
    pub fn add(&self, other: &ObjectKind) -> (r: ObjectKind)
        requires
            add_values(Value::Float(self.value@), other@) is Some,
        ensures
            r@ == add_values(Value::Float(self.value@), other@)->0,
    {
        match other {
            ObjectKind::Float(o) => ObjectKind::Float(
                FloatObject::new(
                    FloatTerm::Sum(Box::new(self.value.clone()), Box::new(o.value.clone())),
                ),
            ),
            ObjectKind::Int(o) => {
                let leaf = FloatTerm::Integer(o.value);
                assert(leaf@ == FloatValue::Integer(o.value));
                let t = FloatTerm::Sum(Box::new(self.value.clone()), Box::new(leaf));
                ObjectKind::Float(FloatObject::new(t))
            },
            ObjectKind::String(_) => {
                assert(false);
                ObjectKind::Int(IntObject::new(0))
            },
        }
    }

    /// Whether `other` is a floating-point value equal to this one, as
    /// `float_equal` compares them.
    pub fn equals<G: Fn(&FloatTerm, &FloatTerm) -> bool>(&self, other: &ObjectKind, float_equal: &G) -> (b: bool)
        requires
            forall|s: &FloatTerm, t: &FloatTerm| float_equal.requires((s, t)),
        ensures
            equal_as(*float_equal, Value::Float(self.value@), other@, b),
    {
        match other {
            ObjectKind::Float(o) => {
                let b = float_equal(&self.value, &o.value);
                assert(float_equal.ensures((&self.value, &o.value), b));
                b
            },
            _ => false,
        }
    }
}

impl StringObject {
    pub fn new(value: String) -> (o: StringObject)
        ensures
            o.value == value,
    {
        StringObject { value }
    }

    /// The string itself.
    pub fn to_string(&self) -> (s: String)
        ensures
            s@ == self.value@,
    {
        self.value.clone()
    }

    /// This string followed by `other`, which must be a string.
    pub fn add(&self, other: &ObjectKind) -> (r: ObjectKind)
        requires
            add_values(Value::Str(self.value@), other@) is Some,
        ensures
            r@ == add_values(Value::Str(self.value@), other@)->0,
    {
        match other {
            ObjectKind::String(o) => {
                let mut s = self.value.clone();
                s.append(o.value.as_str());
                ObjectKind::String(StringObject::new(s))
            },
            _ => {
                assert(false);
                ObjectKind::Int(IntObject::new(0))
            },
        }
    }

    /// Whether `other` is the same string.
    pub fn equals(&self, other: &ObjectKind) -> (b: bool)
        ensures
            b == (other@ == Value::Str(self.value@)),
    {
        match other {
            ObjectKind::String(o) => self.value == o.value,
            _ => false,
        }
    }
}

impl ObjectKind {
    /// The display of the value.
    pub fn to_string<F: Fn(&FloatTerm) -> String>(&self, float_text: &F) -> (s: String)
        requires
            forall|t: &FloatTerm| float_text.requires((t,)),
        ensures
            shows_as(*float_text, shown(self@), s@),
    {
        match self {
            ObjectKind::Int(o) => o.to_string(),
            ObjectKind::Float(o) => o.to_string(float_text),
            ObjectKind::String(o) => o.to_string(),
        }
    }

    /// The sum of this value and `other`.
    pub fn add(&self, other: &ObjectKind) -> (r: ObjectKind)
        requires
            add_values(self@, other@) is Some,
        ensures
            r@ == add_values(self@, other@)->0,
    {
        match self {
            ObjectKind::Int(o) => o.add(other),
            ObjectKind::Float(o) => o.add(other),
            ObjectKind::String(o) => o.add(other),
        }
    }

    /// Whether this value equals `other`.
    pub fn equals<G: Fn(&FloatTerm, &FloatTerm) -> bool>(&self, other: &ObjectKind, float_equal: &G) -> (b: bool)
        requires
            forall|s: &FloatTerm, t: &FloatTerm| float_equal.requires((s, t)),
        ensures
            equal_as(*float_equal, self@, other@, b),
    {
        match self {
            ObjectKind::Int(o) => o.equals(other),
            ObjectKind::Float(o) => o.equals(other, float_equal),
            ObjectKind::String(o) => o.equals(other),
        }
    }
}

impl Clone for ObjectKind {
    fn clone(&self) -> (r: Self)
        ensures
            r@ == self@,
    {
        match self {
            ObjectKind::Int(o) => ObjectKind::Int(IntObject::new(o.value)),
            ObjectKind::Float(o) => ObjectKind::Float(FloatObject::new(o.value.clone())),
            ObjectKind::String(o) => ObjectKind::String(StringObject::new(o.value.clone())),
        }
    }
}

impl Object {
    pub fn new(obj: ObjectKind) -> (o: Object)
        ensures
            o.obj == obj,
    {
        Object { obj }
    }

    /// The display of the value.
    pub fn to_string<F: Fn(&FloatTerm) -> String>(&self, float_text: &F) -> (s: String)
        requires
            forall|t: &FloatTerm| float_text.requires((t,)),
        ensures
            shows_as(*float_text, shown(self@), s@),
    {
        self.obj.to_string(float_text)
    }

    /// The sum of this value and `rhs`.
    pub fn add(self, rhs: Object) -> (r: Object)
        requires
            add_values(self@, rhs@) is Some,
        ensures
            r@ == add_values(self@, rhs@)->0,
    {
        Object::new(self.obj.add(&rhs.obj))
    }

    /// Whether this value equals `other`.
    pub fn equals<G: Fn(&FloatTerm, &FloatTerm) -> bool>(&self, other: &Object, float_equal: &G) -> (b: bool)
        requires
            forall|s: &FloatTerm, t: &FloatTerm| float_equal.requires((s, t)),
        ensures
            equal_as(*float_equal, self@, other@, b),
    {
        self.obj.equals(&other.obj, float_equal)
    }
}

impl Clone for Object {
    fn clone(&self) -> (r: Self)
        ensures
            r@ == self@,
    {
        Object { obj: self.obj.clone() }
    }
}

} // verus!
