use interpreter::environment::Environment;
use interpreter::object::{FloatTerm, IntObject, Object, ObjectKind};

fn float_value(term: &FloatTerm) -> f64 {
    match term {
        FloatTerm::Literal(text) => text.parse::<f64>().unwrap(),
        FloatTerm::Integer(value) => *value as f64,
        FloatTerm::Sum(lhs, rhs) => float_value(lhs) + float_value(rhs),
    }
}

fn float_text(term: &FloatTerm) -> String {
    float_value(term).to_string()
}

fn float_equal(a: &FloatTerm, b: &FloatTerm) -> bool {
    float_value(a) == float_value(b)
}

#[test]
fn test_objs() {
    let lhs = Object::new(ObjectKind::Int(IntObject::new(123)));
    let rhs = Object::new(ObjectKind::Int(IntObject::new(456)));
    assert_eq!(lhs.to_string(&float_text), "123");
    assert_eq!(rhs.to_string(&float_text), "456");

    let expected_result = Object::new(ObjectKind::Int(IntObject::new(579)));
    assert!(lhs.add(rhs).equals(&expected_result, &float_equal));
}

#[test]
fn test_variable() {
    let mut env = Environment::new();
    let name = String::from("x");
    let val = Object::new(ObjectKind::Int(IntObject::new(123)));

    env.insert(name, val.clone());
    assert!(env.get(&String::from("x")).unwrap().equals(&val, &float_equal));
}

use interpreter::object::{FloatObject, StringObject};

#[test]
fn objects_add_by_kind() {
    let two = Object::new(ObjectKind::Int(IntObject::new(2)));
    let half = Object::new(ObjectKind::Float(FloatObject::new(FloatTerm::Literal(String::from("0.5")))));
    let sum = two.add(half);
    assert_eq!(sum.to_string(&float_text), "2.5");
    let hello = Object::new(ObjectKind::String(StringObject::new(String::from("he"))));
    let llo = Object::new(ObjectKind::String(StringObject::new(String::from("llo"))));
    let word = hello.add(llo);
    assert_eq!(word.to_string(&float_text), "hello");
    let expected = Object::new(ObjectKind::String(StringObject::new(String::from("hello"))));
    assert!(word.equals(&expected, &float_equal));
    assert!(!word.equals(&Object::new(ObjectKind::Int(IntObject::new(5))), &float_equal));
}

#[test]
fn floats_compare_by_value() {
    let a = Object::new(ObjectKind::Float(FloatObject::new(FloatTerm::Literal(String::from("1.0")))));
    let b = Object::new(ObjectKind::Float(FloatObject::new(FloatTerm::Literal(String::from("1.00")))));
    assert!(a.equals(&b, &float_equal));
    let one = Object::new(ObjectKind::Int(IntObject::new(1)));
    assert!(!a.equals(&one, &float_equal));
}

#[test]
fn insert_replaces_a_binding() {
    let mut env = Environment::new();
    env.insert(String::from("x"), Object::new(ObjectKind::Int(IntObject::new(1))));
    env.insert(String::from("y"), Object::new(ObjectKind::Int(IntObject::new(2))));
    env.insert(String::from("x"), Object::new(ObjectKind::Int(IntObject::new(3))));
    let three = Object::new(ObjectKind::Int(IntObject::new(3)));
    let two = Object::new(ObjectKind::Int(IntObject::new(2)));
    assert!(env.get(&String::from("x")).unwrap().equals(&three, &float_equal));
    assert!(env.get(&String::from("y")).unwrap().equals(&two, &float_equal));
    assert!(env.get(&String::from("z")).is_none());
}
