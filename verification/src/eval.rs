//! Evaluating expressions: a single operand, `a + b`, or `name = value`.
use vstd::prelude::*;
use vstd::string::StringExecFns;
use crate::environment::Environment;
use crate::object::{
    add_values, shown, shows_as, FloatObject, FloatTerm, FloatValue, IntObject, Object, ObjectKind,
    Shown, StringObject, Value,
};
use crate::token::{
    is_lexable, lexable, parse, tokens_of, LiteralValue, OperandType, OperatorType, Token, TokenKind,
    TokenModel, TokenType,
};

verus! {

/// The value a token stands for: a literal's value, or the value a variable
/// is bound to; operators and unbound names are errors.
pub open spec fn token_value(t: TokenModel, env: Map<Seq<char>, Value>) -> Result<Value, Seq<char>> {
    match t.kind {
        TokenKind::Int(v) => Ok(Value::Int(v)),
        TokenKind::Float(text) => Ok(Value::Float(FloatValue::Literal(text))),
        TokenKind::Str(s) => Ok(Value::Str(s)),
        TokenKind::Identifier => if env.contains_key(t.representation) {
            Ok(env[t.representation])
        } else {
            Err("Undefined variable: "@ + t.representation)
        },
        _ => Err("Invalid token: "@ + t.representation),
    }
}

/// What evaluating `e` in `env` gives, and the environment after it.
///
/// No tokens is an error; one token is displayed; of three tokens the middle
/// one decides: `+` adds the values of the other two (the left one looked up
/// first), `=` binds the representation of the left one to the value of the
/// right one and displays nothing, anything else is an error; any other
/// number of tokens is an error.
pub open spec fn evaluation(e: Seq<char>, env: Map<Seq<char>, Value>) -> (
    Result<Option<Shown>, Seq<char>>,
    Map<Seq<char>, Value>,
) {
    let ts = tokens_of(e);
    if ts.len() == 0 {
        (Err("Empty expression"@), env)
    } else if ts.len() == 1 {
        match token_value(ts[0], env) {
            Ok(v) => (Ok(Some(shown(v))), env),
            Err(m) => (Err(m), env),
        }
    } else if ts.len() == 3 {
        match ts[1].kind {
            TokenKind::Add => match token_value(ts[0], env) {
                Err(m) => (Err(m), env),
                Ok(a) => match token_value(ts[2], env) {
                    Err(m) => (Err(m), env),
                    Ok(b) => (Ok(Some(shown(add_values(a, b)->0))), env),
                },
            },
            TokenKind::Assign => match token_value(ts[2], env) {
                Err(m) => (Err(m), env),
                Ok(v) => (Ok(None), env.insert(ts[0].representation, v)),
            },
            _ => (Err("Unknown operator: "@ + ts[1].representation), env),
        }
    } else {
        (Err("Invalid expression"@), env)
    }
}

/// Whether evaluating `e` in `env` cannot complete: a word of `e` is a lone
/// double quote, or `e` adds two values that do not add (an integer
/// overflow, or a string and a number).
pub open spec fn evaluation_aborts(e: Seq<char>, env: Map<Seq<char>, Value>) -> bool {
    ||| !lexable(e)
    ||| {
        let ts = tokens_of(e);
        &&& ts.len() == 3
        &&& ts[1].kind is Add
        &&& token_value(ts[0], env) is Ok
        &&& token_value(ts[2], env) is Ok
        &&& add_values(token_value(ts[0], env)->Ok_0, token_value(ts[2], env)->Ok_0) is None
    }
}

/// `r` is the result `s` with displays made by `float_text`.
pub open spec fn reports<F: Fn(&FloatTerm) -> String>(
    float_text: F,
    s: Result<Option<Shown>, Seq<char>>,
    r: Result<Option<String>, String>,
) -> bool {
    match s {
        Ok(None) => r == Ok::<Option<String>, String>(None),
        Ok(Some(sh)) => r matches Ok(Some(out)) && shows_as(float_text, sh, out@),
        Err(m) => r matches Err(msg) && msg@ == m,
    }
}

fn message(prefix: &str, name: &String) -> (m: String)
    ensures
        m@ == prefix@ + name@,
{
    let mut m = prefix.to_owned();
    m.append(name.as_str());
    m
}

/// The value a token stands for in `environment`.
pub fn get_token_value(token: &Token, environment: &Environment) -> (r: Result<Object, String>)
    ensures
        match token_value(token@, environment@) {
            Ok(v) => r matches Ok(o) && o@ == v,
            Err(m) => r matches Err(msg) && msg@ == m,
        },
{
    match &token.token_type {
        TokenType::Operand(OperandType::Literal(literal)) => {
            match literal {
                LiteralValue::Int(val) => Ok(Object::new(ObjectKind::Int(IntObject::new(*val)))),
                LiteralValue::Float(text) => {
                    let t = FloatTerm::Literal(text.clone());
                    assert(t@ == FloatValue::Literal(text@));
                    Ok(Object::new(ObjectKind::Float(FloatObject::new(t))))
                },
                LiteralValue::String(val) => Ok(
                    Object::new(ObjectKind::String(StringObject::new(val.clone()))),
                ),
            }
        },
        TokenType::Operand(OperandType::Identifier) => {
            match environment.get(&token.representation) {
                Some(o) => Ok(o),
                None => Err(message("Undefined variable: ", &token.representation)),
            }
        },
        _ => Err(message("Invalid token: ", &token.representation)),
    }
}

/// Whether `a` and `b` can be added.
fn can_add(a: &Object, b: &Object) -> (r: bool)
    ensures
        r == (add_values(a@, b@) is Some),
{
    match (&a.obj, &b.obj) {
        (ObjectKind::Int(x), ObjectKind::Int(y)) => x.value.checked_add(y.value).is_some(),
        (ObjectKind::Int(_), ObjectKind::Float(_)) => true,
        (ObjectKind::Float(_), ObjectKind::Float(_)) => true,
        (ObjectKind::Float(_), ObjectKind::Int(_)) => true,
        (ObjectKind::String(_), ObjectKind::String(_)) => true,
        _ => false,
    }
}

/// Whether evaluating `expression` in `environment` cannot complete.
pub fn evaluation_would_abort(expression: &str, environment: &Environment) -> (b: bool)
    ensures
        b == evaluation_aborts(expression@, environment@),
{
    if !is_lexable(expression) {
        return true;
    }
    let tokens = parse(expression);
    let ghost ts = tokens_of(expression@);
    if tokens.len() != 3 {
        return false;
    }
    assert(tokens@[0]@ == ts[0] && tokens@[1]@ == ts[1] && tokens@[2]@ == ts[2]);
    match &tokens[1].token_type {
        TokenType::Operator(OperatorType::Add) => {},
        _ => {
            return false;
        },
    }
    let lhs = match get_token_value(&tokens[0], environment) {
        Ok(v) => v,
        Err(_) => {
            return false;
        },
    };
    let rhs = match get_token_value(&tokens[2], environment) {
        Ok(v) => v,
        Err(_) => {
            return false;
        },
    };
    !can_add(&lhs, &rhs)
}

/// Evaluates one expression, updating `environment` by an assignment.
/// Floating-point values are displayed by `float_text`.
pub fn evaluate<F: Fn(&FloatTerm) -> String>(
    expression: &str,
    environment: &mut Environment,
    float_text: &F,
) -> (result: Result<Option<String>, String>)
    requires
        forall|t: &FloatTerm| float_text.requires((t,)),
        !evaluation_aborts(expression@, old(environment)@),
    ensures
        reports(*float_text, evaluation(expression@, old(environment)@).0, result),
        final(environment)@ == evaluation(expression@, old(environment)@).1,
{
    let tokens = parse(expression);
    let ghost ts = tokens_of(expression@);
    assert(forall|i: int| 0 <= i < tokens.len() ==> tokens@[i]@ == ts[i]);
    if tokens.len() == 0 {
        return Err("Empty expression".to_owned());
    }
    if tokens.len() == 1 {
        assert(tokens@[0]@ == ts[0]);
        let value = match get_token_value(&tokens[0], environment) {
            Ok(v) => v,
            Err(e) => {
                return Err(e);
            },
        };
        return Ok(Some(value.to_string(float_text)));
    }
    if tokens.len() == 3 {
        assert(tokens@[0]@ == ts[0] && tokens@[1]@ == ts[1] && tokens@[2]@ == ts[2]);
        match &tokens[1].token_type {
            TokenType::Operator(OperatorType::Add) => {
                let lhs_object = match get_token_value(&tokens[0], environment) {
                    Ok(v) => v,
                    Err(e) => {
                        return Err(e);
                    },
                };
                let rhs_object = match get_token_value(&tokens[2], environment) {
                    Ok(v) => v,
                    Err(e) => {
                        return Err(e);
                    },
                };
                let result = lhs_object.add(rhs_object);
                return Ok(Some(result.to_string(float_text)));
            },
            TokenType::Operator(OperatorType::Assign) => {
                let value = match get_token_value(&tokens[2], environment) {
                    Ok(v) => v,
                    Err(e) => {
                        return Err(e);
                    },
                };
                let name = tokens[0].representation.clone();
                environment.insert(name, value.clone());
                return Ok(None);
            },
            _ => {
                return Err(message("Unknown operator: ", &tokens[1].representation));
            },
        }
    }
    Err("Invalid expression".to_owned())
}

} // verus!
