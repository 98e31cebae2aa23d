use crate::value::{eval, EvalError, Value};
use crate::variables::Variables;
use vstd::prelude::*;

verus! {

/// A relation or logical connective between the two sides of a guard.
#[derive(Debug, Clone, Copy, PartialEq, Eq, Hash, Structural)]
pub enum Conditional {
    Or,
    And,
    EqualTo,
    GreaterThan,
    LessThan,
}

/// One side of a guard: a value, or a nested guard.
#[derive(Debug, PartialEq)]
pub enum ConditionalValue {
    Value(Value),
    Condition(Box<Condition>),
}

/// A guard on a rule: two sides joined by a relation.
#[derive(Debug, PartialEq)]
pub struct Condition {
    pub a: ConditionalValue,
    pub cond: Conditional,
    pub b: ConditionalValue,
}

/// Two evaluated values compared by a relation.
///
/// `EqualTo`, and likewise `And` between values, is structural equality;
/// `GreaterThan` and `LessThan` need two numbers; `Or` does not apply to
/// values.
pub open spec fn compare(rel: Conditional, x: Value, y: Value) -> Result<bool, EvalError> {
    match rel {
        Conditional::EqualTo => Ok(x == y),
        Conditional::And => Ok(x == y),
        Conditional::Or => Err(EvalError::TypeMismatch),
        Conditional::GreaterThan => match (x, y) {
            (Value::Num(a), Value::Num(b)) => Ok(a > b),
            _ => Err(EvalError::TypeMismatch),
        },
        Conditional::LessThan => match (x, y) {
            (Value::Num(a), Value::Num(b)) => Ok(a < b),
            _ => Err(EvalError::TypeMismatch),
        },
    }
}

/// Whether a guard holds under the given bindings.
///
/// With a nested guard on the left, `GreaterThan` or `LessThan` is an error.
/// Otherwise a false left side makes the whole guard false, and a true one
/// makes `Or` true at once without looking at the right side; `And` and
/// `EqualTo` then take the truth of a nested guard on the right, and a plain
/// value there is an error. With a value on the left, the right side must
/// be a value too, and both are evaluated and compared.
pub open spec fn holds(c: Condition, locals: Map<char, Value>, globals: Map<char, Value>) -> Result<
    bool,
    EvalError,
>
    decreases c,
{
    match c.a {
        ConditionalValue::Condition(ca) => match c.cond {
            Conditional::GreaterThan | Conditional::LessThan => Err(EvalError::TypeMismatch),
            _ => match holds(*ca, locals, globals) {
                Err(e) => Err(e),
                Ok(false) => Ok(false),
                Ok(true) => match c.cond {
                    Conditional::Or => Ok(true),
                    _ => match c.b {
                        ConditionalValue::Value(_) => Err(EvalError::TypeMismatch),
                        ConditionalValue::Condition(cb) => holds(*cb, locals, globals),
                    },
                },
            },
        },
        ConditionalValue::Value(va) => match c.b {
            ConditionalValue::Condition(_) => Err(EvalError::TypeMismatch),
            ConditionalValue::Value(vb) => match eval(va, locals, globals) {
                Err(e) => Err(e),
                Ok(x) => match eval(vb, locals, globals) {
                    Err(e) => Err(e),
                    Ok(y) => compare(c.cond, x, y),
                },
            },
        },
    }
}

fn compare_exec(rel: Conditional, x: &Value, y: &Value) -> (r: Result<bool, EvalError>)
    ensures
        r == compare(rel, *x, *y),
{
    match rel {
        Conditional::EqualTo | Conditional::And => Ok(x.equals(y)),
        Conditional::Or => Err(EvalError::TypeMismatch),
        Conditional::GreaterThan => match (x, y) {
            (Value::Num(a), Value::Num(b)) => Ok(*a > *b),
            _ => Err(EvalError::TypeMismatch),
        },
        Conditional::LessThan => match (x, y) {
            (Value::Num(a), Value::Num(b)) => Ok(*a < *b),
            _ => Err(EvalError::TypeMismatch),
        },
    }
}

impl Condition {
    /// Evaluates the guard, taking variables first from `parameters`, then
    /// from `variables`.
    pub fn is_true(&self, parameters: &Variables, variables: &Variables) -> (r: Result<
        bool,
        EvalError,
    >)
        ensures
            r == holds(*self, parameters@, variables@),
        decreases self,
    {
        match &self.a {
            ConditionalValue::Condition(ca) => match self.cond {
                Conditional::GreaterThan | Conditional::LessThan => Err(EvalError::TypeMismatch),
                _ => match (**ca).is_true(parameters, variables) {
                    Err(e) => Err(e),
                    Ok(false) => Ok(false),
                    Ok(true) => match self.cond {
                        Conditional::Or => Ok(true),
                        _ => match &self.b {
                            ConditionalValue::Value(_) => Err(EvalError::TypeMismatch),
                            ConditionalValue::Condition(cb) => (**cb).is_true(
                                parameters,
                                variables,
                            ),
                        },
                    },
                },
            },
            ConditionalValue::Value(va) => match &self.b {
                ConditionalValue::Condition(_) => Err(EvalError::TypeMismatch),
                ConditionalValue::Value(vb) => {
                    let x = match va.evaluate(parameters, variables) {
                        Ok(x) => x,
                        Err(e) => return Err(e),
                    };
                    let y = match vb.evaluate(parameters, variables) {
                        Ok(y) => y,
                        Err(e) => return Err(e),
                    };
                    compare_exec(self.cond, &x, &y)
                },
            },
        }
    }
}

} // verus!
