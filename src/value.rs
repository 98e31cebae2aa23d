use crate::operator::Operator;
use crate::variables::Variables;
use vstd::prelude::*;

verus! {

/// Numbers are fixed-point decimals: a `Num(n)` stands for `n / SCALE`.
pub const SCALE: i64 = 1_000_000;

/// A parameter value: a number, a variable, a color or a binary expression.
///
/// Numbers and color channels are fixed-point decimals with six places
/// (see [`SCALE`]).
#[derive(Debug, PartialEq)]
pub enum Value {
    Num(i64),
    Var(char),
    Color(i64, i64, i64, i64),
    Expr(Box<Value>, Operator, Box<Value>),
}

/// Why a value or a guard could not be evaluated.
#[derive(Debug, Clone, Copy, PartialEq, Eq, Structural)]
pub enum EvalError {
    /// An operation was applied to values of kinds it does not accept.
    TypeMismatch,
    /// A division had a zero divisor.
    DivisionByZero,
    /// A result does not fit the fixed-point range.
    Overflow,
}

pub open spec fn abs(x: int) -> int {
    if x < 0 {
        -x
    } else {
        x
    }
}

/// `n / d` rounded toward zero.
pub open spec fn trunc_quot(n: int, d: int) -> int {
    let q = abs(n) / abs(d);
    if (n < 0) == (d < 0) {
        q
    } else {
        -q
    }
}

pub open spec fn fits_i64(x: int) -> bool {
    i64::MIN <= x <= i64::MAX
}

/// A number, or `Overflow` where it leaves the range of `i64`.
pub open spec fn num_result(x: int) -> Result<Value, EvalError> {
    if fits_i64(x) {
        Ok(Value::Num(x as i64))
    } else {
        Err(EvalError::Overflow)
    }
}

/// `x` times `a` in fixed point, truncated toward zero.
pub open spec fn fixed_mul(x: int, a: int) -> int {
    trunc_quot(x * a, SCALE as int)
}

/// `a` to the whole power `k`: `k` fixed-point products starting from one,
/// each truncated; `None` where a product leaves the range of `i64`.
pub open spec fn power_steps(a: int, k: nat) -> Option<int>
    decreases k,
{
    if k == 0 {
        Some(SCALE as int)
    } else {
        match power_steps(a, (k - 1) as nat) {
            None => None,
            Some(x) => if fits_i64(fixed_mul(x, a)) {
                Some(fixed_mul(x, a))
            } else {
                None
            },
        }
    }
}

/// `a` to the whole power `k`, or to `-k` where `negative`: the reciprocal
/// of the power, truncated.
pub open spec fn whole_power(a: int, negative: bool, k: nat) -> Result<Value, EvalError> {
    match power_steps(a, k) {
        None => Err(EvalError::Overflow),
        Some(x) => if !negative {
            Ok(Value::Num(x as i64))
        } else if x == 0 {
            Err(EvalError::DivisionByZero)
        } else {
            num_result(trunc_quot(SCALE * SCALE, x))
        },
    }
}

/// An operator applied to two fixed-point numbers.
///
/// Products and quotients are truncated toward zero to six places. A power
/// with a whole exponent is computed (see `whole_power`); a power with a
/// fractional exponent is in general no finite decimal, so `Exponent` then
/// keeps the expression over the two numbers, for a consumer with floating
/// point to finish.
pub open spec fn arith(op: Operator, a: i64, b: i64) -> Result<Value, EvalError> {
    match op {
        Operator::Add => num_result(a + b),
        Operator::Sub => num_result(a - b),
        Operator::Mul => num_result(trunc_quot(a * b, SCALE as int)),
        Operator::Div => if b == 0 {
            Err(EvalError::DivisionByZero)
        } else {
            num_result(trunc_quot(a * SCALE, b as int))
        },
        Operator::Exponent => if abs(b as int) % (SCALE as int) == 0 {
            whole_power(a as int, b < 0, (abs(b as int) / (SCALE as int)) as nat)
        } else {
            Ok(Value::Expr(Box::new(Value::Num(a)), Operator::Exponent, Box::new(Value::Num(b))))
        },
    }
}

/// An operator applied to two evaluated operands, which must be numbers.
pub open spec fn apply(op: Operator, x: Value, y: Value) -> Result<Value, EvalError> {
    match (x, y) {
        (Value::Num(a), Value::Num(b)) => arith(op, a, b),
        _ => Err(EvalError::TypeMismatch),
    }
}

/// A value evaluated against rule-local bindings, then global ones.
///
/// An unbound variable stays as it is; numbers and colors are unchanged.
pub open spec fn eval(v: Value, locals: Map<char, Value>, globals: Map<char, Value>) -> Result<
    Value,
    EvalError,
>
    decreases v,
{
    match v {
        Value::Var(x) => if locals.contains_key(x) {
            Ok(locals[x])
        } else if globals.contains_key(x) {
            Ok(globals[x])
        } else {
            Ok(Value::Var(x))
        },
        Value::Expr(a, op, b) => match eval(*a, locals, globals) {
            Err(e) => Err(e),
            Ok(x) => match eval(*b, locals, globals) {
                Err(e) => Err(e),
                Ok(y) => apply(op, x, y),
            },
        },
        _ => Ok(v),
    }
}

/// Checks `x` against the range of `i64`.
fn to_num(x: i128) -> (r: Result<Value, EvalError>)
    ensures
        r == num_result(x as int),
{
    if x < i64::MIN as i128 || x > i64::MAX as i128 {
        Err(EvalError::Overflow)
    } else {
        Ok(Value::Num(x as i64))
    }
}

/// `n / d` rounded toward zero, for `d` not zero.
fn quot_toward_zero(n: i128, d: i128) -> (r: i128)
    requires
        d != 0,
        n > i128::MIN,
        d > i128::MIN,
    ensures
        r as int == trunc_quot(n as int, d as int),
{
    let un: u128 = if n < 0 {
        (-n) as u128
    } else {
        n as u128
    };
    let ud: u128 = if d < 0 {
        (-d) as u128
    } else {
        d as u128
    };
    let q: u128 = un / ud;
    assert(q <= un) by (nonlinear_arith)
        requires
            ud >= 1,
            q == un / ud,
    ;
    if (n < 0) == (d < 0) {
        q as i128
    } else {
        -(q as i128)
    }
}

/// Once a product leaves the power unchanged, every later one does.
proof fn lemma_power_fixed(a: int, x: int, i: nat, j: nat)
    requires
        power_steps(a, i) == Some(x),
        fixed_mul(x, a) == x,
        i <= j,
    ensures
        power_steps(a, j) == Some(x),
    decreases j - i,
{
    if j > i {
        lemma_power_fixed(a, x, i, (j - 1) as nat);
    }
}

/// Once a product flips the sign of the power, later ones keep flipping it.
proof fn lemma_power_flip(a: int, x: int, i: nat, j: nat)
    requires
        power_steps(a, i) == Some(x),
        fixed_mul(x, a) == -x,
        fits_i64(x),
        fits_i64(-x),
        i <= j,
    ensures
        power_steps(a, j) == Some(
            if (j - i) % 2 == 0 {
                x
            } else {
                -x
            },
        ),
    decreases j - i,
{
    if j > i {
        lemma_power_flip(a, x, i, (j - 1) as nat);
        assert((-x) * a == -(x * a)) by (nonlinear_arith);
        assert(fixed_mul(-x, a) == x);
    }
}

/// One fixed-point product, or `None` where it leaves the range of `i64`.
fn mul_step(x: i64, a: i64) -> (r: Option<i64>)
    ensures
        r matches Some(y) ==> fits_i64(fixed_mul(x as int, a as int)) && y == fixed_mul(
            x as int,
            a as int,
        ),
        r is None ==> !fits_i64(fixed_mul(x as int, a as int)),
{
    assert(-0x4000_0000_0000_0000_0000_0000_0000_0000 <= x as int * a as int
        <= 0x4000_0000_0000_0000_0000_0000_0000_0000) by (nonlinear_arith)
        requires
            i64::MIN <= x <= i64::MAX,
            i64::MIN <= a <= i64::MAX,
    ;
    let q = quot_toward_zero(x as i128 * a as i128, SCALE as i128);
    if q < i64::MIN as i128 || q > i64::MAX as i128 {
        None
    } else {
        Some(q as i64)
    }
}

/// `a` to the whole power `k` (see `power_steps`). The products stop early
/// once they leave the power unchanged or only flip its sign.
fn power(a: i64, k: u64) -> (r: Option<i64>)
    ensures
        r matches Some(x) ==> power_steps(a as int, k as nat) == Some(x as int),
        r is None ==> power_steps(a as int, k as nat) is None,
{
    let mut x: i64 = SCALE;
    let mut i: u64 = 0;
    while i < k
        invariant
            i <= k,
            power_steps(a as int, i as nat) == Some(x as int),
        decreases k - i,
    {
        let y = match mul_step(x, a) {
            Some(y) => y,
            None => {
                proof {
                    lemma_power_none(a as int, (i + 1) as nat, k as nat);
                }
                return None;
            },
        };
        assert(power_steps(a as int, (i + 1) as nat) == Some(y as int));
        if y == x {
            proof {
                lemma_power_fixed(a as int, x as int, i as nat, k as nat);
            }
            return Some(x);
        }
        if y as i128 == -(x as i128) {
            proof {
                lemma_power_flip(a as int, x as int, i as nat, k as nat);
            }
            if (k - i) % 2 == 0 {
                return Some(x);
            } else {
                return Some(y);
            }
        }
        x = y;
        i = i + 1;
    }
    Some(x)
}

/// Once a product leaves the range, so does every longer power.
proof fn lemma_power_none(a: int, i: nat, j: nat)
    requires
        power_steps(a, i) is None,
        i <= j,
    ensures
        power_steps(a, j) is None,
    decreases j - i,
{
    if j > i {
        lemma_power_none(a, i, (j - 1) as nat);
    }
}

/// An operator applied to two fixed-point numbers.
pub fn arith_exec(op: Operator, a: i64, b: i64) -> (r: Result<Value, EvalError>)
    ensures
        r == arith(op, a, b),
{
    match op {
        Operator::Add => to_num(a as i128 + b as i128),
        Operator::Sub => to_num(a as i128 - b as i128),
        Operator::Mul => {
            assert(-0x4000_0000_0000_0000_0000_0000_0000_0000 <= a as int * b as int
                <= 0x4000_0000_0000_0000_0000_0000_0000_0000) by (nonlinear_arith)
                requires
                    i64::MIN <= a <= i64::MAX,
                    i64::MIN <= b <= i64::MAX,
            ;
            let p: i128 = a as i128 * b as i128;
            to_num(quot_toward_zero(p, SCALE as i128))
        },
        Operator::Div => {
            if b == 0 {
                Err(EvalError::DivisionByZero)
            } else {
                assert(-0x4000_0000_0000_0000_0000_0000_0000_0000 <= a as int * SCALE as int
                    <= 0x4000_0000_0000_0000_0000_0000_0000_0000) by (nonlinear_arith)
                    requires
                        i64::MIN <= a <= i64::MAX,
                ;
                let p: i128 = a as i128 * SCALE as i128;
                to_num(quot_toward_zero(p, b as i128))
            }
        },
        Operator::Exponent => {
            let mag: u64 = if b < 0 {
                (-(b as i128)) as u64
            } else {
                b as u64
            };
            if mag % 1_000_000 != 0 {
                return Ok(
                    Value::Expr(
                        Box::new(Value::Num(a)),
                        Operator::Exponent,
                        Box::new(Value::Num(b)),
                    ),
                );
            }
            match power(a, mag / 1_000_000) {
                None => Err(EvalError::Overflow),
                Some(x) => if b >= 0 {
                    Ok(Value::Num(x))
                } else if x == 0 {
                    Err(EvalError::DivisionByZero)
                } else {
                    to_num(quot_toward_zero(1_000_000_000_000, x as i128))
                },
            }
        },
    }
}

impl Clone for Value {
    fn clone(&self) -> (r: Self)
        ensures
            r == *self,
    {
        self.duplicate()
    }
}

impl Value {
    /// A copy of this value.
    pub fn duplicate(&self) -> (r: Value)
        ensures
            r == *self,
        decreases self,
    {
        match self {
            Value::Num(n) => Value::Num(*n),
            Value::Var(x) => Value::Var(*x),
            Value::Color(r, g, b, a) => Value::Color(*r, *g, *b, *a),
            Value::Expr(a, op, b) => Value::Expr(
                Box::new((**a).duplicate()),
                *op,
                Box::new((**b).duplicate()),
            ),
        }
    }

    /// Structural equality of two values.
    pub fn equals(&self, other: &Value) -> (r: bool)
        ensures
            r == (*self == *other),
        decreases self,
    {
        match (self, other) {
            (Value::Num(a), Value::Num(b)) => *a == *b,
            (Value::Var(a), Value::Var(b)) => *a == *b,
            (Value::Color(r1, g1, b1, a1), Value::Color(r2, g2, b2, a2)) => *r1 == *r2 && *g1
                == *g2 && *b1 == *b2 && *a1 == *a2,
            (Value::Expr(a1, op1, b1), Value::Expr(a2, op2, b2)) => *op1 == *op2 && (**a1).equals(
                &**a2,
            ) && (**b1).equals(&**b2),
            _ => false,
        }
    }

    /// The number this value holds, if it is a number.
    pub fn to_num(&self) -> (r: Option<i64>)
        ensures
            r == (match *self {
                Value::Num(n) => Some(n),
                _ => None,
            }),
    {
        match self {
            Value::Num(n) => Some(*n),
            _ => None,
        }
    }

    /// Evaluates this value, taking variables first from `parameters`, then
    /// from `variables`; a variable bound in neither stays unresolved.
    pub fn evaluate(&self, parameters: &Variables, variables: &Variables) -> (r: Result<
        Value,
        EvalError,
    >)
        ensures
            r == eval(*self, parameters@, variables@),
        decreases self,
    {
        match self {
            Value::Var(x) => {
                match parameters.get(*x) {
                    Some(a) => Ok(a.duplicate()),
                    None => match variables.get(*x) {
                        Some(b) => Ok(b.duplicate()),
                        None => Ok(Value::Var(*x)),
                    },
                }
            },
            Value::Expr(a, op, b) => {
                let x = match (**a).evaluate(parameters, variables) {
                    Ok(x) => x,
                    Err(e) => return Err(e),
                };
                let y = match (**b).evaluate(parameters, variables) {
                    Ok(y) => y,
                    Err(e) => return Err(e),
                };
                match (x, y) {
                    (Value::Num(p), Value::Num(q)) => arith_exec(*op, p, q),
                    _ => Err(EvalError::TypeMismatch),
                }
            },
            Value::Num(n) => Ok(Value::Num(*n)),
            Value::Color(r, g, b, a) => Ok(Value::Color(*r, *g, *b, *a)),
        }
    }
}

} // verus!
