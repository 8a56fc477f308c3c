//! The runtime value model: a tagged sum over nil, booleans, numbers and
//! immutable strings, with its arithmetic, comparison and logical primitives.
//!
//! A number is an IEEE-754 binary64 value carried as its bit pattern.
//! Negation, ordering and equality of numbers are bit manipulations and are
//! computed (and specified) here; the four arithmetic operations are not:
//! for them the primitives hand the two operand patterns back to the caller
//! as an `Eval::NumOp`, and the embedding program computes the result.

use vstd::prelude::*;

use crate::text::concat_str;
use crate::text::lit_string;
use crate::text::str_eq;

verus! {

broadcast use vstd::string::group_string_axioms;

/// Sign bit of an IEEE-754 binary64 pattern.
pub const SIGN_MASK: u64 = 0x8000_0000_0000_0000;

/// Exponent field of an IEEE-754 binary64 pattern.
pub const EXP_MASK: u64 = 0x7FF0_0000_0000_0000;

/// Significand field of an IEEE-754 binary64 pattern.
pub const FRAC_MASK: u64 = 0x000F_FFFF_FFFF_FFFF;

/// Whether the pattern encodes a NaN: exponent all ones, significand not
/// zero.
pub open spec fn nan_bits(b: u64) -> bool {
    b & EXP_MASK == EXP_MASK && b & FRAC_MASK != 0
}

/// Whether the pattern encodes a zero (of either sign).
pub open spec fn zero_bits(b: u64) -> bool {
    b == 0 || b == SIGN_MASK
}

/// IEEE-754 equality of two binary64 patterns: never for NaN, and the two
/// zeroes are equal; all other values have a single encoding.
pub open spec fn num_eq_bits(a: u64, b: u64) -> bool {
    &&& !nan_bits(a)
    &&& !nan_bits(b)
    &&& (a == b || (zero_bits(a) && zero_bits(b)))
}

/// A key under which the usual unsigned order agrees with the IEEE-754
/// order of the encoded values: negative patterns are complemented, others
/// get the sign bit set.
pub open spec fn order_key(b: u64) -> u64 {
    if b & SIGN_MASK != 0 {
        !b
    } else {
        b | SIGN_MASK
    }
}

/// IEEE-754 `<` on two binary64 patterns: false on any NaN, the two zeroes
/// are not below one another, everything else goes by the order key.
pub open spec fn num_lt_bits(a: u64, b: u64) -> bool {
    &&& !nan_bits(a)
    &&& !nan_bits(b)
    &&& !(zero_bits(a) && zero_bits(b))
    &&& order_key(a) < order_key(b)
}

/// IEEE-754 `<=` on two binary64 patterns.
pub open spec fn num_le_bits(a: u64, b: u64) -> bool {
    num_lt_bits(a, b) || num_eq_bits(a, b)
}

/// The pattern of the negated value: the sign bit flipped.
pub open spec fn negate_bits(b: u64) -> u64 {
    b ^ SIGN_MASK
}

#[derive(Debug, Clone, PartialEq)]
pub enum Value {
    Nil,
    Number(u64),
    Bool(bool),
    Str(String),
}

/// What evaluating a binary primitive yields: either a finished value, or
/// the two number patterns whose arithmetic combination the embedder must
/// compute.
#[derive(Debug, Clone, PartialEq)]
pub enum Eval {
    Val(Value),
    NumOp(u64, u64),
}

/// The mathematical shadow of a `Value`: what a value is, with strings as
/// character sequences.
pub enum GValue {
    Nil,
    Num(u64),
    Bool(bool),
    Str(Seq<char>),
}

impl View for Value {
    type V = GValue;

    open spec fn view(&self) -> GValue {
        match self {
            Value::Nil => GValue::Nil,
            Value::Number(n) => GValue::Num(*n),
            Value::Bool(b) => GValue::Bool(*b),
            Value::Str(s) => GValue::Str(s@),
        }
    }
}

/// The mathematical shadow of an `Eval`.
pub enum GEval {
    Val(GValue),
    NumOp(u64, u64),
}

impl View for Eval {
    type V = GEval;

    open spec fn view(&self) -> GEval {
        match self {
            Eval::Val(v) => GEval::Val(v@),
            Eval::NumOp(a, b) => GEval::NumOp(*a, *b),
        }
    }
}

/// Language-level equality of two values: variants must match, numbers
/// compare by IEEE-754 equality, strings by their text.
pub open spec fn val_eq(a: GValue, b: GValue) -> bool {
    match (a, b) {
        (GValue::Nil, GValue::Nil) => true,
        (GValue::Bool(x), GValue::Bool(y)) => x == y,
        (GValue::Num(x), GValue::Num(y)) => num_eq_bits(x, y),
        (GValue::Str(x), GValue::Str(y)) => x == y,
        _ => false,
    }
}

fn is_nan_exec(b: u64) -> (r: bool)
    ensures
        r == nan_bits(b),
{
    b & EXP_MASK == EXP_MASK && b & FRAC_MASK != 0
}

fn order_key_exec(b: u64) -> (k: u64)
    ensures
        k == order_key(b),
{
    if b & SIGN_MASK != 0 {
        !b
    } else {
        b | SIGN_MASK
    }
}

fn is_zero_exec(b: u64) -> (r: bool)
    ensures
        r == zero_bits(b),
{
    b == 0 || b == SIGN_MASK
}

/// IEEE-754 equality on patterns.
pub fn num_eq(a: u64, b: u64) -> (r: bool)
    ensures
        r == num_eq_bits(a, b),
{
    if is_nan_exec(a) || is_nan_exec(b) {
        false
    } else {
        a == b || (is_zero_exec(a) && is_zero_exec(b))
    }
}

/// IEEE-754 `<` on patterns.
pub fn num_lt(a: u64, b: u64) -> (r: bool)
    ensures
        r == num_lt_bits(a, b),
{
    if is_nan_exec(a) || is_nan_exec(b) {
        false
    } else if is_zero_exec(a) && is_zero_exec(b) {
        false
    } else {
        order_key_exec(a) < order_key_exec(b)
    }
}

/// IEEE-754 `<=` on patterns.
pub fn num_le(a: u64, b: u64) -> (r: bool)
    ensures
        r == num_le_bits(a, b),
{
    num_lt(a, b) || num_eq(a, b)
}

impl Value {
    /// An owned string value with the given text.
    pub fn from_str(s: &str) -> (v: Value)
        ensures
            match v {
                Value::Str(t) => t@ == s@,
                _ => false,
            },
    {
        Value::Str(lit_string(s))
    }

    /// An owned copy, equal to the value itself.
    pub fn duplicate(&self) -> (v: Value)
        ensures
            v == *self,
    {
        match self {
            Value::Nil => Value::Nil,
            Value::Number(n) => Value::Number(*n),
            Value::Bool(b) => Value::Bool(*b),
            Value::Str(s) => Value::Str(s.clone()),
        }
    }

    /// The printed text of a value, except for numbers: booleans print
    /// `true` or `false`, nil prints `nil`, a string prints its text. The
    /// shortest round-trip decimal rendering of a number is floating-point
    /// work and is the embedder's.
    pub fn render(&self) -> (r: Option<String>)
        ensures
            match self {
                Value::Nil => r matches Some(t) && t@ == "nil"@,
                Value::Bool(b) => r matches Some(t) && t@ == (if *b {
                    "true"@
                } else {
                    "false"@
                }),
                Value::Str(s) => r matches Some(t) && t@ == s@,
                Value::Number(_) => r is None,
            },
    {
        match self {
            Value::Nil => Some(lit_string("nil")),
            Value::Bool(b) => {
                if *b {
                    Some(lit_string("true"))
                } else {
                    Some(lit_string("false"))
                }
            },
            Value::Str(s) => Some(s.clone()),
            Value::Number(_) => None,
        }
    }

    /// Language-level equality, as the `Equal` and `NotEqual` opcodes use
    /// it.
    pub fn equals(&self, rhs: &Value) -> (r: bool)
        ensures
            r == val_eq(self@, rhs@),
    {
        match (self, rhs) {
            (Value::Nil, Value::Nil) => true,
            (Value::Bool(x), Value::Bool(y)) => *x == *y,
            (Value::Number(x), Value::Number(y)) => num_eq(*x, *y),
            (Value::Str(x), Value::Str(y)) => str_eq(x.as_str(), y.as_str()),
            _ => false,
        }
    }

    /// The `+` primitive: concatenation on two strings, an arithmetic
    /// request on two numbers, a type error otherwise.
    pub fn add(self, rhs: Value) -> (r: Result<Eval, String>)
        ensures
            match (self, rhs) {
                (Value::Number(a), Value::Number(b)) => r == Ok::<Eval, String>(Eval::NumOp(a, b)),
                (Value::Str(a), Value::Str(b)) => match r {
                    Ok(Eval::Val(Value::Str(s))) => s@ == a@ + b@,
                    _ => false,
                },
                _ => match r {
                    Err(e) => e@ == "type mismatch or invalid '+' operation."@,
                    _ => false,
                },
            },
    {
        match (self, rhs) {
            (Value::Number(a), Value::Number(b)) => Ok(Eval::NumOp(a, b)),
            (Value::Str(a), Value::Str(b)) => Ok(
                Eval::Val(Value::Str(concat_str(a.as_str(), b.as_str()))),
            ),
            _ => Err(lit_string("type mismatch or invalid '+' operation.")),
        }
    }

    /// The `-` primitive: an arithmetic request on two numbers.
    pub fn sub(self, rhs: Value) -> (r: Result<Eval, String>)
        ensures
            match (self, rhs) {
                (Value::Number(a), Value::Number(b)) => r == Ok::<Eval, String>(Eval::NumOp(a, b)),
                _ => match r {
                    Err(e) => e@ == "type mismatch or invalid '-' operation."@,
                    _ => false,
                },
            },
    {
        match (self, rhs) {
            (Value::Number(a), Value::Number(b)) => Ok(Eval::NumOp(a, b)),
            _ => Err(lit_string("type mismatch or invalid '-' operation.")),
        }
    }

    /// The `*` primitive: an arithmetic request on two numbers.
    pub fn mul(self, rhs: Value) -> (r: Result<Eval, String>)
        ensures
            match (self, rhs) {
                (Value::Number(a), Value::Number(b)) => r == Ok::<Eval, String>(Eval::NumOp(a, b)),
                _ => match r {
                    Err(e) => e@ == "type mismatch or invalid '*' operation."@,
                    _ => false,
                },
            },
    {
        match (self, rhs) {
            (Value::Number(a), Value::Number(b)) => Ok(Eval::NumOp(a, b)),
            _ => Err(lit_string("type mismatch or invalid '*' operation.")),
        }
    }

    /// The `/` primitive: an arithmetic request on two numbers.
    pub fn div(self, rhs: Value) -> (r: Result<Eval, String>)
        ensures
            match (self, rhs) {
                (Value::Number(a), Value::Number(b)) => r == Ok::<Eval, String>(Eval::NumOp(a, b)),
                _ => match r {
                    Err(e) => e@ == "type mismatch or invalid '/' operation."@,
                    _ => false,
                },
            },
    {
        match (self, rhs) {
            (Value::Number(a), Value::Number(b)) => Ok(Eval::NumOp(a, b)),
            _ => Err(lit_string("type mismatch or invalid '/' operation.")),
        }
    }

    /// The unary primitives: `!` negates a boolean, `-` negates a number by
    /// flipping its sign bit.
    pub fn unary(self, op: char) -> (r: Option<Value>)
        ensures
            match self {
                Value::Bool(b) => r == if op == '!' {
                    Some(Value::Bool(!b))
                } else {
                    None::<Value>
                },
                Value::Number(n) => r == if op == '-' {
                    Some(Value::Number(negate_bits(n)))
                } else {
                    None::<Value>
                },
                _ => r is None,
            },
    {
        match self {
            Value::Bool(b) => {
                if op == '!' {
                    Some(Value::Bool(!b))
                } else {
                    None
                }
            },
            Value::Number(n) => {
                if op == '-' {
                    Some(Value::Number(n ^ SIGN_MASK))
                } else {
                    None
                }
            },
            _ => None,
        }
    }

    /// The ordering primitives, on numbers only: `op` names one of the four
    /// comparisons; an unknown name yields false, as a defensive default.
    pub fn compare(self, rhs: Value, op: &str) -> (r: Result<Value, String>)
        ensures
            match (self, rhs) {
                (Value::Number(a), Value::Number(b)) => r == Ok::<Value, String>(
                    Value::Bool(
                        if op@ == "<"@ {
                            num_lt_bits(a, b)
                        } else if op@ == "<="@ {
                            num_le_bits(a, b)
                        } else if op@ == ">"@ {
                            num_lt_bits(b, a)
                        } else if op@ == ">="@ {
                            num_le_bits(b, a)
                        } else {
                            false
                        },
                    ),
                ),
                _ => match r {
                    Err(e) => e@ == "only numerical types are comparable, near "@ + op@,
                    _ => false,
                },
            },
    {
        match (self, rhs) {
            (Value::Number(a), Value::Number(b)) => {
                let res = if str_eq(op, "<") {
                    num_lt(a, b)
                } else if str_eq(op, "<=") {
                    num_le(a, b)
                } else if str_eq(op, ">") {
                    num_lt(b, a)
                } else if str_eq(op, ">=") {
                    num_le(b, a)
                } else {
                    false
                };
                Ok(Value::Bool(res))
            },
            _ => Err(concat_str("only numerical types are comparable, near ", op)),
        }
    }

    /// The eager `and` primitive, on booleans only.
    pub fn and(self, rhs: Value) -> (r: Result<Value, String>)
        ensures
            match (self, rhs) {
                (Value::Bool(a), Value::Bool(b)) => r == Ok::<Value, String>(Value::Bool(a && b)),
                _ => match r {
                    Err(e) => e@ == "only boolean values can be used for 'and' operation."@,
                    _ => false,
                },
            },
    {
        match (self, rhs) {
            (Value::Bool(a), Value::Bool(b)) => Ok(Value::Bool(a && b)),
            _ => Err(lit_string("only boolean values can be used for 'and' operation.")),
        }
    }

    /// The eager `or` primitive, on booleans only.
    pub fn or(self, rhs: Value) -> (r: Result<Value, String>)
        ensures
            match (self, rhs) {
                (Value::Bool(a), Value::Bool(b)) => r == Ok::<Value, String>(Value::Bool(a || b)),
                _ => match r {
                    Err(e) => e@ == "only boolean values can be used for 'and' operation."@,
                    _ => false,
                },
            },
    {
        match (self, rhs) {
            (Value::Bool(a), Value::Bool(b)) => Ok(Value::Bool(a || b)),
            _ => Err(lit_string("only boolean values can be used for 'and' operation.")),
        }
    }
}

/// Law: language-level equality is reflexive for every nil, boolean and
/// string value, and for every number that is not a NaN.
pub proof fn lemma_val_eq_reflexive(v: GValue)
    requires
        match v {
            GValue::Num(b) => !nan_bits(b),
            _ => true,
        },
    ensures
        val_eq(v, v),
{
}

/// Law: language-level equality is symmetric.
pub proof fn lemma_val_eq_symmetric(a: GValue, b: GValue)
    ensures
        val_eq(a, b) == val_eq(b, a),
{
}

} // verus!
