//! Evaluation of expressions.
use vstd::prelude::*;

use crate::error::Error;
use crate::ksy::expr::{BinOp, Expr, UnOp};
use crate::result::{Fields, Value};
use crate::text::{concat2, concat3, decimal_i64};
#[allow(unused_imports)]
use crate::{
    error, error::ErrorModel, ksy::expr, ksy::expr::ExprModel, named, result, result::ValueModel,
    text,
};

verus! {

/// What an expression can refer to: the fields of the enclosing struct that
/// have been read so far, and, in a `repeat-until` condition, the current
/// element `_`.
pub struct EvalScope<'a> {
    pub fields: &'a Fields,
    pub current: Option<&'a Value>,
}

/// The mathematical counterpart of [`EvalScope`].
pub struct ScopeModel {
    pub fields: Seq<(Seq<char>, ValueModel)>,
    pub current: Option<ValueModel>,
}

impl<'a> View for EvalScope<'a> {
    type V = ScopeModel;

    open spec fn view(&self) -> ScopeModel {
        ScopeModel {
            fields: self.fields@,
            current: match self.current {
                Some(v) => Some(v@),
                None => None,
            },
        }
    }
}

// ---------------------------------------------------------------------------
// Conversions
// ---------------------------------------------------------------------------

/// The signed number with the same 64 bits.
pub open spec fn signed(n: u64) -> i64 {
    if n <= i64::MAX {
        n as i64
    } else {
        (n - 0x1_0000_0000_0000_0000) as i64
    }
}

/// The signed number with the same 64 bits.
pub fn to_signed(n: u64) -> (r: i64)
    ensures
        r == signed(n),
{
    if n <= 0x7fff_ffff_ffff_ffff {
        n as i64
    } else {
        -((u64::MAX - n) as i64) - 1
    }
}

/// A value as a truth value: numbers are true unless zero, and what is neither
/// a number nor a truth value is false.
pub open spec fn truth(v: ValueModel) -> bool {
    match v {
        ValueModel::Boolean(b) => b,
        ValueModel::Integer(n) => n != 0,
        ValueModel::UnsignedInteger(n) => n != 0,
        _ => false,
    }
}

fn as_bool(v: &Value) -> (r: bool)
    ensures
        r == truth(v@),
{
    proof {
        result::lemma_value_model(*v);
    }
    match v {
        Value::Boolean(b) => *b,
        Value::Integer(n) => *n != 0,
        Value::UnsignedInteger(n) => *n != 0,
        _ => false,
    }
}

/// A value as an integer, where it is a number or a truth value.
pub open spec fn integer(v: ValueModel) -> Option<i64> {
    match v {
        ValueModel::Integer(n) => Some(n),
        ValueModel::UnsignedInteger(n) => Some(signed(n)),
        ValueModel::Boolean(b) => Some(
            if b {
                1
            } else {
                0
            },
        ),
        _ => None,
    }
}

fn to_integer(v: &Value) -> (r: Option<i64>)
    ensures
        r == integer(v@),
{
    proof {
        result::lemma_value_model(*v);
    }
    match v {
        Value::Integer(n) => Some(*n),
        Value::UnsignedInteger(n) => Some(to_signed(*n)),
        Value::Boolean(b) => Some(
            if *b {
                1
            } else {
                0
            },
        ),
        _ => None,
    }
}

/// The error for a value that is needed as an integer and is none.
pub open spec fn no_integer(v: ValueModel) -> ErrorModel {
    ErrorModel::ProtocolValue("expected an integer in expression, found "@, v)
}

/// A value as an integer, or the error that says that it is none.
pub open spec fn number(v: ValueModel) -> Result<i64, ErrorModel> {
    match integer(v) {
        Some(n) => Ok(n),
        None => Err(no_integer(v)),
    }
}

fn as_i64(v: &Value) -> (r: Result<i64, Error>)
    ensures
        error::outcome(r) == number(v@),
{
    match to_integer(v) {
        Some(n) => Ok(n),
        None => Err(
            Error::ProtocolValue("expected an integer in expression, found ".to_owned(), v.clone()),
        ),
    }
}

/// Equality that looks through the kinds of numbers: what can be taken as an
/// integer is compared as such, all else as it is.
pub open spec fn alike(l: ValueModel, r: ValueModel) -> bool {
    match (integer(l), integer(r)) {
        (Some(a), Some(b)) => a == b,
        _ => result::same(l, r),
    }
}

/// Whether two values are equal as far as the expression language goes. The
/// cases of a switch are matched in the same way.
pub fn values_equal(l: &Value, r: &Value) -> (e: bool)
    ensures
        e == alike(l@, r@),
{
    match (to_integer(l), to_integer(r)) {
        (Some(a), Some(b)) => a == b,
        _ => l.same_as(r),
    }
}

// ---------------------------------------------------------------------------
// References
// ---------------------------------------------------------------------------

/// The member of `v` that the path from its element `i` on leads to.
pub open spec fn member(v: ValueModel, path: Seq<Seq<char>>, i: int) -> Result<
    ValueModel,
    ErrorModel,
>
    decreases path.len() - i,
{
    if i < 0 || i >= path.len() {
        Ok(v)
    } else {
        match v {
            ValueModel::Struct(f) => match named::find_entry(f, path[i]) {
                Some(w) => member(w, path, i + 1),
                None => Err(
                    ErrorModel::Protocol("unknown nested field reference: `"@ + path[i] + "`"@),
                ),
            },
            other => Err(
                ErrorModel::ProtocolValue(
                    "cannot access field `"@ + path[i] + "` on non-struct value "@,
                    other,
                ),
            ),
        }
    }
}

/// The value that a reference stands for.
pub open spec fn referred(path: Seq<Seq<char>>, s: ScopeModel) -> Result<ValueModel, ErrorModel> {
    if path.len() == 1 && path[0] == "_"@ {
        match s.current {
            Some(v) => Ok(v),
            None => Err(ErrorModel::Protocol("`_` is not available in this context"@)),
        }
    } else if path.len() == 0 {
        Err(ErrorModel::Protocol("empty field reference"@))
    } else {
        match named::find_entry(s.fields, path[0]) {
            Some(v) => member(v, path, 1),
            None => Err(ErrorModel::Protocol("unknown field reference: `"@ + path[0] + "`"@)),
        }
    }
}

fn lookup(path: &Vec<String>, scope: &EvalScope) -> (r: Result<Value, Error>)
    ensures
        error::outcome(r) == referred(expr::names(path@), scope@),
{
    let ghost p = expr::names(path@);
    if path.len() == 1 && *path[0].as_str() == *"_" {
        return match scope.current {
            Some(v) => Ok(v.clone()),
            None => Err(Error::Protocol("`_` is not available in this context".to_owned())),
        };
    }
    if path.len() == 0 {
        return Err(Error::Protocol("empty field reference".to_owned()));
    }
    let mut value: &Value = match scope.fields.get(path[0].as_str()) {
        Some(v) => v,
        None => return Err(
            Error::Protocol(concat3("unknown field reference: `", path[0].as_str(), "`")),
        ),
    };
    let mut i: usize = 1;
    while i < path.len()
        invariant
            1 <= i <= path@.len(),
            p == expr::names(path@),
            referred(p, scope@) == member(value@, p, i as int),
        decreases path@.len() - i,
    {
        let part = path[i].as_str();
        proof {
            result::lemma_value_model(*value);
        }
        match value {
            Value::Struct(f) => match f.get(part) {
                Some(v) => {
                    value = v;
                },
                None => {
                    return Err(
                        Error::Protocol(concat3("unknown nested field reference: `", part, "`")),
                    );
                },
            },
            other => {
                return Err(
                    Error::ProtocolValue(
                        concat3("cannot access field `", part, "` on non-struct value "),
                        other.clone(),
                    ),
                );
            },
        }
        i = i + 1;
    }
    Ok(value.clone())
}

// ---------------------------------------------------------------------------
// Operators
// ---------------------------------------------------------------------------

/// What an operator on integers gives. Sums, differences and products wrap
/// around, division truncates, and a shift goes by the low six bits of its
/// right operand. (The operators that are left over do not take integers.)
pub open spec fn calculated(op: BinOp, a: i64, b: i64) -> Result<ValueModel, ErrorModel> {
    match op {
        BinOp::Lt => Ok(ValueModel::Boolean(a < b)),
        BinOp::Le => Ok(ValueModel::Boolean(a <= b)),
        BinOp::Gt => Ok(ValueModel::Boolean(a > b)),
        BinOp::Ge => Ok(ValueModel::Boolean(a >= b)),
        BinOp::Add => Ok(ValueModel::Integer(a.wrapping_add(b))),
        BinOp::Sub => Ok(ValueModel::Integer(a.wrapping_sub(b))),
        BinOp::Mul => Ok(ValueModel::Integer(a.wrapping_mul(b))),
        BinOp::Div => if b == 0 {
            Err(ErrorModel::Protocol("division by zero in expression"@))
        } else {
            match a.checked_div(b) {
                Some(q) => Ok(ValueModel::Integer(q)),
                None => Err(ErrorModel::Protocol("division overflow in expression"@)),
            }
        },
        BinOp::Mod => if b == 0 {
            Err(ErrorModel::Protocol("modulo by zero in expression"@))
        } else {
            match a.checked_rem(b) {
                Some(q) => Ok(ValueModel::Integer(q)),
                None => Err(ErrorModel::Protocol("modulo overflow in expression"@)),
            }
        },
        BinOp::BitAnd => Ok(ValueModel::Integer(a & b)),
        BinOp::BitOr => Ok(ValueModel::Integer(a | b)),
        BinOp::BitXor => Ok(ValueModel::Integer(a ^ b)),
        BinOp::Shl => Ok(ValueModel::Integer(a << ((b as int % 64) as u32))),
        BinOp::Shr => Ok(ValueModel::Integer(a >> ((b as int % 64) as u32))),
        _ => Ok(ValueModel::Null),
    }
}

/// What an operator other than `and` and `or` gives.
pub open spec fn combined(op: BinOp, l: ValueModel, r: ValueModel) -> Result<
    ValueModel,
    ErrorModel,
> {
    match op {
        BinOp::Eq => Ok(ValueModel::Boolean(alike(l, r))),
        BinOp::Ne => Ok(ValueModel::Boolean(!alike(l, r))),
        _ => match number(l) {
            Err(e) => Err(e),
            Ok(a) => match number(r) {
                Err(e) => Err(e),
                Ok(b) => calculated(op, a, b),
            },
        },
    }
}

/// The low six bits of a shift distance.
fn distance(b: i64) -> (r: u32)
    ensures
        r == b as int % 64,
        r < 64,
{
    match b.checked_rem_euclid(64) {
        Some(n) => n as u32,
        None => 0,
    }
}

fn calculate(op: BinOp, a: i64, b: i64) -> (r: Result<Value, Error>)
    ensures
        error::outcome(r) == calculated(op, a, b),
{
    let r = match op {
        BinOp::Lt => Ok(Value::Boolean(a < b)),
        BinOp::Le => Ok(Value::Boolean(a <= b)),
        BinOp::Gt => Ok(Value::Boolean(a > b)),
        BinOp::Ge => Ok(Value::Boolean(a >= b)),
        BinOp::Add => Ok(Value::Integer(a.wrapping_add(b))),
        BinOp::Sub => Ok(Value::Integer(a.wrapping_sub(b))),
        BinOp::Mul => Ok(Value::Integer(a.wrapping_mul(b))),
        BinOp::Div => if b == 0 {
            Err(Error::Protocol("division by zero in expression".to_owned()))
        } else {
            match a.checked_div(b) {
                Some(q) => Ok(Value::Integer(q)),
                None => Err(Error::Protocol("division overflow in expression".to_owned())),
            }
        },
        BinOp::Mod => if b == 0 {
            Err(Error::Protocol("modulo by zero in expression".to_owned()))
        } else {
            match a.checked_rem(b) {
                Some(q) => Ok(Value::Integer(q)),
                None => Err(Error::Protocol("modulo overflow in expression".to_owned())),
            }
        },
        BinOp::BitAnd => Ok(Value::Integer(a & b)),
        BinOp::BitOr => Ok(Value::Integer(a | b)),
        BinOp::BitXor => Ok(Value::Integer(a ^ b)),
        BinOp::Shl => Ok(Value::Integer(a << distance(b))),
        BinOp::Shr => Ok(Value::Integer(a >> distance(b))),
        _ => Ok(Value::Null),
    };
    proof {
        if r is Ok {
            result::lemma_value_model(r->Ok_0);
        }
    }
    r
}

/// What a binary operator other than `and` and `or` gives for two values.
pub fn eval_binary(op: BinOp, l: &Value, r: &Value) -> (v: Result<Value, Error>)
    requires
        op != BinOp::And,
        op != BinOp::Or,
    ensures
        error::outcome(v) == combined(op, l@, r@),
{
    match op {
        BinOp::Eq => truth_value(values_equal(l, r)),
        BinOp::Ne => truth_value(!values_equal(l, r)),
        _ => {
            let a: i64 = match as_i64(l) {
                Ok(a) => a,
                Err(e) => return Err(e),
            };
            let b: i64 = match as_i64(r) {
                Ok(b) => b,
                Err(e) => return Err(e),
            };
            calculate(op, a, b)
        },
    }
}

fn truth_value(b: bool) -> (r: Result<Value, Error>)
    ensures
        error::outcome(r) == Ok::<ValueModel, ErrorModel>(ValueModel::Boolean(b)),
{
    proof {
        result::lemma_value_model(Value::Boolean(b));
    }
    Ok(Value::Boolean(b))
}

// ---------------------------------------------------------------------------
// Expressions
// ---------------------------------------------------------------------------

/// The value of an expression. `and` and `or` look at their right operand only
/// where the left one does not decide.
pub open spec fn evaluated(e: ExprModel, s: ScopeModel) -> Result<ValueModel, ErrorModel>
    decreases e,
{
    match e {
        ExprModel::Int(n) => Ok(ValueModel::Integer(n)),
        ExprModel::Bool(b) => Ok(ValueModel::Boolean(b)),
        ExprModel::Str(t) => Ok(ValueModel::Str(t)),
        ExprModel::Field(path) => referred(path, s),
        ExprModel::Unary(UnOp::Neg, inner) => match evaluated(*inner, s) {
            Err(e) => Err(e),
            Ok(v) => match number(v) {
                Err(e) => Err(e),
                Ok(n) => Ok(ValueModel::Integer(0i64.wrapping_sub(n))),
            },
        },
        ExprModel::Unary(UnOp::Not, inner) => match evaluated(*inner, s) {
            Err(e) => Err(e),
            Ok(v) => Ok(ValueModel::Boolean(!truth(v))),
        },
        ExprModel::Binary(op, lhs, rhs) => match evaluated(*lhs, s) {
            Err(e) => Err(e),
            Ok(l) => if (op == BinOp::And && !truth(l)) || (op == BinOp::Or && truth(l)) {
                Ok(ValueModel::Boolean(truth(l)))
            } else {
                match evaluated(*rhs, s) {
                    Err(e) => Err(e),
                    Ok(r) => if op == BinOp::And || op == BinOp::Or {
                        Ok(ValueModel::Boolean(truth(r)))
                    } else {
                        combined(op, l, r)
                    },
                }
            },
        },
    }
}

/// The value of an expression as a truth value.
pub open spec fn holds(e: ExprModel, s: ScopeModel) -> Result<bool, ErrorModel> {
    match evaluated(e, s) {
        Ok(v) => Ok(truth(v)),
        Err(e) => Err(e),
    }
}

/// The value of an expression as a number of bytes or of repetitions.
pub open spec fn measured(e: ExprModel, s: ScopeModel) -> Result<usize, ErrorModel> {
    match evaluated(e, s) {
        Err(e) => Err(e),
        Ok(v) => match number(v) {
            Err(e) => Err(e),
            Ok(n) => if n < 0 {
                Err(
                    ErrorModel::Protocol(
                        "size expression evaluated to negative value: "@ + text::decimal_signed(
                            n as int,
                        ),
                    ),
                )
            } else {
                Ok(n as usize)
            },
        },
    }
}

/// Evaluates an expression.
pub fn eval(expr: &Expr, scope: &EvalScope) -> (r: Result<Value, Error>)
    ensures
        error::outcome(r) == evaluated(expr@, scope@),
    decreases expr,
{
    match expr {
        Expr::Int(n) => {
            let v = Value::Integer(*n);
            proof {
                result::lemma_value_model(v);
            }
            Ok(v)
        },
        Expr::Bool(b) => truth_value(*b),
        Expr::Str(s) => {
            let v = Value::Str(s.clone());
            proof {
                result::lemma_value_model(v);
            }
            Ok(v)
        },
        Expr::Field(path) => lookup(path, scope),
        Expr::Unary(op, inner) => {
            let v = match eval(inner, scope) {
                Ok(v) => v,
                Err(e) => return Err(e),
            };
            match op {
                UnOp::Neg => match as_i64(&v) {
                    Ok(n) => {
                        let negated = Value::Integer(0i64.wrapping_sub(n));
                        proof {
                            result::lemma_value_model(negated);
                        }
                        Ok(negated)
                    },
                    Err(e) => Err(e),
                },
                UnOp::Not => truth_value(!as_bool(&v)),
            }
        },
        Expr::Binary(op, lhs, rhs) => {
            let l = match eval(lhs, scope) {
                Ok(v) => v,
                Err(e) => return Err(e),
            };
            if *op == BinOp::And && !as_bool(&l) {
                return truth_value(false);
            }
            if *op == BinOp::Or && as_bool(&l) {
                return truth_value(true);
            }
            let r = match eval(rhs, scope) {
                Ok(v) => v,
                Err(e) => return Err(e),
            };
            if *op == BinOp::And || *op == BinOp::Or {
                truth_value(as_bool(&r))
            } else {
                eval_binary(*op, &l, &r)
            }
        },
    }
}

/// Evaluates a condition (`if`, `repeat-until`).
pub fn eval_bool(expr: &Expr, scope: &EvalScope) -> (r: Result<bool, Error>)
    ensures
        error::outcome(r) == holds(expr@, scope@),
{
    match eval(expr, scope) {
        Ok(v) => Ok(as_bool(&v)),
        Err(e) => Err(e),
    }
}

/// Evaluates a number of bytes or of repetitions (`size`, `repeat-expr`).
pub fn eval_usize(expr: &Expr, scope: &EvalScope) -> (r: Result<usize, Error>)
    ensures
        error::outcome(r) == measured(expr@, scope@),
{
    let v = match eval(expr, scope) {
        Ok(v) => v,
        Err(e) => return Err(e),
    };
    let n: i64 = match as_i64(&v) {
        Ok(n) => n,
        Err(e) => return Err(e),
    };
    if n < 0 {
        return Err(
            Error::Protocol(
                concat2(
                    "size expression evaluated to negative value: ",
                    decimal_i64(n).as_str(),
                ),
            ),
        );
    }
    Ok(n as usize)
}

// ---------------------------------------------------------------------------
// Laws
// ---------------------------------------------------------------------------

/// Numbers are equal when they are the same number, signed or unsigned, and the
/// truth values count as one and zero.
pub proof fn law_kinds_of_numbers_do_not_matter(n: i64, m: u64)
    requires
        m <= i64::MAX,
    ensures
        alike(ValueModel::Integer(n), ValueModel::UnsignedInteger(m)) == (n == m),
        alike(ValueModel::UnsignedInteger(m), ValueModel::Integer(n)) == (n == m),
        alike(ValueModel::Boolean(true), ValueModel::Integer(n)) == (n == 1),
        alike(ValueModel::Boolean(false), ValueModel::Integer(n)) == (n == 0),
{
}

/// Strings are equal when their texts are.
pub proof fn law_strings_are_compared_by_text(s: Seq<char>, t: Seq<char>)
    ensures
        alike(ValueModel::Str(s), ValueModel::Str(t)) == (s == t),
{
}

/// Equality in expressions goes both ways.
pub proof fn law_comparing_goes_both_ways(l: ValueModel, r: ValueModel)
    requires
        result::distinctly_named(l),
        result::distinctly_named(r),
    ensures
        alike(l, r) == alike(r, l),
{
    result::law_equality_goes_both_ways(l, r);
}

/// No name stands twice in a struct that an expression can refer to.
pub open spec fn scope_distinctly_named(s: ScopeModel) -> bool {
    &&& result::distinctly_named(ValueModel::Struct(s.fields))
    &&& s.current matches Some(v) ==> result::distinctly_named(v)
}

proof fn lemma_member_named(v: ValueModel, path: Seq<Seq<char>>, i: int)
    requires
        result::distinctly_named(v),
    ensures
        match member(v, path, i) {
            Ok(w) => result::distinctly_named(w),
            Err(_) => true,
        },
    decreases path.len() - i,
{
    if 0 <= i < path.len() {
        if let ValueModel::Struct(f) = v {
            named::lemma_entry_index(f, path[i]);
            if let Some(k) = named::entry_index(f, path[i]) {
                result::lemma_entry_distinctly_named(f, f.len() as int, k);
                lemma_member_named(f[k].1, path, i + 1);
            }
        }
    }
}

/// Where no name stands twice in what an expression can refer to, none does in
/// its value, so that such values compare both ways alike.
pub proof fn law_values_of_expressions_are_distinctly_named(e: ExprModel, s: ScopeModel)
    requires
        scope_distinctly_named(s),
    ensures
        match evaluated(e, s) {
            Ok(v) => result::distinctly_named(v),
            Err(_) => true,
        },
{
    if let ExprModel::Field(path) = e {
        if path.len() > 0 {
            lemma_member_named(ValueModel::Struct(s.fields), path, 0);
        }
    }
}

/// Division truncates: quotient and remainder make up the dividend, and the
/// remainder is smaller than the divisor and has the sign of the dividend. There
/// is neither where the divisor is zero. (The one quotient that is no number of
/// 64 bits is left out.)
pub proof fn law_quotient_and_remainder(l: ValueModel, r: ValueModel, a: i64, b: i64)
    requires
        number(l) == Ok::<i64, ErrorModel>(a),
        number(r) == Ok::<i64, ErrorModel>(b),
        !(a == i64::MIN && b == -1),
    ensures
        match (combined(BinOp::Div, l, r), combined(BinOp::Mod, l, r)) {
            (Ok(ValueModel::Integer(q)), Ok(ValueModel::Integer(m))) => {
                &&& b != 0
                &&& a == q * b + m
                &&& -magnitude(b as int) < m < magnitude(b as int)
                &&& m == 0 || (m < 0) == (a < 0)
            },
            (Err(ErrorModel::Protocol(_)), Err(ErrorModel::Protocol(_))) => b == 0,
            _ => false,
        },
{
    if b != 0 {
        let x = magnitude(a as int);
        let d = magnitude(b as int);
        vstd::arithmetic::div_mod::lemma_fundamental_div_mod(x, d);
        vstd::arithmetic::div_mod::lemma_mod_bound(x, d);
        let q = x / d;
        let m = x % d;
        assert(0 <= q <= x) by (nonlinear_arith)
            requires
                d > 0,
                x >= 0,
                q == x / d,
        ;
        if d > 1 {
            assert(2 * q <= x) by (nonlinear_arith)
                requires
                    d > 1,
                    x >= 0,
                    q >= 0,
                    m >= 0,
                    x == d * q + m,
            ;
        }
        assert(q * d == d * q && (-q) * d == -(d * q) && q * (-d) == -(d * q) && (-q) * (-d) == d
            * q) by (nonlinear_arith);
    }
}

/// A number without its sign.
pub open spec fn magnitude(n: int) -> int {
    if n < 0 {
        -n
    } else {
        n
    }
}

/// `and` and `or` do not look at their right operand where the left one decides,
/// so that it may be without a value there.
pub proof fn law_the_left_operand_decides(lhs: ExprModel, rhs: ExprModel, s: ScopeModel)
    ensures
        holds(lhs, s) == Ok::<bool, ErrorModel>(false) ==> evaluated(
            ExprModel::Binary(BinOp::And, Box::new(lhs), Box::new(rhs)),
            s,
        ) == Ok::<ValueModel, ErrorModel>(ValueModel::Boolean(false)),
        holds(lhs, s) == Ok::<bool, ErrorModel>(true) ==> evaluated(
            ExprModel::Binary(BinOp::Or, Box::new(lhs), Box::new(rhs)),
            s,
        ) == Ok::<ValueModel, ErrorModel>(ValueModel::Boolean(true)),
{
}

} // verus!
