//! Operators of the expression language.
#[allow(unused_imports)]
use vstd::arithmetic::power2;
use vstd::prelude::*;

#[allow(unused_imports)]
use crate::{
    error::ErrorModel, ksy::eval, ksy::eval::ScopeModel, ksy::expr::BinOp, ksy::expr::ExprModel,
    ksy::expr::UnOp, named, result, result::ValueModel,
};

verus! {

// ---------------------------------------------------------------------------
// Values as numbers
// ---------------------------------------------------------------------------

/// Numbers and truth values have an integer: a signed number itself, an unsigned
/// one the signed number with the same 64 bits, and truth one or zero. Other
/// values have none.
pub proof fn law_which_values_are_integers(v: ValueModel)
    ensures
        match eval::number(v) {
            Ok(n) => match v {
                ValueModel::Integer(m) => n == m,
                ValueModel::UnsignedInteger(m) => (n - m) % 0x1_0000_0000_0000_0000 == 0,
                ValueModel::Boolean(b) => b && n == 1 || !b && n == 0,
                _ => false,
            },
            Err(ErrorModel::ProtocolValue(_, w)) => w == v && !(v is Integer)
                && !(v is UnsignedInteger) && !(v is Boolean),
            Err(_) => false,
        },
{
}

/// A number is true unless it is zero, and of the other values only truth is.
pub proof fn law_what_counts_as_true(v: ValueModel)
    ensures
        eval::truth(v) == match eval::number(v) {
            Ok(n) => n != 0,
            Err(_) => false,
        },
{
}

// ---------------------------------------------------------------------------
// Comparisons
// ---------------------------------------------------------------------------

/// Comparisons agree with the order of the integers, and with each other: of
/// two numbers exactly one of less, equal and greater holds, at most is less or
/// equal and not greater, at least is greater or equal and not less.
pub proof fn law_comparisons_follow_the_order(l: ValueModel, r: ValueModel, a: i64, b: i64)
    requires
        eval::number(l) == Ok::<i64, ErrorModel>(a),
        eval::number(r) == Ok::<i64, ErrorModel>(b),
    ensures
        match (
            eval::combined(BinOp::Lt, l, r),
            eval::combined(BinOp::Le, l, r),
            eval::combined(BinOp::Gt, l, r),
            eval::combined(BinOp::Ge, l, r),
            eval::combined(BinOp::Eq, l, r),
            eval::combined(BinOp::Ne, l, r),
        ) {
            (
                Ok(ValueModel::Boolean(lt)),
                Ok(ValueModel::Boolean(le)),
                Ok(ValueModel::Boolean(gt)),
                Ok(ValueModel::Boolean(ge)),
                Ok(ValueModel::Boolean(eq)),
                Ok(ValueModel::Boolean(ne)),
            ) => {
                &&& lt == (b - a > 0)
                &&& le == !(a - b > 0)
                &&& le == (lt || eq)
                &&& gt == (a - b > 0)
                &&& gt == !le
                &&& ge == !lt
                &&& ge == (gt || eq)
                &&& eq == (a - b == 0)
                &&& ne == !eq
            },
            _ => false,
        },
{
}

/// Turning a comparison round is exchanging its operands.
pub proof fn law_comparisons_turn_round(l: ValueModel, r: ValueModel)
    requires
        result::distinctly_named(l),
        result::distinctly_named(r),
        eval::number(l) is Ok,
        eval::number(r) is Ok,
    ensures
        eval::combined(BinOp::Lt, l, r) == eval::combined(BinOp::Gt, r, l),
        eval::combined(BinOp::Le, l, r) == eval::combined(BinOp::Ge, r, l),
        eval::combined(BinOp::Eq, l, r) == eval::combined(BinOp::Eq, r, l),
        eval::combined(BinOp::Ne, l, r) == eval::combined(BinOp::Ne, r, l),
{
    eval::law_comparing_goes_both_ways(l, r);
}

/// Equality always has a value, and inequality is its negation.
pub proof fn law_equality_has_a_value(l: ValueModel, r: ValueModel)
    ensures
        match (eval::combined(BinOp::Eq, l, r), eval::combined(BinOp::Ne, l, r)) {
            (Ok(ValueModel::Boolean(eq)), Ok(ValueModel::Boolean(ne))) => eq != ne && eq
                == eval::alike(l, r),
            _ => false,
        },
{
}

/// All operators but equality ask for integers, the left operand first.
pub proof fn law_operators_ask_for_integers(op: BinOp, l: ValueModel, r: ValueModel)
    requires
        op != BinOp::Eq,
        op != BinOp::Ne,
    ensures
        eval::number(l) is Err ==> eval::combined(op, l, r) == Err::<ValueModel, ErrorModel>(
            eval::number(l)->Err_0,
        ),
        eval::number(l) is Ok && eval::number(r) is Err ==> eval::combined(op, l, r) == Err::<
            ValueModel,
            ErrorModel,
        >(eval::number(r)->Err_0),
        eval::number(l) is Ok && eval::number(r) is Ok && op != BinOp::Div && op != BinOp::Mod
            ==> eval::combined(op, l, r) is Ok,
{
}

// ---------------------------------------------------------------------------
// Arithmetic
// ---------------------------------------------------------------------------

/// Sums, differences and products are those of the integers, brought into 64
/// bits by a multiple of `2^64`.
pub proof fn law_arithmetic_wraps_around(l: ValueModel, r: ValueModel, a: i64, b: i64)
    requires
        eval::number(l) == Ok::<i64, ErrorModel>(a),
        eval::number(r) == Ok::<i64, ErrorModel>(b),
    ensures
        match eval::combined(BinOp::Add, l, r) {
            Ok(ValueModel::Integer(n)) => (n - (a + b)) % 0x1_0000_0000_0000_0000 == 0,
            _ => false,
        },
        match eval::combined(BinOp::Sub, l, r) {
            Ok(ValueModel::Integer(n)) => (n - (a - b)) % 0x1_0000_0000_0000_0000 == 0,
            _ => false,
        },
        match eval::combined(BinOp::Mul, l, r) {
            Ok(ValueModel::Integer(n)) => (n - a * b) % 0x1_0000_0000_0000_0000 == 0,
            _ => false,
        },
        i64::MIN <= a * b <= i64::MAX ==> match eval::combined(BinOp::Mul, l, r) {
            Ok(ValueModel::Integer(n)) => n == a * b,
            _ => false,
        },
{
    let m = 0x1_0000_0000_0000_0000int;
    let p = a * b;
    let q = p % m;
    vstd::arithmetic::div_mod::lemma_fundamental_div_mod(p, m);
    vstd::arithmetic::div_mod::lemma_mod_multiples_vanish(-(p / m), 0, m);
    let n = a.wrapping_mul(b);
    assert(n == q || n == q - m);
    if n == q {
        assert(n - p == m * (-(p / m)) + 0) by (nonlinear_arith)
            requires
                p == m * (p / m) + q,
                n == q,
        ;
    } else {
        vstd::arithmetic::div_mod::lemma_mod_multiples_vanish(-(p / m) - 1, 0, m);
        assert(n - p == m * (-(p / m) - 1) + 0) by (nonlinear_arith)
            requires
                p == m * (p / m) + q,
                n == q - m,
        ;
    }
}

/// The bit of a number that counts two to the power of `k`.
pub open spec fn bit(n: i64, k: u32) -> bool {
    (n >> k) & 1 == 1
}

/// The bitwise operators go bit by bit: both, one at least, one exactly.
pub proof fn law_bitwise_operators_go_bit_by_bit(
    l: ValueModel,
    r: ValueModel,
    a: i64,
    b: i64,
    k: u32,
)
    requires
        eval::number(l) == Ok::<i64, ErrorModel>(a),
        eval::number(r) == Ok::<i64, ErrorModel>(b),
        k < 64,
    ensures
        match eval::combined(BinOp::BitAnd, l, r) {
            Ok(ValueModel::Integer(n)) => bit(n, k) == (bit(a, k) && bit(b, k)),
            _ => false,
        },
        match eval::combined(BinOp::BitOr, l, r) {
            Ok(ValueModel::Integer(n)) => bit(n, k) == (bit(a, k) || bit(b, k)),
            _ => false,
        },
        match eval::combined(BinOp::BitXor, l, r) {
            Ok(ValueModel::Integer(n)) => bit(n, k) == (bit(a, k) != bit(b, k)),
            _ => false,
        },
{
    assert((((a & b) >> k) & 1 == 1) == ((a >> k) & 1 == 1 && (b >> k) & 1 == 1)) by (bit_vector)
        requires
            k < 64,
    ;
    assert((((a | b) >> k) & 1 == 1) == ((a >> k) & 1 == 1 || (b >> k) & 1 == 1)) by (bit_vector)
        requires
            k < 64,
    ;
    assert((((a ^ b) >> k) & 1 == 1) == (((a >> k) & 1 == 1) != ((b >> k) & 1 == 1)))
        by (bit_vector)
        requires
            k < 64,
    ;
}

/// A shift by nothing changes nothing. Each place more to the left doubles, up to
/// a multiple of `2^64`; each place more to the right halves, downwards. After
/// 63 places the distances start again.
pub proof fn law_shifts_double_and_halve(a: i64, b: i64, c: i64)
    requires
        (b - c) % 64 == 0,
    ensures
        eval::combined(BinOp::Shl, ValueModel::Integer(a), ValueModel::Integer(0)) == Ok::<
            ValueModel,
            ErrorModel,
        >(ValueModel::Integer(a)),
        eval::combined(BinOp::Shr, ValueModel::Integer(a), ValueModel::Integer(0)) == Ok::<
            ValueModel,
            ErrorModel,
        >(ValueModel::Integer(a)),
        eval::combined(BinOp::Shl, ValueModel::Integer(a), ValueModel::Integer(b))
            == eval::combined(BinOp::Shl, ValueModel::Integer(a), ValueModel::Integer(c)),
        eval::combined(BinOp::Shr, ValueModel::Integer(a), ValueModel::Integer(b))
            == eval::combined(BinOp::Shr, ValueModel::Integer(a), ValueModel::Integer(c)),
        0 <= b < 63 ==> match (
            eval::combined(BinOp::Shl, ValueModel::Integer(a), ValueModel::Integer(b)),
            eval::combined(BinOp::Shl, ValueModel::Integer(a), ValueModel::Integer((b + 1) as i64)),
        ) {
            (Ok(ValueModel::Integer(x)), Ok(ValueModel::Integer(y))) => (y - 2 * x)
                % 0x1_0000_0000_0000_0000 == 0,
            _ => false,
        },
        0 <= b < 63 ==> match (
            eval::combined(BinOp::Shr, ValueModel::Integer(a), ValueModel::Integer(b)),
            eval::combined(BinOp::Shr, ValueModel::Integer(a), ValueModel::Integer((b + 1) as i64)),
        ) {
            (Ok(ValueModel::Integer(x)), Ok(ValueModel::Integer(y))) => x == 2 * y || x == 2 * y
                + 1,
            _ => false,
        },
{
    assert(a << 0u32 == a) by (bit_vector);
    assert(a >> 0u32 == a) by (bit_vector);
    vstd::arithmetic::div_mod::lemma_mod_equivalence(b as int, c as int, 64);
    if 0 <= b < 63 {
        let k = b as u32;
        let k1 = (b + 1) as u32;
        let x = a << k;
        let y = a << k1;
        assert(y == x << 1u32) by {
            assert(a << k1 == (a << k) << 1u32) by (bit_vector)
                requires
                    k < 63,
                    k1 == k + 1,
            ;
        }
        assert((x << 1u32) == 2 * x || (x << 1u32) == 2 * x - 0x1_0000_0000_0000_0000 || (x
            << 1u32) == 2 * x + 0x1_0000_0000_0000_0000) by (bit_vector);
        let u = a >> k;
        let v = a >> k1;
        assert(v == u >> 1u32) by {
            assert(a >> k1 == (a >> k) >> 1u32) by (bit_vector)
                requires
                    k < 63,
                    k1 == k + 1,
            ;
        }
        assert(u == 2 * (u >> 1u32) || u == 2 * (u >> 1u32) + 1) by (bit_vector);
    }
}

/// The operators on numbers look at the integers that values have and at nothing
/// else.
pub proof fn law_only_the_integers_count(
    op: BinOp,
    l: ValueModel,
    r: ValueModel,
    a: i64,
    b: i64,
)
    requires
        eval::number(l) == Ok::<i64, ErrorModel>(a),
        eval::number(r) == Ok::<i64, ErrorModel>(b),
    ensures
        eval::combined(op, l, r) == eval::combined(
            op,
            ValueModel::Integer(a),
            ValueModel::Integer(b),
        ),
{
}

// ---------------------------------------------------------------------------
// Expressions
// ---------------------------------------------------------------------------

/// Literals stand for themselves, whatever the scope.
pub proof fn law_literals_stand_for_themselves(n: i64, b: bool, t: Seq<char>, s: ScopeModel)
    ensures
        eval::evaluated(ExprModel::Int(n), s) == Ok::<ValueModel, ErrorModel>(
            ValueModel::Integer(n),
        ),
        eval::evaluated(ExprModel::Bool(b), s) == Ok::<ValueModel, ErrorModel>(
            ValueModel::Boolean(b),
        ),
        eval::evaluated(ExprModel::Str(t), s) == Ok::<ValueModel, ErrorModel>(ValueModel::Str(t)),
{
}

/// A minus sign gives the number that makes zero together with the operand, up
/// to a multiple of `2^64`.
pub proof fn law_negation_makes_zero(e: ExprModel, s: ScopeModel)
    ensures
        match (
            eval::evaluated(e, s),
            eval::evaluated(ExprModel::Unary(UnOp::Neg, Box::new(e)), s),
        ) {
            (Ok(v), Ok(ValueModel::Integer(m))) => match eval::number(v) {
                Ok(n) => (n + m) % 0x1_0000_0000_0000_0000 == 0,
                Err(_) => false,
            },
            (Ok(v), Err(x)) => eval::number(v) == Err::<i64, ErrorModel>(x),
            (Err(x), Err(y)) => x == y,
            _ => false,
        },
{
}

/// `not` is false exactly where the operand counts as true.
pub proof fn law_not_turns_truth_round(e: ExprModel, s: ScopeModel)
    ensures
        match (
            eval::evaluated(e, s),
            eval::evaluated(ExprModel::Unary(UnOp::Not, Box::new(e)), s),
        ) {
            (Ok(v), Ok(ValueModel::Boolean(b))) => b != eval::truth(v),
            (Err(x), Err(y)) => x == y,
            _ => false,
        },
        match (eval::holds(e, s), eval::holds(ExprModel::Unary(UnOp::Not, Box::new(e)), s)) {
            (Ok(a), Ok(b)) => a == !b,
            (Err(x), Err(y)) => x == y,
            _ => false,
        },
{
}

/// `and` is true where both operands count as true, `or` where one does, as far
/// as they have values; the value is a truth value. An operand is looked at only
/// where the one before it leaves the answer open.
pub proof fn law_and_and_or(l: ExprModel, r: ExprModel, s: ScopeModel)
    ensures
        ({
            let both = eval::evaluated(ExprModel::Binary(BinOp::And, Box::new(l), Box::new(r)), s);
            let either = eval::evaluated(ExprModel::Binary(BinOp::Or, Box::new(l), Box::new(r)), s);
            match (eval::evaluated(l, s), eval::evaluated(r, s)) {
                (Ok(x), Ok(y)) => {
                    &&& both == Ok::<ValueModel, ErrorModel>(
                        ValueModel::Boolean(eval::truth(x) && eval::truth(y)),
                    )
                    &&& either == Ok::<ValueModel, ErrorModel>(
                        ValueModel::Boolean(eval::truth(x) || eval::truth(y)),
                    )
                },
                (Ok(x), Err(e)) => {
                    &&& both == (if eval::truth(x) {
                        Err(e)
                    } else {
                        Ok(ValueModel::Boolean(false))
                    })
                    &&& either == (if eval::truth(x) {
                        Ok(ValueModel::Boolean(true))
                    } else {
                        Err(e)
                    })
                },
                (Err(e), _) => both == Err::<ValueModel, ErrorModel>(e) && either == Err::<
                    ValueModel,
                    ErrorModel,
                >(e),
            }
        }),
{
}

/// The value of an operation depends on the values of its operands alone; where
/// one has none, neither has the operation.
pub proof fn law_operations_go_by_the_values_of_their_operands(
    op: BinOp,
    l: ExprModel,
    r: ExprModel,
    s: ScopeModel,
)
    requires
        op != BinOp::And,
        op != BinOp::Or,
    ensures
        ({
            let v = eval::evaluated(ExprModel::Binary(op, Box::new(l), Box::new(r)), s);
            match (eval::evaluated(l, s), eval::evaluated(r, s)) {
                (Ok(x), Ok(y)) => v == eval::combined(op, x, y),
                (Err(e), _) => v == Err::<ValueModel, ErrorModel>(e),
                (Ok(_), Err(e)) => v == Err::<ValueModel, ErrorModel>(e),
            }
        }),
{
}

/// A name stands for the field of that name.
pub proof fn law_names_stand_for_fields(name: Seq<char>, s: ScopeModel)
    requires
        named::distinct_names(s.fields),
        name != "_"@,
    ensures
        forall|k: int|
            0 <= k < s.fields.len() && (#[trigger] s.fields[k]).0 == name ==> eval::evaluated(
                ExprModel::Field(seq![name]),
                s,
            ) == Ok::<ValueModel, ErrorModel>(s.fields[k].1),
        (forall|k: int| 0 <= k < s.fields.len() ==> (#[trigger] s.fields[k]).0 != name)
            ==> eval::evaluated(ExprModel::Field(seq![name]), s) is Err,
{
    named::lemma_entry_index(s.fields, name);
    assert forall|k: int|
        0 <= k < s.fields.len() && (#[trigger] s.fields[k]).0 == name implies eval::evaluated(
        ExprModel::Field(seq![name]),
        s,
    ) == Ok::<ValueModel, ErrorModel>(s.fields[k].1) by {
        named::lemma_entry_index_unique(s.fields, name, k);
    }
}

proof fn lemma_member_further(v: ValueModel, path: Seq<Seq<char>>, i: int, name: Seq<char>)
    requires
        0 <= i <= path.len(),
    ensures
        eval::member(v, path.push(name), i) == (match eval::member(v, path, i) {
            Ok(w) => eval::member(w, seq![name], 0),
            Err(e) => Err(e),
        }),
    decreases path.len() - i,
{
    let longer = path.push(name);
    reveal_with_fuel(eval::member, 3);
    if i < path.len() {
        assert(longer[i] == path[i]);
        if let ValueModel::Struct(f) = v {
            if let Some(w) = named::find_entry(f, path[i]) {
                lemma_member_further(w, path, i + 1, name);
            }
        }
    } else {
        assert(longer[i] == name);
    }
}

/// A dot and a name after a reference stand for the field of that name in the
/// struct that the reference stands for.
pub proof fn law_dots_lead_into_structs(path: Seq<Seq<char>>, name: Seq<char>, s: ScopeModel)
    requires
        path.len() > 0,
        path != seq!["_"@],
    ensures
        match eval::evaluated(ExprModel::Field(path), s) {
            Ok(ValueModel::Struct(f)) => {
                &&& forall|k: int|
                    named::distinct_names(f) && 0 <= k < f.len() && (#[trigger] f[k]).0 == name
                        ==> eval::evaluated(ExprModel::Field(path.push(name)), s) == Ok::<
                        ValueModel,
                        ErrorModel,
                    >(f[k].1)
                &&& (forall|k: int| 0 <= k < f.len() ==> (#[trigger] f[k]).0 != name)
                    ==> eval::evaluated(ExprModel::Field(path.push(name)), s) is Err
            },
            Ok(_) => eval::evaluated(ExprModel::Field(path.push(name)), s) is Err,
            Err(e) => eval::evaluated(ExprModel::Field(path.push(name)), s) == Err::<
                ValueModel,
                ErrorModel,
            >(e),
        },
{
    let longer = path.push(name);
    assert(longer[0] == path[0]);
    assert(longer.len() != 1);
    if path.len() == 1 {
        assert(path =~= seq![path[0]]);
    }
    if let Some(v) = named::find_entry(s.fields, path[0]) {
        lemma_member_further(v, path, 1, name);
        reveal_with_fuel(eval::member, 3);
        if let Ok(ValueModel::Struct(f)) = eval::evaluated(ExprModel::Field(path), s) {
            named::lemma_entry_index(f, name);
            assert forall|k: int|
                named::distinct_names(f) && 0 <= k < f.len() && (#[trigger] f[k]).0
                    == name implies eval::evaluated(ExprModel::Field(longer), s) == Ok::<
                ValueModel,
                ErrorModel,
            >(f[k].1) by {
                named::lemma_entry_index_unique(f, name, k);
            }
        }
    }
}

/// The underscore stands for the current element, where there is one.
pub proof fn law_the_underscore_is_the_current_element(s: ScopeModel)
    ensures
        match (s.current, eval::evaluated(ExprModel::Field(seq!["_"@]), s)) {
            (Some(v), Ok(w)) => v == w,
            (None, Err(_)) => true,
            _ => false,
        },
{
}

/// A number of bytes or repetitions is the integer of the expression, which must
/// not be negative.
pub proof fn law_counts_are_not_negative(e: ExprModel, s: ScopeModel)
    ensures
        match eval::measured(e, s) {
            Ok(n) => match eval::evaluated(e, s) {
                Ok(v) => match eval::number(v) {
                    Ok(m) => m >= 0 && (m <= usize::MAX ==> n == m),
                    Err(_) => false,
                },
                Err(_) => false,
            },
            Err(x) => match eval::evaluated(e, s) {
                Ok(v) => match eval::number(v) {
                    Ok(m) => m < 0,
                    Err(y) => x == y,
                },
                Err(y) => x == y,
            },
        },
{
}

// ---------------------------------------------------------------------------
// Equality of values
// ---------------------------------------------------------------------------

/// Bytes, strings and truth values are the same when they are equal, arrays when
/// their elements are the same in order, and values of different kinds never.
pub proof fn law_values_are_the_same_when_their_parts_are(a: ValueModel, b: ValueModel)
    ensures
        match (a, b) {
            (ValueModel::Bytes(x), ValueModel::Bytes(y)) => result::same(a, b) == (x == y),
            (ValueModel::Str(x), ValueModel::Str(y)) => result::same(a, b) == (x == y),
            (ValueModel::Boolean(x), ValueModel::Boolean(y)) => result::same(a, b) == (x == y),
            (ValueModel::Integer(x), ValueModel::Integer(y)) => result::same(a, b) == (x == y),
            (ValueModel::UnsignedInteger(x), ValueModel::UnsignedInteger(y)) => result::same(a, b)
                == (x == y),
            (ValueModel::Null, ValueModel::Null) => result::same(a, b),
            (ValueModel::Array(x), ValueModel::Array(y)) => result::same(a, b) == (x.len()
                == y.len() && forall|i: int|
                0 <= i < x.len() ==> result::same(#[trigger] x[i], y[i])),
            (ValueModel::Struct(x), ValueModel::Struct(y)) => true,
            (ValueModel::Float(_), ValueModel::Float(_)) => true,
            _ => !result::same(a, b),
        },
{
    if let ValueModel::Array(x) = a {
        if let ValueModel::Array(y) = b {
            if x.len() == y.len() {
                lemma_same_items(x, y, x.len() as int);
            }
        }
    }
}

proof fn lemma_same_items(x: Seq<ValueModel>, y: Seq<ValueModel>, n: int)
    requires
        n <= x.len(),
        x.len() == y.len(),
    ensures
        result::same_items(x, y, n) == forall|i: int|
            0 <= i < n ==> result::same(#[trigger] x[i], y[i]),
    decreases n,
{
    if n > 0 {
        lemma_same_items(x, y, n - 1);
    }
}

/// Structs are the same when they have as many fields and each field of the one
/// is the same as the field of that name in the other, in whatever order.
pub proof fn law_structs_are_compared_by_name(
    x: Seq<(Seq<char>, ValueModel)>,
    y: Seq<(Seq<char>, ValueModel)>,
)
    requires
        named::distinct_names(y),
    ensures
        result::same(ValueModel::Struct(x), ValueModel::Struct(y)) == (x.len() == y.len()
            && forall|i: int|
            0 <= i < x.len() ==> exists|j: int|
                0 <= j < y.len() && (#[trigger] x[i]).0 == (#[trigger] y[j]).0 && result::same(
                    x[i].1,
                    y[j].1,
                )),
{
    if x.len() == y.len() {
        lemma_same_entries(x, y, x.len() as int);
    }
}

proof fn lemma_same_entries(
    x: Seq<(Seq<char>, ValueModel)>,
    y: Seq<(Seq<char>, ValueModel)>,
    n: int,
)
    requires
        n <= x.len(),
        named::distinct_names(y),
    ensures
        result::same_entries(x, y, n) == forall|i: int|
            0 <= i < n ==> exists|j: int|
                0 <= j < y.len() && (#[trigger] x[i]).0 == (#[trigger] y[j]).0 && result::same(
                    x[i].1,
                    y[j].1,
                ),
    decreases n,
{
    if n > 0 {
        lemma_same_entries(x, y, n - 1);
        let e = x[n - 1];
        named::lemma_entry_index(y, e.0);
        let found = match named::find_entry(y, e.0) {
            Some(v) => result::same(e.1, v),
            None => false,
        };
        assert(found == exists|j: int|
            0 <= j < y.len() && e.0 == (#[trigger] y[j]).0 && result::same(e.1, y[j].1)) by {
            if let Some(k) = named::entry_index(y, e.0) {
                assert(y[k].0 == e.0);
                assert forall|j: int| 0 <= j < y.len() && e.0 == (#[trigger] y[j]).0 implies j
                    == k by {
                    named::lemma_entry_index_unique(y, e.0, j);
                }
            }
        }
    }
}

/// Floating-point numbers are compared as IEEE 754 says: a pattern whose exponent
/// is full and whose fraction is not zero equals nothing, the two zeros are
/// equal, and otherwise equal patterns are.
pub proof fn law_floats_are_compared_as_numbers(a: u64, b: u64)
    ensures
        result::same(ValueModel::Float(a), ValueModel::Float(b)) == {
            let no_number_a = (a / 0x10_0000_0000_0000) % 2048 == 2047 && a % 0x10_0000_0000_0000
                != 0;
            let no_number_b = (b / 0x10_0000_0000_0000) % 2048 == 2047 && b % 0x10_0000_0000_0000
                != 0;
            let zeros = (a == 0 || a == 0x8000_0000_0000_0000) && (b == 0 || b
                == 0x8000_0000_0000_0000);
            !no_number_a && !no_number_b && (a == b || zeros)
        },
{
}

} // verus!
