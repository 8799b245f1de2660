//! Expressions in source form, and what they are read as.
use vstd::prelude::*;

#[allow(unused_imports)]
use crate::{
    error::ErrorModel, ksy::expr, ksy::expr::BinOp, ksy::expr::ExprModel, ksy::expr::Level,
    ksy::expr::UnOp, ksy::token, ksy::token::Op, ksy::token::TokenModel, laws::tokens, text,
};

verus! {

// ---------------------------------------------------------------------------
// Operators in source form
// ---------------------------------------------------------------------------

/// How an operator is written.
pub open spec fn written(op: BinOp) -> Seq<char> {
    match op {
        BinOp::Or => "or"@,
        BinOp::And => "and"@,
        BinOp::Eq => "=="@,
        BinOp::Ne => "!="@,
        BinOp::Lt => "<"@,
        BinOp::Le => "<="@,
        BinOp::Gt => ">"@,
        BinOp::Ge => ">="@,
        BinOp::BitOr => "|"@,
        BinOp::BitXor => "^"@,
        BinOp::BitAnd => "&"@,
        BinOp::Shl => "<<"@,
        BinOp::Shr => ">>"@,
        BinOp::Add => "+"@,
        BinOp::Sub => "-"@,
        BinOp::Mul => "*"@,
        BinOp::Div => "/"@,
        BinOp::Mod => "%"@,
    }
}

/// How closely an operator binds: `or` least, then `and`, comparisons, `|`, `^`,
/// `&`, shifts, sums, and products most.
pub open spec fn rank(op: BinOp) -> int {
    match op {
        BinOp::Or => 0,
        BinOp::And => 1,
        BinOp::Eq | BinOp::Ne | BinOp::Lt | BinOp::Le | BinOp::Gt | BinOp::Ge => 2,
        BinOp::BitOr => 3,
        BinOp::BitXor => 4,
        BinOp::BitAnd => 5,
        BinOp::Shl | BinOp::Shr => 6,
        BinOp::Add | BinOp::Sub => 7,
        BinOp::Mul | BinOp::Div | BinOp::Mod => 8,
    }
}

/// A source in brackets.
pub open spec fn bracket(x: Seq<char>) -> Seq<char> {
    seq!['('] + x.push(')')
}

/// Two sources with an operator between them.
pub open spec fn between(l: Seq<char>, op: BinOp, r: Seq<char>) -> Seq<char> {
    l.push(' ') + (written(op).push(' ') + r)
}

/// The expression with an operator between two others.
pub open spec fn operation(op: BinOp, l: ExprModel, r: ExprModel) -> ExprModel {
    ExprModel::Binary(op, Box::new(l), Box::new(r))
}

proof fn lemma_operator_token(op: BinOp)
    ensures
        token::tokens_from(written(op), 0) == Ok::<Seq<TokenModel>, ErrorModel>(
            seq![expr::operator_token(op)],
        ),
{
    tokens::law_signs_are_tokens();
    reveal_strlit("or");
    reveal_strlit("and");
    tokens::law_words_are_tokens("or"@);
    tokens::law_words_are_tokens("and"@);
}

/// The tokens of a source in brackets.
spec fn bracket_tokens(x: Seq<char>) -> Seq<TokenModel> {
    seq![TokenModel::LParen] + token::tokens_from(x, 0)->Ok_0 + seq![TokenModel::RParen]
}

proof fn lemma_bracket_tokens(x: Seq<char>)
    requires
        token::tokens_from(x, 0) is Ok,
    ensures
        token::tokens_from(bracket(x), 0) == Ok::<Seq<TokenModel>, ErrorModel>(bracket_tokens(x)),
{
    let none = Seq::<char>::empty();
    tokens::law_closing_brackets_end_tokens(x, none);
    assert(x.push(')') + none =~= x.push(')'));
    tokens::law_opening_brackets_are_tokens(x.push(')'));
    let t = token::tokens_from(x, 0)->Ok_0;
    assert(t.push(TokenModel::RParen) + Seq::<TokenModel>::empty() =~= t.push(TokenModel::RParen));
    assert(seq![TokenModel::LParen] + t.push(TokenModel::RParen) =~= bracket_tokens(x));
}

proof fn lemma_between_tokens(l: Seq<char>, op: BinOp, r: Seq<char>)
    requires
        token::tokens_from(l, 0) is Ok,
        token::tokens_from(r, 0) is Ok,
    ensures
        token::tokens_from(between(l, op, r), 0) == Ok::<Seq<TokenModel>, ErrorModel>(
            token::tokens_from(l, 0)->Ok_0 + seq![expr::operator_token(op)]
                + token::tokens_from(r, 0)->Ok_0,
        ),
{
    lemma_operator_token(op);
    tokens::law_spaces_part_tokens(written(op), r);
    tokens::law_spaces_part_tokens(l, written(op).push(' ') + r);
    let a = token::tokens_from(l, 0)->Ok_0;
    let b = token::tokens_from(r, 0)->Ok_0;
    assert(a + (seq![expr::operator_token(op)] + b) =~= a + seq![expr::operator_token(op)] + b);
}

/// A source in brackets is read as an operand, whatever stands before and after
/// it.
proof fn lemma_bracket_operand(
    x: Seq<char>,
    e: ExprModel,
    front: Seq<TokenModel>,
    back: Seq<TokenModel>,
    t: Seq<TokenModel>,
)
    requires
        expr::parsed(x) == Ok::<ExprModel, ErrorModel>(e),
        t == front + bracket_tokens(x) + back,
    ensures
        expr::operand(t, front.len()) == Ok::<(ExprModel, nat), ErrorModel>(
            (e, bracket_tokens(x).len()),
        ),
        expr::prefix_at(Level::Not, t, front.len()) is None,
        expr::prefix_at(Level::Sign, t, front.len()) is None,
{
    let own = token::tokens_from(x, 0)->Ok_0;
    let open = front.push(TokenModel::LParen);
    assert(t =~= expr::enclosed(open, own, back));
    expr::lemma_enclosed_grammar(open, Level::Or, own, back, 0);
    assert(t[front.len() as int] == TokenModel::LParen);
    assert(expr::at(t, front.len()) == Some(TokenModel::LParen));
    assert(t[(front.len() + 1 + own.len()) as int] == TokenModel::RParen);
    assert(expr::at(t, front.len() + 1 + own.len()) == Some(TokenModel::RParen));
}

proof fn lemma_whole(source: Seq<char>, t: Seq<TokenModel>, e: ExprModel)
    requires
        token::tokens_from(source, 0) == Ok::<Seq<TokenModel>, ErrorModel>(t),
        expr::grammar(Level::Or, t, 0) == Ok::<(ExprModel, nat), ErrorModel>((e, t.len())),
    ensures
        expr::parsed(source) == Ok::<ExprModel, ErrorModel>(e),
{
}

// ---------------------------------------------------------------------------
// One operator
// ---------------------------------------------------------------------------

/// Two sources in brackets with an operator between them are read as the
/// operation on what they are read as.
pub proof fn law_operators_join_what_stands_beside_them(
    x: Seq<char>,
    op: BinOp,
    y: Seq<char>,
    a: ExprModel,
    b: ExprModel,
)
    requires
        expr::parsed(x) == Ok::<ExprModel, ErrorModel>(a),
        expr::parsed(y) == Ok::<ExprModel, ErrorModel>(b),
    ensures
        expr::parsed(between(bracket(x), op, bracket(y))) == Ok::<ExprModel, ErrorModel>(
            operation(op, a, b),
        ),
{
    let source = between(bracket(x), op, bracket(y));
    let p = bracket_tokens(x);
    let q = bracket_tokens(y);
    let o = seq![expr::operator_token(op)];
    let t = p + o + q;
    let l = expr::level(op);
    lemma_bracket_tokens(x);
    lemma_bracket_tokens(y);
    lemma_between_tokens(bracket(x), op, bracket(y));
    assert(t =~= Seq::<TokenModel>::empty() + p + (o + q));
    assert(t =~= (p + o) + q + Seq::<TokenModel>::empty());
    lemma_bracket_operand(x, a, Seq::empty(), o + q, t);
    lemma_bracket_operand(y, b, p + o, Seq::empty(), t);
    assert(t[p.len() as int] == expr::operator_token(op));
    expr::lemma_before_operator(op, expr::below(l), a, t, 0, p.len());
    expr::lemma_climb(expr::below(l), Level::Operand, t, p.len() + 1, b, q.len());
    expr::lemma_operation(op, a, b, t, 0, p.len(), q.len());
    expr::lemma_climb(Level::Or, l, t, 0, operation(op, a, b), t.len());
    lemma_whole(source, t, operation(op, a, b));
}

// ---------------------------------------------------------------------------
// Two operators
// ---------------------------------------------------------------------------

proof fn lemma_ranks(op1: BinOp, op2: BinOp)
    ensures
        (rank(op1) < rank(op2)) == (expr::depth(expr::level(op2)) < expr::depth(expr::level(op1))),
        (rank(op1) == rank(op2)) == (expr::level(op1) == expr::level(op2)),
        (rank(op1) == 2) == (expr::level(op1) == Level::Comparison),
{
}

proof fn lemma_closer_right(
    op1: BinOp,
    op2: BinOp,
    a: ExprModel,
    b: ExprModel,
    c: ExprModel,
    t: Seq<TokenModel>,
    n: nat,
    m: nat,
    k: nat,
)
    requires
        rank(op1) < rank(op2),
        expr::operand(t, 0) == Ok::<(ExprModel, nat), ErrorModel>((a, n)),
        expr::operand(t, n + 1) == Ok::<(ExprModel, nat), ErrorModel>((b, m)),
        expr::operand(t, n + 1 + m + 1) == Ok::<(ExprModel, nat), ErrorModel>((c, k)),
        expr::prefix_at(Level::Not, t, 0) is None,
        expr::prefix_at(Level::Sign, t, 0) is None,
        expr::prefix_at(Level::Not, t, n + 1) is None,
        expr::prefix_at(Level::Sign, t, n + 1) is None,
        expr::prefix_at(Level::Not, t, n + 1 + m + 1) is None,
        expr::prefix_at(Level::Sign, t, n + 1 + m + 1) is None,
        expr::at(t, n) == Some(expr::operator_token(op1)),
        expr::at(t, n + 1 + m) == Some(expr::operator_token(op2)),
        t.len() == n + 1 + m + 1 + k,
    ensures
        expr::grammar(Level::Or, t, 0) == Ok::<(ExprModel, nat), ErrorModel>(
            (operation(op1, a, operation(op2, b, c)), t.len()),
        ),
{
    let l1 = expr::level(op1);
    let l2 = expr::level(op2);
    lemma_ranks(op1, op2);
    expr::lemma_operator_level(op1, l2);
    expr::lemma_operator_level(op2, l1);
    expr::lemma_before_operator(op1, expr::below(l1), a, t, 0, n);
    expr::lemma_before_operator(op2, expr::below(l2), b, t, n + 1, m);
    expr::lemma_climb(expr::below(l2), Level::Operand, t, n + 1 + m + 1, c, k);
    expr::lemma_operation(op2, b, c, t, n + 1, m, k);
    expr::lemma_climb(expr::below(l1), l2, t, n + 1, operation(op2, b, c), m + 1 + k);
    expr::lemma_operation(op1, a, operation(op2, b, c), t, 0, n, m + 1 + k);
    expr::lemma_climb(
        Level::Or,
        l1,
        t,
        0,
        operation(op1, a, operation(op2, b, c)),
        t.len(),
    );
}

proof fn lemma_closer_left(
    op1: BinOp,
    op2: BinOp,
    a: ExprModel,
    b: ExprModel,
    c: ExprModel,
    t: Seq<TokenModel>,
    n: nat,
    m: nat,
    k: nat,
)
    requires
        rank(op1) > rank(op2) || (rank(op1) == rank(op2) && rank(op1) != 2),
        expr::operand(t, 0) == Ok::<(ExprModel, nat), ErrorModel>((a, n)),
        expr::operand(t, n + 1) == Ok::<(ExprModel, nat), ErrorModel>((b, m)),
        expr::operand(t, n + 1 + m + 1) == Ok::<(ExprModel, nat), ErrorModel>((c, k)),
        expr::prefix_at(Level::Not, t, 0) is None,
        expr::prefix_at(Level::Sign, t, 0) is None,
        expr::prefix_at(Level::Not, t, n + 1) is None,
        expr::prefix_at(Level::Sign, t, n + 1) is None,
        expr::prefix_at(Level::Not, t, n + 1 + m + 1) is None,
        expr::prefix_at(Level::Sign, t, n + 1 + m + 1) is None,
        expr::at(t, n) == Some(expr::operator_token(op1)),
        expr::at(t, n + 1 + m) == Some(expr::operator_token(op2)),
        t.len() == n + 1 + m + 1 + k,
    ensures
        expr::grammar(Level::Or, t, 0) == Ok::<(ExprModel, nat), ErrorModel>(
            (operation(op2, operation(op1, a, b), c), t.len()),
        ),
{
    let l1 = expr::level(op1);
    let l2 = expr::level(op2);
    let inner = operation(op1, a, b);
    let whole = operation(op2, inner, c);
    let q = n + 1 + m;
    lemma_ranks(op1, op2);
    lemma_ranks(op2, op1);
    expr::lemma_operator_level(op1, l2);
    expr::lemma_operator_level(op2, l1);
    expr::lemma_before_operator(op1, expr::below(l1), a, t, 0, n);
    expr::lemma_before_operator(op2, expr::below(l2), b, t, n + 1, m);
    expr::lemma_climb(expr::below(l2), Level::Operand, t, q + 1, c, k);
    if rank(op1) > rank(op2) {
        expr::lemma_before_operator(op2, expr::below(l1), b, t, n + 1, m);
        expr::lemma_operation(op1, a, b, t, 0, n, m);
        assert forall|j: Level|
            expr::depth(l1) < expr::depth(j) <= expr::depth(expr::below(l2)) implies (
        #[trigger] expr::operator_at(j, t, 0 + q)) is None && expr::prefix_at(j, t, 0) is None by {
            expr::lemma_operator_level(op2, j);
        }
        expr::lemma_climb(expr::below(l2), l1, t, 0, inner, q);
        expr::lemma_operation(op2, inner, c, t, 0, q, k);
    } else {
        assert(expr::operator_at(l1, t, n) == Some(op1));
        assert(expr::operator_at(l1, t, q) == Some(op2));
        assert(expr::operator_at(l1, t, t.len()) is None);
        assert(expr::chain(l1, whole, t, t.len()) == Ok::<(ExprModel, nat), ErrorModel>(
            (whole, 0),
        ));
        assert(q + 1 + k == t.len());
        assert(expr::chain(l1, inner, t, q) == Ok::<(ExprModel, nat), ErrorModel>((whole, k + 1)));
        assert(n + 1 + m == q);
        assert(expr::chain(l1, a, t, n) == Ok::<(ExprModel, nat), ErrorModel>(
            (whole, m + 1 + (k + 1)),
        ));
        assert(expr::grammar(l1, t, 0) == Ok::<(ExprModel, nat), ErrorModel>((whole, t.len())));
    }
    expr::lemma_climb(Level::Or, l2, t, 0, whole, t.len());
}

/// Of two operators the one that binds more closely goes first; of two that bind
/// alike, the one on the left. (Of comparisons there is only one without
/// brackets.)
pub proof fn law_closer_operators_go_before_others(
    x: Seq<char>,
    op1: BinOp,
    y: Seq<char>,
    op2: BinOp,
    z: Seq<char>,
    a: ExprModel,
    b: ExprModel,
    c: ExprModel,
)
    requires
        expr::parsed(x) == Ok::<ExprModel, ErrorModel>(a),
        expr::parsed(y) == Ok::<ExprModel, ErrorModel>(b),
        expr::parsed(z) == Ok::<ExprModel, ErrorModel>(c),
        !(rank(op1) == 2 && rank(op2) == 2),
    ensures
        expr::parsed(between(bracket(x), op1, between(bracket(y), op2, bracket(z)))) == Ok::<
            ExprModel,
            ErrorModel,
        >(
            if rank(op1) < rank(op2) {
                operation(op1, a, operation(op2, b, c))
            } else {
                operation(op2, operation(op1, a, b), c)
            },
        ),
{
    let p = bracket_tokens(x);
    let q = bracket_tokens(y);
    let r = bracket_tokens(z);
    let o1 = seq![expr::operator_token(op1)];
    let o2 = seq![expr::operator_token(op2)];
    let t = p + o1 + (q + o2 + r);
    lemma_bracket_tokens(x);
    lemma_bracket_tokens(y);
    lemma_bracket_tokens(z);
    lemma_between_tokens(bracket(y), op2, bracket(z));
    lemma_between_tokens(bracket(x), op1, between(bracket(y), op2, bracket(z)));
    assert(t =~= Seq::<TokenModel>::empty() + p + (o1 + (q + o2 + r)));
    assert(t =~= (p + o1) + q + (o2 + r));
    assert(t =~= (p + o1 + q + o2) + r + Seq::<TokenModel>::empty());
    lemma_bracket_operand(x, a, Seq::empty(), o1 + (q + o2 + r), t);
    lemma_bracket_operand(y, b, p + o1, o2 + r, t);
    lemma_bracket_operand(z, c, p + o1 + q + o2, Seq::empty(), t);
    assert((p + o1).len() == p.len() + 1);
    assert((p + o1 + q + o2).len() == p.len() + 1 + q.len() + 1);
    assert(t[p.len() as int] == expr::operator_token(op1));
    assert(t[(p.len() + 1 + q.len()) as int] == expr::operator_token(op2));
    if rank(op1) < rank(op2) {
        lemma_closer_right(op1, op2, a, b, c, t, p.len(), q.len(), r.len());
    } else {
        lemma_closer_left(op1, op2, a, b, c, t, p.len(), q.len(), r.len());
    }
}

// ---------------------------------------------------------------------------
// Prefix operators
// ---------------------------------------------------------------------------

/// A source with a prefix operator before it.
pub open spec fn prefixed(op: UnOp, x: Seq<char>) -> Seq<char> {
    (match op {
        UnOp::Not => "not"@,
        UnOp::Neg => "-"@,
    }).push(' ') + x
}

/// The expression with a prefix operator before another.
pub open spec fn changed(op: UnOp, e: ExprModel) -> ExprModel {
    ExprModel::Unary(op, Box::new(e))
}

proof fn lemma_prefix_tokens(op: UnOp, x: Seq<char>)
    requires
        token::tokens_from(x, 0) is Ok,
    ensures
        token::tokens_from(prefixed(op, x), 0) == Ok::<Seq<TokenModel>, ErrorModel>(
            seq![expr::prefix_token(op)] + token::tokens_from(x, 0)->Ok_0,
        ),
{
    tokens::law_signs_are_tokens();
    reveal_strlit("not");
    tokens::law_words_are_tokens("not"@);
    match op {
        UnOp::Not => {
            tokens::law_spaces_part_tokens("not"@, x);
        },
        UnOp::Neg => {
            tokens::law_spaces_part_tokens("-"@, x);
        },
    }
}

spec fn prefix_level(op: UnOp) -> Level {
    match op {
        UnOp::Not => Level::Not,
        UnOp::Neg => Level::Sign,
    }
}

/// A prefix operator is none at another level.
proof fn lemma_prefix_level(op: UnOp, l: Level)
    ensures
        expr::prefix(prefix_level(op), expr::prefix_token(op)) == Some(op),
        l != prefix_level(op) ==> expr::prefix(l, expr::prefix_token(op)) is None,
{
}

/// A prefix operator before a source in brackets is applied to what that is read
/// as. A minus sign binds more closely than every operator between two operands;
/// `not` only more closely than `and` and `or`, so that it takes a comparison as
/// a whole.
pub proof fn law_prefix_operators_bind(
    pre: UnOp,
    x: Seq<char>,
    op: BinOp,
    y: Seq<char>,
    a: ExprModel,
    b: ExprModel,
)
    requires
        expr::parsed(x) == Ok::<ExprModel, ErrorModel>(a),
        expr::parsed(y) == Ok::<ExprModel, ErrorModel>(b),
    ensures
        expr::parsed(prefixed(pre, bracket(x))) == Ok::<ExprModel, ErrorModel>(changed(pre, a)),
        expr::parsed(prefixed(pre, between(bracket(x), op, bracket(y)))) == Ok::<
            ExprModel,
            ErrorModel,
        >(
            if pre == UnOp::Not && rank(op) >= 2 {
                changed(pre, operation(op, a, b))
            } else {
                operation(op, changed(pre, a), b)
            },
        ),
{
    let p = bracket_tokens(x);
    let q = bracket_tokens(y);
    let o = seq![expr::operator_token(op)];
    let f = seq![expr::prefix_token(pre)];
    let lp = prefix_level(pre);
    lemma_bracket_tokens(x);
    lemma_bracket_tokens(y);
    lemma_between_tokens(bracket(x), op, bracket(y));
    lemma_prefix_tokens(pre, bracket(x));
    lemma_prefix_tokens(pre, between(bracket(x), op, bracket(y)));

    let s = f + p;
    assert(s =~= f + p + Seq::<TokenModel>::empty());
    lemma_bracket_operand(x, a, f, Seq::empty(), s);
    assert(s[0] == expr::prefix_token(pre));
    lemma_one_prefix(pre, a, s, p.len());
    assert forall|k: Level| expr::depth(lp) < expr::depth(k) <= expr::depth(Level::Or) implies (
    #[trigger] expr::operator_at(k, s, 0 + (p.len() + 1))) is None && expr::prefix_at(k, s, 0)
        is None by {
        lemma_prefix_level(pre, k);
    }
    expr::lemma_climb(Level::Or, lp, s, 0, changed(pre, a), s.len());
    lemma_whole(prefixed(pre, bracket(x)), s, changed(pre, a));

    let t = f + (p + o + q);
    let source = prefixed(pre, between(bracket(x), op, bracket(y)));
    assert(t =~= f + p + (o + q));
    assert(t =~= (f + p + o) + q + Seq::<TokenModel>::empty());
    lemma_bracket_operand(x, a, f, o + q, t);
    lemma_bracket_operand(y, b, f + p + o, Seq::empty(), t);
    assert((f + p + o).len() == p.len() + 2);
    assert(t[0] == expr::prefix_token(pre));
    assert(t[(p.len() + 1) as int] == expr::operator_token(op));
    if pre == UnOp::Not && rank(op) >= 2 {
        lemma_not_takes_all(op, a, b, t, p.len(), q.len());
        lemma_whole(source, t, changed(pre, operation(op, a, b)));
    } else {
        lemma_prefix_first(pre, op, a, b, t, p.len(), q.len());
        lemma_whole(source, t, operation(op, changed(pre, a), b));
    }
}

/// A prefix operator and an operand after it.
proof fn lemma_one_prefix(pre: UnOp, a: ExprModel, t: Seq<TokenModel>, n: nat)
    requires
        expr::at(t, 0) == Some(expr::prefix_token(pre)),
        expr::operand(t, 1) == Ok::<(ExprModel, nat), ErrorModel>((a, n)),
        expr::prefix_at(Level::Not, t, 1) is None,
        expr::prefix_at(Level::Sign, t, 1) is None,
        forall|k: Level|
            0 < expr::depth(k) <= expr::depth(prefix_level(pre)) ==> (#[trigger] expr::operator_at(
                k,
                t,
                1 + n,
            )) is None,
    ensures
        expr::grammar(prefix_level(pre), t, 0) == Ok::<(ExprModel, nat), ErrorModel>(
            (changed(pre, a), n + 1),
        ),
{
    let lp = prefix_level(pre);
    lemma_prefix_level(pre, lp);
    expr::lemma_climb(lp, Level::Operand, t, 1, a, n);
    assert(expr::prefix_at(lp, t, 0) == Some(pre));
}

proof fn lemma_not_takes_all(
    op: BinOp,
    a: ExprModel,
    b: ExprModel,
    t: Seq<TokenModel>,
    n: nat,
    m: nat,
)
    requires
        rank(op) >= 2,
        expr::at(t, 0) == Some(expr::prefix_token(UnOp::Not)),
        expr::operand(t, 1) == Ok::<(ExprModel, nat), ErrorModel>((a, n)),
        expr::operand(t, n + 2) == Ok::<(ExprModel, nat), ErrorModel>((b, m)),
        expr::prefix_at(Level::Not, t, 1) is None,
        expr::prefix_at(Level::Sign, t, 1) is None,
        expr::prefix_at(Level::Not, t, n + 2) is None,
        expr::prefix_at(Level::Sign, t, n + 2) is None,
        expr::at(t, n + 1) == Some(expr::operator_token(op)),
        t.len() == n + 2 + m,
    ensures
        expr::grammar(Level::Or, t, 0) == Ok::<(ExprModel, nat), ErrorModel>(
            (changed(UnOp::Not, operation(op, a, b)), t.len()),
        ),
{
    let l = expr::level(op);
    let inner = operation(op, a, b);
    lemma_ranks(op, op);
    lemma_prefix_level(UnOp::Not, Level::Not);
    expr::lemma_before_operator(op, expr::below(l), a, t, 1, n);
    expr::lemma_climb(expr::below(l), Level::Operand, t, n + 2, b, m);
    expr::lemma_operation(op, a, b, t, 1, n, m);
    expr::lemma_climb(Level::Not, l, t, 1, inner, n + 1 + m);
    assert(expr::prefix_at(Level::Not, t, 0) == Some(UnOp::Not));
    assert(expr::grammar(Level::Not, t, 0) == Ok::<(ExprModel, nat), ErrorModel>(
        (changed(UnOp::Not, inner), t.len()),
    ));
    expr::lemma_climb(Level::Or, Level::Not, t, 0, changed(UnOp::Not, inner), t.len());
}

proof fn lemma_prefix_first(
    pre: UnOp,
    op: BinOp,
    a: ExprModel,
    b: ExprModel,
    t: Seq<TokenModel>,
    n: nat,
    m: nat,
)
    requires
        pre == UnOp::Neg || rank(op) < 2,
        expr::at(t, 0) == Some(expr::prefix_token(pre)),
        expr::operand(t, 1) == Ok::<(ExprModel, nat), ErrorModel>((a, n)),
        expr::operand(t, n + 2) == Ok::<(ExprModel, nat), ErrorModel>((b, m)),
        expr::prefix_at(Level::Not, t, 1) is None,
        expr::prefix_at(Level::Sign, t, 1) is None,
        expr::prefix_at(Level::Not, t, n + 2) is None,
        expr::prefix_at(Level::Sign, t, n + 2) is None,
        expr::at(t, n + 1) == Some(expr::operator_token(op)),
        t.len() == n + 2 + m,
    ensures
        expr::grammar(Level::Or, t, 0) == Ok::<(ExprModel, nat), ErrorModel>(
            (operation(op, changed(pre, a), b), t.len()),
        ),
{
    let l = expr::level(op);
    let lp = prefix_level(pre);
    let left = changed(pre, a);
    lemma_ranks(op, op);
    assert forall|k: Level| 0 < expr::depth(k) <= expr::depth(lp) implies (
    #[trigger] expr::operator_at(k, t, 1 + n)) is None by {
        expr::lemma_operator_level(op, k);
    }
    lemma_one_prefix(pre, a, t, n);
    assert forall|k: Level|
        expr::depth(lp) < expr::depth(k) <= expr::depth(expr::below(l)) implies (
    #[trigger] expr::operator_at(k, t, 0 + (n + 1))) is None && expr::prefix_at(k, t, 0)
        is None by {
        expr::lemma_operator_level(op, k);
        lemma_prefix_level(pre, k);
    }
    expr::lemma_climb(expr::below(l), lp, t, 0, left, n + 1);
    expr::lemma_climb(expr::below(l), Level::Operand, t, n + 2, b, m);
    expr::lemma_operation(op, left, b, t, 0, n + 1, m);
    assert forall|k: Level| expr::depth(l) < expr::depth(k) <= expr::depth(Level::Or) implies (
    #[trigger] expr::operator_at(k, t, 0 + t.len())) is None && expr::prefix_at(k, t, 0)
        is None by {
        lemma_prefix_level(pre, k);
    }
    expr::lemma_climb(Level::Or, l, t, 0, operation(op, left, b), t.len());
}

// ---------------------------------------------------------------------------
// Operands
// ---------------------------------------------------------------------------

proof fn lemma_read_back(source: Seq<char>, e: ExprModel)
    requires
        expr::writable(e),
        token::tokens_from(source, 0) == Ok::<Seq<TokenModel>, ErrorModel>(expr::bracketed(e)),
    ensures
        expr::parsed(source) == Ok::<ExprModel, ErrorModel>(e),
{
    expr::law_bracketed_expressions_are_read_back(e);
}

/// A numeral is read as its number, `true` and `false` as the truth values, and a
/// quoted text as the text.
pub proof fn law_literals_are_read(n: nat, q: char, s: Seq<char>)
    requires
        n <= i64::MAX,
        q == '"' || q == '\'',
        forall|i: int| 0 <= i < s.len() ==> #[trigger] s[i] != q,
    ensures
        expr::parsed(text::decimal(n)) == Ok::<ExprModel, ErrorModel>(ExprModel::Int(n as i64)),
        expr::parsed("true"@) == Ok::<ExprModel, ErrorModel>(ExprModel::Bool(true)),
        expr::parsed("false"@) == Ok::<ExprModel, ErrorModel>(ExprModel::Bool(false)),
        expr::parsed(seq![q] + s + seq![q]) == Ok::<ExprModel, ErrorModel>(ExprModel::Str(s)),
{
    tokens::law_numerals_are_read_back(n);
    lemma_read_back(text::decimal(n), ExprModel::Int(n as i64));
    reveal_strlit("true");
    reveal_strlit("false");
    tokens::law_words_are_tokens("true"@);
    tokens::law_words_are_tokens("false"@);
    lemma_read_back("true"@, ExprModel::Bool(true));
    lemma_read_back("false"@, ExprModel::Bool(false));
    tokens::law_quoted_texts_are_strings(q, s);
    lemma_read_back(seq![q] + s + seq![q], ExprModel::Str(s));
}

/// A word of letters, digits and underscores that does not start with a digit.
pub open spec fn plain_word(w: Seq<char>) -> bool {
    &&& w.len() > 0
    &&& ('a' <= w[0] && w[0] <= 'z') || ('A' <= w[0] && w[0] <= 'Z') || w[0] == '_'
    &&& forall|i: int|
        0 <= i < w.len() ==> ('a' <= #[trigger] w[i] && w[i] <= 'z') || ('A' <= w[i] && w[i]
            <= 'Z') || ('0' <= w[i] && w[i] <= '9') || w[i] == '_'
}

/// The names with dots between them.
pub open spec fn with_dots(path: Seq<Seq<char>>) -> Seq<char>
    decreases path.len(),
{
    if path.len() <= 1 {
        path[0]
    } else {
        with_dots(path.drop_last()).push('.') + path.last()
    }
}

proof fn lemma_with_dots(path: Seq<Seq<char>>)
    requires
        path.len() > 0,
        forall|i: int| 0 <= i < path.len() ==> plain_word(#[trigger] path[i]),
    ensures
        token::tokens_from(with_dots(path), 0) == Ok::<Seq<TokenModel>, ErrorModel>(
            expr::dotted(path),
        ),
    decreases path.len(),
{
    if path.len() == 1 {
        tokens::law_words_are_tokens(path[0]);
        assert(expr::dotted(path) =~= seq![TokenModel::Ident(path[0])]);
    } else {
        let init = path.drop_last();
        assert forall|i: int| 0 <= i < init.len() implies plain_word(#[trigger] init[i]) by {
            assert(init[i] == path[i]);
        }
        lemma_with_dots(init);
        assert(plain_word(path[path.len() - 1]));
        tokens::law_words_are_tokens(path.last());
        tokens::law_dots_end_tokens(with_dots(init), path.last());
        assert(expr::dotted(init).push(TokenModel::Dot) + seq![TokenModel::Ident(path.last())]
            =~= expr::dotted(path));
    }
}

/// Names with dots between them are read as a reference by these names, in their
/// order.
pub proof fn law_references_are_read(path: Seq<Seq<char>>)
    requires
        path.len() > 0,
        forall|i: int| 0 <= i < path.len() ==> plain_word(#[trigger] path[i]),
        path[0] != "true"@,
        path[0] != "false"@,
        path[0] != "not"@,
    ensures
        expr::parsed(with_dots(path)) == Ok::<ExprModel, ErrorModel>(ExprModel::Field(path)),
{
    lemma_with_dots(path);
    lemma_read_back(with_dots(path), ExprModel::Field(path));
}

/// An expression takes up all of its source: with a closing bracket too many, or
/// with another operand after it, it is an error, and so is a source without a
/// token.
pub proof fn law_nothing_may_be_left_over(x: Seq<char>, y: Seq<char>, a: ExprModel, b: ExprModel)
    requires
        expr::parsed(x) == Ok::<ExprModel, ErrorModel>(a),
        expr::parsed(y) == Ok::<ExprModel, ErrorModel>(b),
    ensures
        expr::parsed(bracket(x).push(')')) is Err,
        expr::parsed(bracket(x).push(' ') + bracket(y)) is Err,
        expr::parsed(Seq::<char>::empty()) is Err,
{
    let p = bracket_tokens(x);
    let q = bracket_tokens(y);
    let none = Seq::<char>::empty();
    lemma_bracket_tokens(x);
    lemma_bracket_tokens(y);

    tokens::law_closing_brackets_end_tokens(bracket(x), none);
    assert(bracket(x).push(')') + none =~= bracket(x).push(')'));
    let s = p.push(TokenModel::RParen);
    assert(s + Seq::<TokenModel>::empty() =~= s);
    assert(s =~= Seq::<TokenModel>::empty() + p + seq![TokenModel::RParen]);
    lemma_bracket_operand(x, a, Seq::empty(), seq![TokenModel::RParen], s);
    assert(s[p.len() as int] == TokenModel::RParen);
    expr::lemma_climb(Level::Or, Level::Operand, s, 0, a, p.len());

    tokens::law_spaces_part_tokens(bracket(x), bracket(y));
    let t = p + q;
    assert(t =~= Seq::<TokenModel>::empty() + p + q);
    lemma_bracket_operand(x, a, Seq::empty(), q, t);
    assert(t[p.len() as int] == TokenModel::LParen);
    expr::lemma_climb(Level::Or, Level::Operand, t, 0, a, p.len());

    let u = Seq::<TokenModel>::empty();
    assert(expr::operand(u, 0) is Err);
    assert(expr::grammar(Level::Operand, u, 0) is Err);
    assert(expr::grammar(Level::Sign, u, 0) is Err);
    assert(expr::grammar(Level::Product, u, 0) is Err);
    assert(expr::grammar(Level::Sum, u, 0) is Err);
    assert(expr::grammar(Level::Shift, u, 0) is Err);
    assert(expr::grammar(Level::BitAnd, u, 0) is Err);
    assert(expr::grammar(Level::BitXor, u, 0) is Err);
    assert(expr::grammar(Level::BitOr, u, 0) is Err);
    assert(expr::grammar(Level::Comparison, u, 0) is Err);
    assert(expr::grammar(Level::Not, u, 0) is Err);
    assert(expr::grammar(Level::And, u, 0) is Err);
}

/// Comparisons do not follow one another without brackets.
pub proof fn law_comparisons_do_not_chain(
    x: Seq<char>,
    op1: BinOp,
    y: Seq<char>,
    op2: BinOp,
    z: Seq<char>,
    a: ExprModel,
    b: ExprModel,
    c: ExprModel,
)
    requires
        expr::parsed(x) == Ok::<ExprModel, ErrorModel>(a),
        expr::parsed(y) == Ok::<ExprModel, ErrorModel>(b),
        expr::parsed(z) == Ok::<ExprModel, ErrorModel>(c),
        rank(op1) == 2,
        rank(op2) == 2,
    ensures
        expr::parsed(between(bracket(x), op1, between(bracket(y), op2, bracket(z)))) is Err,
{
    let p = bracket_tokens(x);
    let q = bracket_tokens(y);
    let r = bracket_tokens(z);
    let o1 = seq![expr::operator_token(op1)];
    let o2 = seq![expr::operator_token(op2)];
    let t = p + o1 + (q + o2 + r);
    let n = p.len();
    let m = q.len();
    let l = Level::Comparison;
    let e = operation(op1, a, b);
    lemma_bracket_tokens(x);
    lemma_bracket_tokens(y);
    lemma_bracket_tokens(z);
    lemma_between_tokens(bracket(y), op2, bracket(z));
    lemma_between_tokens(bracket(x), op1, between(bracket(y), op2, bracket(z)));
    assert(t =~= Seq::<TokenModel>::empty() + p + (o1 + (q + o2 + r)));
    assert(t =~= (p + o1) + q + (o2 + r));
    lemma_bracket_operand(x, a, Seq::empty(), o1 + (q + o2 + r), t);
    lemma_bracket_operand(y, b, p + o1, o2 + r, t);
    assert((p + o1).len() == n + 1);
    assert(t[n as int] == expr::operator_token(op1));
    assert(t[(n + 1 + m) as int] == expr::operator_token(op2));
    lemma_ranks(op1, op2);
    lemma_ranks(op2, op1);
    expr::lemma_operator_level(op1, l);
    expr::lemma_before_operator(op1, expr::below(l), a, t, 0, n);
    expr::lemma_before_operator(op2, expr::below(l), b, t, n + 1, m);
    assert(expr::operator_at(l, t, n) == Some(op1));
    assert(expr::grammar(l, t, 0) == Ok::<(ExprModel, nat), ErrorModel>((e, n + 1 + m)));
    assert forall|j: Level| expr::depth(l) < expr::depth(j) <= expr::depth(Level::Or) implies (
    #[trigger] expr::operator_at(j, t, 0 + (n + 1 + m))) is None && expr::prefix_at(j, t, 0)
        is None by {
        expr::lemma_operator_level(op2, j);
    }
    expr::lemma_climb(Level::Or, l, t, 0, e, n + 1 + m);
}

} // verus!
