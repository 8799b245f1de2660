//! A small expression language, a subset of that of Kaitai Struct.
//!
//! It has what `if`, `size`, `repeat-expr` and `repeat-until` commonly need:
//! integers in decimal and hexadecimal, truth values, strings, dotted references
//! to fields, arithmetic, comparisons, bitwise operators, and `and`, `or`, `not`.
use vstd::prelude::*;

use crate::error::Error;
pub use crate::ksy::eval::{eval, eval_bool, eval_usize, EvalScope};
use crate::ksy::token::{lex, quote_found, Op, Token};
use crate::text::concat2;
#[allow(unused_imports)]
use crate::{error, error::ErrorModel, ksy::token, ksy::token::TokenModel};

verus! {

/// An expression.
#[derive(Debug, PartialEq)]
pub enum Expr {
    Int(i64),
    Bool(bool),
    Str(String),
    /// A dotted reference to a field, such as `header.length`. The single
    /// element `_` stands for the current element of a `repeat-until` loop.
    Field(Vec<String>),
    Unary(UnOp, Box<Expr>),
    Binary(BinOp, Box<Expr>, Box<Expr>),
}

#[derive(Debug, Clone, Copy, PartialEq, Eq, Structural)]
pub enum UnOp {
    Neg,
    Not,
}

#[derive(Debug, Clone, Copy, PartialEq, Eq, Structural)]
pub enum BinOp {
    Add,
    Sub,
    Mul,
    Div,
    Mod,
    Eq,
    Ne,
    Lt,
    Le,
    Gt,
    Ge,
    And,
    Or,
    BitAnd,
    BitOr,
    BitXor,
    Shl,
    Shr,
}

/// The mathematical counterpart of [`Expr`].
pub enum ExprModel {
    Int(i64),
    Bool(bool),
    Str(Seq<char>),
    Field(Seq<Seq<char>>),
    Unary(UnOp, Box<ExprModel>),
    Binary(BinOp, Box<ExprModel>, Box<ExprModel>),
}

pub open spec fn names(path: Seq<String>) -> Seq<Seq<char>> {
    Seq::new(path.len(), |i: int| path[i]@)
}

/// What an expression stands for.
pub open spec fn expr_model(e: Expr) -> ExprModel
    decreases e,
{
    match e {
        Expr::Int(n) => ExprModel::Int(n),
        Expr::Bool(b) => ExprModel::Bool(b),
        Expr::Str(s) => ExprModel::Str(s@),
        Expr::Field(path) => ExprModel::Field(names(path@)),
        Expr::Unary(op, inner) => ExprModel::Unary(op, Box::new(expr_model(*inner))),
        Expr::Binary(op, lhs, rhs) => ExprModel::Binary(
            op,
            Box::new(expr_model(*lhs)),
            Box::new(expr_model(*rhs)),
        ),
    }
}

impl View for Expr {
    type V = ExprModel;

    open spec fn view(&self) -> ExprModel {
        expr_model(*self)
    }
}

impl Clone for Expr {
    fn clone(&self) -> (r: Expr)
        ensures
            r@ == self@,
        decreases self,
    {
        match self {
            Expr::Int(n) => Expr::Int(*n),
            Expr::Bool(b) => Expr::Bool(*b),
            Expr::Str(s) => Expr::Str(s.clone()),
            Expr::Field(path) => {
                let copy = path.clone();
                assert(names(copy@) =~= names(path@));
                Expr::Field(copy)
            },
            Expr::Unary(op, inner) => Expr::Unary(*op, Box::new((&**inner).clone())),
            Expr::Binary(op, lhs, rhs) => Expr::Binary(
                *op,
                Box::new((&**lhs).clone()),
                Box::new((&**rhs).clone()),
            ),
        }
    }
}

// ---------------------------------------------------------------------------
// Grammar
// ---------------------------------------------------------------------------

/// The levels of the grammar, from the operators that bind least to the
/// operands. Each level is made of operands of the next.
#[derive(Debug, Clone, Copy, PartialEq, Eq, Structural)]
pub enum Level {
    Or,
    And,
    Not,
    Comparison,
    BitOr,
    BitXor,
    BitAnd,
    Shift,
    Sum,
    Product,
    Sign,
    Operand,
}

/// How many levels stand below.
pub open spec fn depth(l: Level) -> nat {
    match l {
        Level::Or => 11,
        Level::And => 10,
        Level::Not => 9,
        Level::Comparison => 8,
        Level::BitOr => 7,
        Level::BitXor => 6,
        Level::BitAnd => 5,
        Level::Shift => 4,
        Level::Sum => 3,
        Level::Product => 2,
        Level::Sign => 1,
        Level::Operand => 0,
    }
}

/// The level that binds next more closely.
pub open spec fn below(l: Level) -> Level {
    match l {
        Level::Or => Level::And,
        Level::And => Level::Not,
        Level::Not => Level::Comparison,
        Level::Comparison => Level::BitOr,
        Level::BitOr => Level::BitXor,
        Level::BitXor => Level::BitAnd,
        Level::BitAnd => Level::Shift,
        Level::Shift => Level::Sum,
        Level::Sum => Level::Product,
        Level::Product => Level::Sign,
        Level::Sign => Level::Operand,
        Level::Operand => Level::Operand,
    }
}

/// The binary operator that a token stands for at a level.
pub open spec fn operator(l: Level, t: TokenModel) -> Option<BinOp> {
    match (l, t) {
        (Level::Or, TokenModel::Ident(w)) => if w == "or"@ {
            Some(BinOp::Or)
        } else {
            None
        },
        (Level::And, TokenModel::Ident(w)) => if w == "and"@ {
            Some(BinOp::And)
        } else {
            None
        },
        (Level::Comparison, TokenModel::Op(Op::Equal)) => Some(BinOp::Eq),
        (Level::Comparison, TokenModel::Op(Op::NotEqual)) => Some(BinOp::Ne),
        (Level::Comparison, TokenModel::Op(Op::Less)) => Some(BinOp::Lt),
        (Level::Comparison, TokenModel::Op(Op::LessEqual)) => Some(BinOp::Le),
        (Level::Comparison, TokenModel::Op(Op::Greater)) => Some(BinOp::Gt),
        (Level::Comparison, TokenModel::Op(Op::GreaterEqual)) => Some(BinOp::Ge),
        (Level::BitOr, TokenModel::Op(Op::Bar)) => Some(BinOp::BitOr),
        (Level::BitXor, TokenModel::Op(Op::Caret)) => Some(BinOp::BitXor),
        (Level::BitAnd, TokenModel::Op(Op::Ampersand)) => Some(BinOp::BitAnd),
        (Level::Shift, TokenModel::Op(Op::ShiftLeft)) => Some(BinOp::Shl),
        (Level::Shift, TokenModel::Op(Op::ShiftRight)) => Some(BinOp::Shr),
        (Level::Sum, TokenModel::Op(Op::Plus)) => Some(BinOp::Add),
        (Level::Sum, TokenModel::Op(Op::Minus)) => Some(BinOp::Sub),
        (Level::Product, TokenModel::Op(Op::Star)) => Some(BinOp::Mul),
        (Level::Product, TokenModel::Op(Op::Slash)) => Some(BinOp::Div),
        (Level::Product, TokenModel::Op(Op::Percent)) => Some(BinOp::Mod),
        _ => None,
    }
}

/// The prefix operator that a token stands for at a level.
pub open spec fn prefix(l: Level, t: TokenModel) -> Option<UnOp> {
    match (l, t) {
        (Level::Not, TokenModel::Ident(w)) => if w == "not"@ {
            Some(UnOp::Not)
        } else {
            None
        },
        (Level::Sign, TokenModel::Op(Op::Minus)) => Some(UnOp::Neg),
        _ => None,
    }
}

/// An expression together with the number of tokens it takes, or the error that
/// keeps the tokens from being one.
pub type Parsed = Result<(ExprModel, nat), ErrorModel>;

/// The same, taking `n` tokens more.
pub open spec fn lengthened(n: nat, r: Parsed) -> Parsed {
    match r {
        Ok((e, k)) => Ok((e, n + k)),
        Err(e) => Err(e),
    }
}

/// The token at a place, where there is one.
pub open spec fn at(t: Seq<TokenModel>, p: nat) -> Option<TokenModel> {
    if p < t.len() {
        Some(t[p as int])
    } else {
        None
    }
}

/// The binary operator of the level at a place, where there is one.
pub open spec fn operator_at(l: Level, t: Seq<TokenModel>, p: nat) -> Option<BinOp> {
    match at(t, p) {
        Some(x) => operator(l, x),
        None => None,
    }
}

/// The prefix operator of the level at a place, where there is one.
pub open spec fn prefix_at(l: Level, t: Seq<TokenModel>, p: nat) -> Option<UnOp> {
    match at(t, p) {
        Some(x) => prefix(l, x),
        None => None,
    }
}

/// How many tokens are left from a place on.
pub open spec fn left(t: Seq<TokenModel>, p: nat) -> nat {
    if p < t.len() {
        (t.len() - p) as nat
    } else {
        0
    }
}

/// The expression of a level that starts at a place.
///
/// Comparisons do not chain, all other binary operators associate to the left,
/// and the prefix operators may be repeated.
pub open spec fn grammar(l: Level, t: Seq<TokenModel>, p: nat) -> Parsed
    decreases left(t, p), depth(l), 1nat,
{
    match l {
        Level::Operand => operand(t, p),
        Level::Not | Level::Sign => match prefix_at(l, t, p) {
            Some(op) => match grammar(l, t, p + 1) {
                Ok((e, n)) => Ok((ExprModel::Unary(op, Box::new(e)), n + 1)),
                Err(e) => Err(e),
            },
            None => grammar(below(l), t, p),
        },
        Level::Comparison => match grammar(below(l), t, p) {
            Err(e) => Err(e),
            Ok((lhs, n)) => match operator_at(l, t, p + n) {
                Some(op) => match grammar(below(l), t, p + n + 1) {
                    Err(e) => Err(e),
                    Ok((rhs, m)) => Ok(
                        (ExprModel::Binary(op, Box::new(lhs), Box::new(rhs)), n + 1 + m),
                    ),
                },
                None => Ok((lhs, n)),
            },
        },
        _ => match grammar(below(l), t, p) {
            Err(e) => Err(e),
            Ok((lhs, n)) => lengthened(n, chain(l, lhs, t, p + n)),
        },
    }
}

/// What `lhs` becomes with the operators of the level, and their right
/// operands, that follow it.
pub open spec fn chain(l: Level, lhs: ExprModel, t: Seq<TokenModel>, p: nat) -> Parsed
    decreases left(t, p), depth(l), 0nat,
{
    match operator_at(l, t, p) {
        Some(op) => match grammar(below(l), t, p + 1) {
            Err(e) => Err(e),
            Ok((rhs, n)) => lengthened(
                n + 1,
                chain(l, ExprModel::Binary(op, Box::new(lhs), Box::new(rhs)), t, p + 1 + n),
            ),
        },
        None => Ok((lhs, 0)),
    }
}

/// An operand: a literal, a reference to a field, or an expression in brackets.
pub open spec fn operand(t: Seq<TokenModel>, p: nat) -> Parsed
    decreases left(t, p), 0nat, 0nat,
{
    match at(t, p) {
        Some(TokenModel::Int(n)) => Ok((ExprModel::Int(n), 1)),
        Some(TokenModel::Str(s)) => Ok((ExprModel::Str(s), 1)),
        Some(TokenModel::Ident(w)) => if w == "true"@ {
            Ok((ExprModel::Bool(true), 1))
        } else if w == "false"@ {
            Ok((ExprModel::Bool(false), 1))
        } else {
            match members(seq![w], t, p + 1) {
                Ok((path, n)) => Ok((ExprModel::Field(path), n + 1)),
                Err(e) => Err(e),
            }
        },
        Some(TokenModel::LParen) => match grammar(Level::Or, t, p + 1) {
            Err(e) => Err(e),
            Ok((inner, n)) => if at(t, p + 1 + n) == Some(TokenModel::RParen) {
                Ok((inner, n + 2))
            } else {
                Err(
                    ErrorModel::Protocol(
                        "expected `)` in expression, found "@ + token::found_text(
                            at(t, p + 1 + n),
                        ),
                    ),
                )
            },
        },
        other => Err(
            ErrorModel::Protocol("unexpected token in expression: "@ + token::found_text(other)),
        ),
    }
}

/// The path `path` with the members, each after a dot, that follow it.
pub open spec fn members(path: Seq<Seq<char>>, t: Seq<TokenModel>, p: nat) -> Result<
    (Seq<Seq<char>>, nat),
    ErrorModel,
>
    decreases left(t, p),
{
    if at(t, p) == Some(TokenModel::Dot) {
        match at(t, p + 1) {
            Some(TokenModel::Ident(w)) => match members(path.push(w), t, p + 2) {
                Ok((longer, n)) => Ok((longer, n + 2)),
                Err(e) => Err(e),
            },
            other => Err(
                ErrorModel::Protocol(
                    "expected identifier after `.` in expression, found "@ + token::found_text(
                        other,
                    ),
                ),
            ),
        }
    } else {
        Ok((path, 0))
    }
}

/// The expression that a whole text stands for.
pub open spec fn parsed(source: Seq<char>) -> Result<ExprModel, ErrorModel> {
    match token::tokens_from(source, 0) {
        Err(e) => Err(e),
        Ok(t) => match grammar(Level::Or, t, 0) {
            Err(e) => Err(e),
            Ok((e, n)) => if n == t.len() {
                Ok(e)
            } else {
                Err(
                    ErrorModel::Protocol(
                        "unexpected trailing tokens in expression starting at "@
                            + token::token_text(t[n as int]),
                    ),
                )
            },
        },
    }
}

// ---------------------------------------------------------------------------
// Parser
// ---------------------------------------------------------------------------

fn below_level(l: Level) -> (r: Level)
    ensures
        r == below(l),
{
    match l {
        Level::Or => Level::And,
        Level::And => Level::Not,
        Level::Not => Level::Comparison,
        Level::Comparison => Level::BitOr,
        Level::BitOr => Level::BitXor,
        Level::BitXor => Level::BitAnd,
        Level::BitAnd => Level::Shift,
        Level::Shift => Level::Sum,
        Level::Sum => Level::Product,
        Level::Product => Level::Sign,
        Level::Sign => Level::Operand,
        Level::Operand => Level::Operand,
    }
}

fn operator_of(l: Level, t: &Token) -> (r: Option<BinOp>)
    ensures
        r == operator(l, t@),
{
    match t {
        Token::Ident(w) => match l {
            Level::Or => if *w.as_str() == *"or" {
                Some(BinOp::Or)
            } else {
                None
            },
            Level::And => if *w.as_str() == *"and" {
                Some(BinOp::And)
            } else {
                None
            },
            _ => None,
        },
        Token::Op(op) => match (l, *op) {
            (Level::Comparison, Op::Equal) => Some(BinOp::Eq),
            (Level::Comparison, Op::NotEqual) => Some(BinOp::Ne),
            (Level::Comparison, Op::Less) => Some(BinOp::Lt),
            (Level::Comparison, Op::LessEqual) => Some(BinOp::Le),
            (Level::Comparison, Op::Greater) => Some(BinOp::Gt),
            (Level::Comparison, Op::GreaterEqual) => Some(BinOp::Ge),
            (Level::BitOr, Op::Bar) => Some(BinOp::BitOr),
            (Level::BitXor, Op::Caret) => Some(BinOp::BitXor),
            (Level::BitAnd, Op::Ampersand) => Some(BinOp::BitAnd),
            (Level::Shift, Op::ShiftLeft) => Some(BinOp::Shl),
            (Level::Shift, Op::ShiftRight) => Some(BinOp::Shr),
            (Level::Sum, Op::Plus) => Some(BinOp::Add),
            (Level::Sum, Op::Minus) => Some(BinOp::Sub),
            (Level::Product, Op::Star) => Some(BinOp::Mul),
            (Level::Product, Op::Slash) => Some(BinOp::Div),
            (Level::Product, Op::Percent) => Some(BinOp::Mod),
            _ => None,
        },
        _ => None,
    }
}

fn prefix_of(l: Level, t: &Token) -> (r: Option<UnOp>)
    ensures
        r == prefix(l, t@),
{
    match (l, t) {
        (Level::Not, Token::Ident(w)) => if *w.as_str() == *"not" {
            Some(UnOp::Not)
        } else {
            None
        },
        (Level::Sign, Token::Op(op)) => if *op == Op::Minus {
            Some(UnOp::Neg)
        } else {
            None
        },
        _ => None,
    }
}

/// A recursive-descent parser.
struct Parser {
    tokens: Vec<Token>,
    pos: usize,
}

impl Parser {
    spec fn wf(self) -> bool {
        self.pos <= self.tokens@.len()
    }

    spec fn all(self) -> Seq<TokenModel> {
        token::token_models(self.tokens@)
    }

    /// The parser has gone over what `grammar` says, or met the same error.
    spec fn followed(self, later: Parser, r: Result<Expr, Error>, m: Parsed) -> bool {
        &&& later.tokens == self.tokens
        &&& later.wf()
        &&& match (r, m) {
            (Ok(e), Ok((x, n))) => e@ == x && later.pos == self.pos + n,
            (Err(e), Err(x)) => e@ == x,
            _ => false,
        }
    }

    fn peek(&self) -> (r: Option<&Token>)
        requires
            self.wf(),
        ensures
            match (r, at(self.all(), self.pos as nat)) {
                (Some(t), Some(m)) => t@ == m && self.pos < self.tokens@.len(),
                (None, None) => self.pos == self.tokens@.len(),
                _ => false,
            },
    {
        if self.pos < self.tokens.len() {
            Some(&self.tokens[self.pos])
        } else {
            None
        }
    }

    fn advance(&mut self) -> (r: Option<Token>)
        requires
            old(self).wf(),
        ensures
            final(self).wf(),
            final(self).tokens == old(self).tokens,
            match (r, at(old(self).all(), old(self).pos as nat)) {
                (Some(t), Some(m)) => t@ == m && final(self).pos == old(self).pos + 1,
                (None, None) => final(self).pos == old(self).pos,
                _ => false,
            },
    {
        if self.pos < self.tokens.len() {
            let t = self.tokens[self.pos].clone();
            self.pos = self.pos + 1;
            Some(t)
        } else {
            None
        }
    }

    fn operator(&self, l: Level) -> (r: Option<BinOp>)
        requires
            self.wf(),
        ensures
            r == operator_at(l, self.all(), self.pos as nat),
            r is Some ==> self.pos < self.tokens@.len(),
    {
        match self.peek() {
            Some(t) => operator_of(l, t),
            None => None,
        }
    }

    fn prefix(&self, l: Level) -> (r: Option<UnOp>)
        requires
            self.wf(),
        ensures
            r == prefix_at(l, self.all(), self.pos as nat),
            r is Some ==> self.pos < self.tokens@.len(),
    {
        match self.peek() {
            Some(t) => prefix_of(l, t),
            None => None,
        }
    }

    fn parse_level(&mut self, l: Level) -> (r: Result<Expr, Error>)
        requires
            old(self).wf(),
        ensures
            old(self).followed(*final(self), r, grammar(l, old(self).all(), old(self).pos as nat)),
        decreases old(self).tokens@.len() - old(self).pos, depth(l), 1nat,
    {
        let ghost t = self.all();
        match l {
            Level::Operand => self.parse_operand(),
            Level::Not | Level::Sign => match self.prefix(l) {
                Some(op) => {
                    self.advance();
                    match self.parse_level(l) {
                        Ok(inner) => Ok(Expr::Unary(op, Box::new(inner))),
                        Err(e) => Err(e),
                    }
                },
                None => self.parse_level(below_level(l)),
            },
            Level::Comparison => {
                let lhs = match self.parse_level(below_level(l)) {
                    Ok(e) => e,
                    Err(e) => return Err(e),
                };
                match self.operator(l) {
                    Some(op) => {
                        self.advance();
                        match self.parse_level(below_level(l)) {
                            Ok(rhs) => Ok(Expr::Binary(op, Box::new(lhs), Box::new(rhs))),
                            Err(e) => Err(e),
                        }
                    },
                    None => Ok(lhs),
                }
            },
            _ => {
                let lhs = match self.parse_level(below_level(l)) {
                    Ok(e) => e,
                    Err(e) => return Err(e),
                };
                self.parse_chain(l, lhs)
            },
        }
    }

    fn parse_chain(&mut self, l: Level, first: Expr) -> (r: Result<Expr, Error>)
        requires
            old(self).wf(),
        ensures
            old(self).followed(
                *final(self),
                r,
                chain(l, first@, old(self).all(), old(self).pos as nat),
            ),
        decreases old(self).tokens@.len() - old(self).pos, depth(l), 0nat,
    {
        let ghost t = self.all();
        let ghost start = self.pos as nat;
        let mut lhs = first;
        loop
            invariant
                self.wf(),
                self.tokens == old(self).tokens,
                t == self.all(),
                start == old(self).pos,
                start <= self.pos,
                chain(l, first@, t, start) == lengthened(
                    (self.pos - start) as nat,
                    chain(l, lhs@, t, self.pos as nat),
                ),
            decreases self.tokens@.len() - self.pos,
        {
            let op = match self.operator(l) {
                Some(op) => op,
                None => return Ok(lhs),
            };
            self.advance();
            match self.parse_level(below_level(l)) {
                Ok(rhs) => {
                    lhs = Expr::Binary(op, Box::new(lhs), Box::new(rhs));
                },
                Err(e) => {
                    return Err(e);
                },
            }
        }
    }

    fn parse_operand(&mut self) -> (r: Result<Expr, Error>)
        requires
            old(self).wf(),
        ensures
            old(self).followed(*final(self), r, operand(old(self).all(), old(self).pos as nat)),
        decreases old(self).tokens@.len() - old(self).pos, 0nat, 0nat,
    {
        match self.advance() {
            Some(Token::Int(n)) => Ok(Expr::Int(n)),
            Some(Token::Str(s)) => Ok(Expr::Str(s)),
            Some(Token::Ident(w)) => {
                if *w.as_str() == *"true" {
                    return Ok(Expr::Bool(true));
                }
                if *w.as_str() == *"false" {
                    return Ok(Expr::Bool(false));
                }
                self.parse_members(w)
            },
            Some(Token::LParen) => {
                let inner = match self.parse_level(Level::Or) {
                    Ok(e) => e,
                    Err(e) => return Err(e),
                };
                let found = self.advance();
                match found {
                    Some(Token::RParen) => Ok(inner),
                    _ => Err(
                        Error::Protocol(
                            concat2(
                                "expected `)` in expression, found ",
                                quote_found(&found).as_str(),
                            ),
                        ),
                    ),
                }
            },
            other => Err(
                Error::Protocol(
                    concat2("unexpected token in expression: ", quote_found(&other).as_str()),
                ),
            ),
        }
    }

    /// Reads the members, each after a dot, that follow the name `first`.
    fn parse_members(&mut self, first: String) -> (r: Result<Expr, Error>)
        requires
            old(self).wf(),
        ensures
            old(self).followed(
                *final(self),
                r,
                match members(seq![first@], old(self).all(), old(self).pos as nat) {
                    Ok((path, n)) => Ok((ExprModel::Field(path), n)),
                    Err(e) => Err(e),
                },
            ),
    {
        let ghost t = self.all();
        let ghost start = self.pos as nat;
        let ghost head = seq![first@];
        let mut path: Vec<String> = Vec::new();
        path.push(first);
        assert(names(path@) =~= head);
        loop
            invariant
                self.wf(),
                self.tokens == old(self).tokens,
                t == self.all(),
                head == seq![first@],
                start == old(self).pos,
                start <= self.pos,
                members(head, t, start) == (match members(names(path@), t, self.pos as nat) {
                    Ok((longer, n)) => Ok::<(Seq<Seq<char>>, nat), ErrorModel>(
                        (longer, (n + self.pos - start) as nat),
                    ),
                    Err(e) => Err(e),
                }),
            ensures
                self.wf(),
                self.tokens == old(self).tokens,
                start <= self.pos,
                members(head, t, start) == Ok::<(Seq<Seq<char>>, nat), ErrorModel>(
                    (names(path@), (self.pos - start) as nat),
                ),
            decreases self.tokens@.len() - self.pos,
        {
            match self.peek() {
                Some(Token::Dot) => {},
                _ => {
                    break;
                },
            }
            self.advance();
            let found = self.advance();
            match found {
                Some(Token::Ident(part)) => {
                    let ghost before = names(path@);
                    let ghost name = part@;
                    path.push(part);
                    assert(names(path@) =~= before.push(name));
                },
                other => {
                    return Err(
                        Error::Protocol(
                            concat2(
                                "expected identifier after `.` in expression, found ",
                                quote_found(&other).as_str(),
                            ),
                        ),
                    );
                },
            }
        }
        Ok(Expr::Field(path))
    }
}

/// Parses an expression.
pub fn parse(source: &str) -> (r: Result<Expr, Error>)
    ensures
        error::outcome(r) == parsed(source@),
{
    let tokens = match lex(source) {
        Ok(tokens) => tokens,
        Err(e) => return Err(e),
    };
    let mut parser = Parser { tokens, pos: 0 };
    let expr = match parser.parse_level(Level::Or) {
        Ok(e) => e,
        Err(e) => return Err(e),
    };
    match parser.peek() {
        Some(t) => Err(
            Error::Protocol(
                concat2(
                    "unexpected trailing tokens in expression starting at ",
                    t.quoted().as_str(),
                ),
            ),
        ),
        None => Ok(expr),
    }
}

// ---------------------------------------------------------------------------
// Laws
// ---------------------------------------------------------------------------

/// The token of a binary operator.
pub open spec fn operator_token(op: BinOp) -> TokenModel {
    match op {
        BinOp::Add => TokenModel::Op(Op::Plus),
        BinOp::Sub => TokenModel::Op(Op::Minus),
        BinOp::Mul => TokenModel::Op(Op::Star),
        BinOp::Div => TokenModel::Op(Op::Slash),
        BinOp::Mod => TokenModel::Op(Op::Percent),
        BinOp::Eq => TokenModel::Op(Op::Equal),
        BinOp::Ne => TokenModel::Op(Op::NotEqual),
        BinOp::Lt => TokenModel::Op(Op::Less),
        BinOp::Le => TokenModel::Op(Op::LessEqual),
        BinOp::Gt => TokenModel::Op(Op::Greater),
        BinOp::Ge => TokenModel::Op(Op::GreaterEqual),
        BinOp::And => TokenModel::Ident("and"@),
        BinOp::Or => TokenModel::Ident("or"@),
        BinOp::BitAnd => TokenModel::Op(Op::Ampersand),
        BinOp::BitOr => TokenModel::Op(Op::Bar),
        BinOp::BitXor => TokenModel::Op(Op::Caret),
        BinOp::Shl => TokenModel::Op(Op::ShiftLeft),
        BinOp::Shr => TokenModel::Op(Op::ShiftRight),
    }
}

/// The level of a binary operator.
pub open spec fn level(op: BinOp) -> Level {
    match op {
        BinOp::Or => Level::Or,
        BinOp::And => Level::And,
        BinOp::Eq | BinOp::Ne | BinOp::Lt | BinOp::Le | BinOp::Gt | BinOp::Ge => Level::Comparison,
        BinOp::BitOr => Level::BitOr,
        BinOp::BitXor => Level::BitXor,
        BinOp::BitAnd => Level::BitAnd,
        BinOp::Shl | BinOp::Shr => Level::Shift,
        BinOp::Add | BinOp::Sub => Level::Sum,
        BinOp::Mul | BinOp::Div | BinOp::Mod => Level::Product,
    }
}

/// The token of a prefix operator.
pub open spec fn prefix_token(op: UnOp) -> TokenModel {
    match op {
        UnOp::Neg => TokenModel::Op(Op::Minus),
        UnOp::Not => TokenModel::Ident("not"@),
    }
}

/// A path with dots between its elements.
pub open spec fn dotted(path: Seq<Seq<char>>) -> Seq<TokenModel> {
    Seq::new(
        (2 * path.len() - 1) as nat,
        |i: int|
            if i % 2 == 0 {
                TokenModel::Ident(path[i / 2])
            } else {
                TokenModel::Dot
            },
    )
}

/// The expression can be written down: numbers are not negative, and no
/// reference starts with a word that means something else.
pub open spec fn writable(e: ExprModel) -> bool
    decreases e,
{
    match e {
        ExprModel::Int(n) => n >= 0,
        ExprModel::Bool(_) => true,
        ExprModel::Str(_) => true,
        ExprModel::Field(path) => path.len() > 0 && path[0] != "true"@ && path[0] != "false"@
            && path[0] != "not"@,
        ExprModel::Unary(_, inner) => writable(*inner),
        ExprModel::Binary(_, lhs, rhs) => writable(*lhs) && writable(*rhs),
    }
}

/// An expression written down with brackets round every operation.
pub open spec fn bracketed(e: ExprModel) -> Seq<TokenModel>
    decreases e,
{
    match e {
        ExprModel::Int(n) => seq![TokenModel::Int(n)],
        ExprModel::Bool(b) => seq![
            TokenModel::Ident(
                if b {
                    "true"@
                } else {
                    "false"@
                },
            ),
        ],
        ExprModel::Str(s) => seq![TokenModel::Str(s)],
        ExprModel::Field(path) => dotted(path),
        ExprModel::Unary(op, inner) => seq![TokenModel::LParen, prefix_token(op)] + bracketed(
            *inner,
        ) + seq![TokenModel::RParen],
        ExprModel::Binary(op, lhs, rhs) => seq![TokenModel::LParen] + bracketed(*lhs) + seq![
            operator_token(op),
        ] + bracketed(*rhs) + seq![TokenModel::RParen],
    }
}

/// An operator is one at its own level only.
pub(crate) proof fn lemma_operator_level(op: BinOp, m: Level)
    ensures
        operator(level(op), operator_token(op)) == Some(op),
        m != level(op) ==> operator(m, operator_token(op)) is None,
        operator_token(op) != TokenModel::Dot,
{
    reveal_strlit("and");
    reveal_strlit("or");
    assert("and"@.len() != "or"@.len());
}

/// An expression of a closer level is one of each looser level, where nothing
/// follows that the looser levels would take up.
pub(crate) proof fn lemma_climb(
    l: Level,
    m: Level,
    t: Seq<TokenModel>,
    p: nat,
    e: ExprModel,
    n: nat,
)
    requires
        depth(m) <= depth(l),
        grammar(m, t, p) == Ok::<(ExprModel, nat), ErrorModel>((e, n)),
        forall|k: Level|
            depth(m) < depth(k) <= depth(l) ==> (#[trigger] operator_at(k, t, p + n)) is None
                && prefix_at(k, t, p) is None,
    ensures
        grammar(l, t, p) == Ok::<(ExprModel, nat), ErrorModel>((e, n)),
    decreases depth(l),
{
    if depth(m) < depth(l) {
        assert(depth(below(l)) == depth(l) - 1);
        lemma_climb(below(l), m, t, p, e, n);
        assert(operator_at(l, t, p + n) is None && prefix_at(l, t, p) is None);
        match l {
            Level::Operand => {},
            Level::Not | Level::Sign => {},
            Level::Comparison => {},
            _ => {
                assert(chain(l, e, t, p + n) == Ok::<(ExprModel, nat), ErrorModel>((e, 0)));
            },
        }
    } else {
        assert(l == m);
    }
}

/// Element `j` of the path stands, after a dot, where it belongs in a path that
/// starts at `p`.
spec fn member_stands(path: Seq<Seq<char>>, j: int, t: Seq<TokenModel>, p: nat) -> bool {
    &&& t[p + 2 * j - 1] == TokenModel::Dot
    &&& t[p + 2 * j] == TokenModel::Ident(path[j])
}

proof fn lemma_members(path: Seq<Seq<char>>, k: int, t: Seq<TokenModel>, p: nat)
    requires
        0 < k <= path.len(),
        p + 2 * path.len() - 1 <= t.len(),
        forall|j: int| k <= j < path.len() ==> #[trigger] member_stands(path, j, t, p),
        at(t, (p + 2 * path.len() - 1) as nat) != Some(TokenModel::Dot),
    ensures
        members(path.take(k), t, (p + 2 * k - 1) as nat) == Ok::<(Seq<Seq<char>>, nat), ErrorModel>(
            (path, (2 * (path.len() - k)) as nat),
        ),
    decreases path.len() - k,
{
    if k < path.len() {
        assert(member_stands(path, k, t, p));
        assert(path.take(k).push(path[k]) =~= path.take(k + 1));
        lemma_members(path, k + 1, t, p);
    } else {
        assert(path.take(k) =~= path);
    }
}

/// The tokens of `s` stand in `t` from `p` on.
spec fn stands_at(s: Seq<TokenModel>, t: Seq<TokenModel>, p: nat) -> bool {
    &&& p + s.len() <= t.len()
    &&& forall|i: int| 0 <= i < s.len() ==> #[trigger] t[p + i] == s[i]
}

/// A part of what stands somewhere stands there too.
proof fn lemma_part_stands(
    s: Seq<TokenModel>,
    part: Seq<TokenModel>,
    from: int,
    t: Seq<TokenModel>,
    p: nat,
)
    requires
        stands_at(s, t, p),
        0 <= from,
        from + part.len() <= s.len(),
        forall|i: int| 0 <= i < part.len() ==> s[from + i] == #[trigger] part[i],
    ensures
        stands_at(part, t, (p + from) as nat),
{
    assert forall|i: int| 0 <= i < part.len() implies #[trigger] t[(p + from) + i] == part[i] by {
        assert(t[p + (from + i)] == s[from + i]);
        assert(s[from + i] == part[i]);
    }
}

/// What is written down starts like an operand, and takes a token at least.
proof fn lemma_bracketed_start(e: ExprModel)
    requires
        writable(e),
    ensures
        bracketed(e).len() > 0,
        prefix(Level::Not, bracketed(e)[0]) is None,
        prefix(Level::Sign, bracketed(e)[0]) is None,
{
    reveal_strlit("true");
    reveal_strlit("false");
    reveal_strlit("not");
    if let ExprModel::Bool(b) = e {
        assert("true"@.len() != "not"@.len());
        assert("false"@.len() != "not"@.len());
    }
}

/// An expression that is written down is read back as an operand.
proof fn lemma_operand(e: ExprModel, t: Seq<TokenModel>, p: nat)
    requires
        writable(e),
        stands_at(bracketed(e), t, p),
        at(t, p + bracketed(e).len()) != Some(TokenModel::Dot),
    ensures
        operand(t, p) == Ok::<(ExprModel, nat), ErrorModel>((e, bracketed(e).len())),
    decreases e,
{
    let s = bracketed(e);
    lemma_bracketed_start(e);
    assert(t[p + 0int] == s[0]);
    match e {
        ExprModel::Bool(b) => {
            reveal_strlit("true");
            reveal_strlit("false");
            assert("true"@.len() != "false"@.len());
        },
        ExprModel::Field(path) => {
            assert(path.take(1) =~= seq![path[0]]);
            assert forall|j: int| 1 <= j < path.len() implies #[trigger] member_stands(
                path,
                j,
                t,
                p,
            ) by {
                assert(t[p + (2 * j - 1)] == s[2 * j - 1]);
                assert(t[p + 2 * j] == s[2 * j]);
            }
            lemma_members(path, 1, t, p);
        },
        ExprModel::Unary(op, inner) => {
            lemma_bracketed_start(*inner);
            lemma_part_stands(s, bracketed(*inner), 2, t, p);
            assert(t[p + 1int] == s[1]);
            assert(t[p + (s.len() - 1)] == s[s.len() - 1]);
            lemma_operand(*inner, t, p + 2);
            assert(t[p + 2 + 0int] == bracketed(*inner)[0]);
            lemma_unary(op, *inner, t, p, bracketed(*inner).len());
        },
        ExprModel::Binary(op, lhs, rhs) => {
            let x = bracketed(*lhs);
            let y = bracketed(*rhs);
            let q = p + 1;
            let after = q + x.len();
            lemma_part_stands(s, x, 1, t, p);
            lemma_part_stands(s, y, 2 + x.len() as int, t, p);
            assert(t[p + (1 + x.len() as int)] == s[1 + x.len() as int]);
            assert(t[p + (s.len() - 1)] == s[s.len() - 1]);
            assert(at(t, after) == Some(operator_token(op)));
            assert(at(t, after + 1 + y.len()) == Some(TokenModel::RParen));
            lemma_operator_level(op, level(op));
            lemma_bracketed_start(*lhs);
            lemma_bracketed_start(*rhs);
            assert(t[q + 0int] == x[0]);
            assert(t[after + 1 + 0int] == y[0]);
            lemma_operand(*lhs, t, q);
            lemma_operand(*rhs, t, after + 1);
            lemma_binary(op, *lhs, *rhs, t, p, x.len(), y.len());
        },
        _ => {},
    }
}

/// A prefix operator and an operand, in brackets, are read as the operation.
proof fn lemma_unary(op: UnOp, inner: ExprModel, t: Seq<TokenModel>, p: nat, n: nat)
    requires
        at(t, p) == Some(TokenModel::LParen),
        at(t, p + 1) == Some(prefix_token(op)),
        operand(t, p + 2) == Ok::<(ExprModel, nat), ErrorModel>((inner, n)),
        at(t, p + 2 + n) == Some(TokenModel::RParen),
        prefix_at(Level::Not, t, p + 2) is None,
        prefix_at(Level::Sign, t, p + 2) is None,
    ensures
        operand(t, p) == Ok::<(ExprModel, nat), ErrorModel>(
            (ExprModel::Unary(op, Box::new(inner)), n + 3),
        ),
{
    let l = match op {
        UnOp::Neg => Level::Sign,
        UnOp::Not => Level::Not,
    };
    let r = ExprModel::Unary(op, Box::new(inner));
    lemma_climb(l, Level::Operand, t, p + 2, inner, n);
    assert(prefix_at(l, t, p + 1) == Some(op));
    assert(grammar(l, t, p + 1) == Ok::<(ExprModel, nat), ErrorModel>((r, n + 1)));
    lemma_climb(Level::Or, l, t, p + 1, r, n + 1);
}

/// Two expressions of the next closer level with an operator between them are
/// read as the operation, where no operator of the level follows.
pub(crate) proof fn lemma_operation(
    op: BinOp,
    lhs: ExprModel,
    rhs: ExprModel,
    t: Seq<TokenModel>,
    q: nat,
    n: nat,
    m: nat,
)
    requires
        grammar(below(level(op)), t, q) == Ok::<(ExprModel, nat), ErrorModel>((lhs, n)),
        at(t, q + n) == Some(operator_token(op)),
        grammar(below(level(op)), t, q + n + 1) == Ok::<(ExprModel, nat), ErrorModel>((rhs, m)),
        operator_at(level(op), t, q + n + 1 + m) is None,
    ensures
        grammar(level(op), t, q) == Ok::<(ExprModel, nat), ErrorModel>(
            (ExprModel::Binary(op, Box::new(lhs), Box::new(rhs)), n + 1 + m),
        ),
{
    let l = level(op);
    let r = ExprModel::Binary(op, Box::new(lhs), Box::new(rhs));
    lemma_operator_level(op, l);
    assert(operator_at(l, t, q + n) == Some(op));
    if l != Level::Comparison {
        assert(chain(l, r, t, q + n + 1 + m) == Ok::<(ExprModel, nat), ErrorModel>((r, 0)));
        assert(chain(l, lhs, t, q + n) == Ok::<(ExprModel, nat), ErrorModel>((r, m + 1)));
    }
}

/// An operand before an operator is an expression of the level below that of the
/// operator.
pub(crate) proof fn lemma_before_operator(
    op: BinOp,
    l: Level,
    e: ExprModel,
    t: Seq<TokenModel>,
    q: nat,
    n: nat,
)
    requires
        depth(l) < depth(level(op)),
        operand(t, q) == Ok::<(ExprModel, nat), ErrorModel>((e, n)),
        at(t, q + n) == Some(operator_token(op)),
        prefix_at(Level::Not, t, q) is None,
        prefix_at(Level::Sign, t, q) is None,
    ensures
        grammar(l, t, q) == Ok::<(ExprModel, nat), ErrorModel>((e, n)),
{
    assert forall|k: Level| depth(Level::Operand) < depth(k) <= depth(l) implies (
    #[trigger] operator_at(k, t, q + n)) is None && prefix_at(k, t, q) is None by {
        lemma_operator_level(op, k);
    }
    lemma_climb(l, Level::Operand, t, q, e, n);
}

/// An operation in brackets is read as such.
proof fn lemma_binary(
    op: BinOp,
    lhs: ExprModel,
    rhs: ExprModel,
    t: Seq<TokenModel>,
    p: nat,
    n: nat,
    m: nat,
)
    requires
        at(t, p) == Some(TokenModel::LParen),
        operand(t, p + 1) == Ok::<(ExprModel, nat), ErrorModel>((lhs, n)),
        at(t, p + 1 + n) == Some(operator_token(op)),
        operand(t, p + 1 + n + 1) == Ok::<(ExprModel, nat), ErrorModel>((rhs, m)),
        at(t, p + 1 + n + 1 + m) == Some(TokenModel::RParen),
        prefix_at(Level::Not, t, p + 1) is None,
        prefix_at(Level::Sign, t, p + 1) is None,
        prefix_at(Level::Not, t, p + 1 + n + 1) is None,
        prefix_at(Level::Sign, t, p + 1 + n + 1) is None,
    ensures
        operand(t, p) == Ok::<(ExprModel, nat), ErrorModel>(
            (ExprModel::Binary(op, Box::new(lhs), Box::new(rhs)), n + m + 3),
        ),
{
    let l = level(op);
    let r = ExprModel::Binary(op, Box::new(lhs), Box::new(rhs));
    lemma_before_operator(op, below(l), lhs, t, p + 1, n);
    lemma_climb(below(l), Level::Operand, t, p + 1 + n + 1, rhs, m);
    lemma_operation(op, lhs, rhs, t, p + 1, n, m);
    lemma_climb(Level::Or, l, t, p + 1, r, n + 1 + m);
}

/// An expression that is written down with brackets round every operation is
/// read back as it was.
pub proof fn law_bracketed_expressions_are_read_back(e: ExprModel)
    requires
        writable(e),
    ensures
        grammar(Level::Or, bracketed(e), 0) == Ok::<(ExprModel, nat), ErrorModel>(
            (e, bracketed(e).len()),
        ),
{
    let t = bracketed(e);
    lemma_bracketed_start(e);
    lemma_operand(e, t, 0);
    lemma_climb(Level::Or, Level::Operand, t, 0, e, t.len());
}

/// Of two operators without brackets, the one of the closer level goes first;
/// of the same level, the one on the left. (Two comparisons need brackets.)
pub proof fn law_closer_operators_go_first(op1: BinOp, op2: BinOp, a: i64, b: i64, c: i64)
    requires
        !(level(op1) == Level::Comparison && level(op2) == Level::Comparison),
    ensures
        grammar(
            Level::Or,
            seq![
                TokenModel::Int(a),
                operator_token(op1),
                TokenModel::Int(b),
                operator_token(op2),
                TokenModel::Int(c),
            ],
            0,
        ) == Ok::<(ExprModel, nat), ErrorModel>(
            (
                if depth(level(op2)) < depth(level(op1)) {
                    ExprModel::Binary(
                        op1,
                        Box::new(ExprModel::Int(a)),
                        Box::new(
                            ExprModel::Binary(
                                op2,
                                Box::new(ExprModel::Int(b)),
                                Box::new(ExprModel::Int(c)),
                            ),
                        ),
                    )
                } else {
                    ExprModel::Binary(
                        op2,
                        Box::new(
                            ExprModel::Binary(
                                op1,
                                Box::new(ExprModel::Int(a)),
                                Box::new(ExprModel::Int(b)),
                            ),
                        ),
                        Box::new(ExprModel::Int(c)),
                    )
                },
                5,
            ),
        ),
{
    let t = seq![
        TokenModel::Int(a),
        operator_token(op1),
        TokenModel::Int(b),
        operator_token(op2),
        TokenModel::Int(c),
    ];
    let (x, y, z) = (ExprModel::Int(a), ExprModel::Int(b), ExprModel::Int(c));
    let l1 = level(op1);
    let l2 = level(op2);
    lemma_operator_level(op1, l2);
    lemma_operator_level(op2, l1);
    lemma_before_operator(op1, below(l1), x, t, 0, 1);
    lemma_before_operator(op2, below(l2), y, t, 2, 1);
    assert(operand(t, 4) == Ok::<(ExprModel, nat), ErrorModel>((z, 1)));
    lemma_climb(below(l2), Level::Operand, t, 4, z, 1);
    if depth(l2) < depth(l1) {
        let inner = ExprModel::Binary(op2, Box::new(y), Box::new(z));
        lemma_operation(op2, y, z, t, 2, 1, 1);
        lemma_climb(below(l1), l2, t, 2, inner, 3);
        lemma_operation(op1, x, inner, t, 0, 1, 3);
        lemma_climb(
            Level::Or,
            l1,
            t,
            0,
            ExprModel::Binary(op1, Box::new(x), Box::new(inner)),
            5,
        );
    } else {
        let inner = ExprModel::Binary(op1, Box::new(x), Box::new(y));
        let whole = ExprModel::Binary(op2, Box::new(inner), Box::new(z));
        lemma_before_operator(op2, below(l1), y, t, 2, 1);
        if depth(l1) < depth(l2) {
            lemma_operation(op1, x, y, t, 0, 1, 1);
            assert forall|k: Level| depth(l1) < depth(k) <= depth(below(l2)) implies (
            #[trigger] operator_at(k, t, 0 + 3)) is None && prefix_at(k, t, 0) is None by {
                lemma_operator_level(op2, k);
            }
            lemma_climb(below(l2), l1, t, 0, inner, 3);
            lemma_operation(op2, inner, z, t, 0, 3, 1);
        } else {
            assert(operator_at(l1, t, 1) == Some(op1));
            assert(operator_at(l1, t, 3) == Some(op2));
            assert(operator_at(l1, t, 5) is None);
            assert(chain(l1, whole, t, 5) == Ok::<(ExprModel, nat), ErrorModel>((whole, 0)));
            assert(chain(l1, inner, t, 3) == Ok::<(ExprModel, nat), ErrorModel>((whole, 2)));
            assert(chain(l1, x, t, 1) == Ok::<(ExprModel, nat), ErrorModel>((whole, 4)));
        }
        lemma_climb(Level::Or, l2, t, 0, whole, 5);
    }
}

/// The tokens `t` with something before them, and after them a closing bracket
/// and something more.
pub open spec fn enclosed(
    front: Seq<TokenModel>,
    t: Seq<TokenModel>,
    back: Seq<TokenModel>,
) -> Seq<TokenModel> {
    front + t + seq![TokenModel::RParen] + back
}

/// What follows an expression does not change where a bracket comes after it.
proof fn lemma_enclosed_at(
    front: Seq<TokenModel>,
    t: Seq<TokenModel>,
    back: Seq<TokenModel>,
    p: nat,
)
    requires
        p <= t.len(),
    ensures
        p < t.len() ==> at(enclosed(front, t, back), front.len() + p) == at(t, p),
        p == t.len() ==> at(enclosed(front, t, back), front.len() + p) == Some(TokenModel::RParen),
        forall|l: Level| #[trigger]
            operator_at(l, enclosed(front, t, back), front.len() + p) == operator_at(l, t, p),
        forall|l: Level| #[trigger]
            prefix_at(l, enclosed(front, t, back), front.len() + p) == prefix_at(l, t, p),
        (at(enclosed(front, t, back), front.len() + p) == Some(TokenModel::Dot)) == (at(t, p) == Some(
            TokenModel::Dot,
        )),
{
}

pub(crate) proof fn lemma_enclosed_grammar(
    front: Seq<TokenModel>,
    l: Level,
    t: Seq<TokenModel>,
    back: Seq<TokenModel>,
    p: nat,
)
    requires
        p <= t.len(),
        grammar(l, t, p) is Ok,
    ensures
        grammar(l, enclosed(front, t, back), front.len() + p) == grammar(l, t, p),
        p + grammar(l, t, p)->Ok_0.1 <= t.len(),
    decreases left(t, p), depth(l), 1nat,
{
    lemma_enclosed_at(front, t, back, p);
    match l {
        Level::Operand => {
            lemma_enclosed_operand(front, t, back, p);
        },
        Level::Not | Level::Sign => {
            if prefix_at(l, t, p) is Some {
                lemma_enclosed_grammar(front, l, t, back, p + 1);
            } else {
                lemma_enclosed_grammar(front, below(l), t, back, p);
            }
        },
        Level::Comparison => {
            lemma_enclosed_grammar(front, below(l), t, back, p);
            let n = grammar(below(l), t, p)->Ok_0.1;
            lemma_enclosed_at(front, t, back, p + n);
            if operator_at(l, t, p + n) is Some {
                lemma_enclosed_grammar(front, below(l), t, back, p + n + 1);
            }
        },
        _ => {
            lemma_enclosed_grammar(front, below(l), t, back, p);
            let (lhs, n) = grammar(below(l), t, p)->Ok_0;
            lemma_enclosed_chain(front, l, lhs, t, back, p + n);
        },
    }
}

proof fn lemma_enclosed_chain(
    front: Seq<TokenModel>,
    l: Level,
    lhs: ExprModel,
    t: Seq<TokenModel>,
    back: Seq<TokenModel>,
    p: nat,
)
    requires
        p <= t.len(),
        chain(l, lhs, t, p) is Ok,
    ensures
        chain(l, lhs, enclosed(front, t, back), front.len() + p) == chain(l, lhs, t, p),
        p + chain(l, lhs, t, p)->Ok_0.1 <= t.len(),
    decreases left(t, p), depth(l), 0nat,
{
    lemma_enclosed_at(front, t, back, p);
    if let Some(op) = operator_at(l, t, p) {
        lemma_enclosed_grammar(front, below(l), t, back, p + 1);
        let (rhs, n) = grammar(below(l), t, p + 1)->Ok_0;
        lemma_enclosed_chain(
            front,
            l,
            ExprModel::Binary(op, Box::new(lhs), Box::new(rhs)),
            t,
            back,
            p + 1 + n,
        );
    }
}

proof fn lemma_enclosed_operand(
    front: Seq<TokenModel>,
    t: Seq<TokenModel>,
    back: Seq<TokenModel>,
    p: nat,
)
    requires
        p <= t.len(),
        operand(t, p) is Ok,
    ensures
        operand(enclosed(front, t, back), front.len() + p) == operand(t, p),
        p + operand(t, p)->Ok_0.1 <= t.len(),
    decreases left(t, p), 0nat, 0nat,
{
    lemma_enclosed_at(front, t, back, p);
    match at(t, p) {
        Some(TokenModel::Ident(w)) => {
            if w != "true"@ && w != "false"@ {
                lemma_enclosed_members(front, seq![w], t, back, p + 1);
            }
        },
        Some(TokenModel::LParen) => {
            lemma_enclosed_grammar(front, Level::Or, t, back, p + 1);
            let n = grammar(Level::Or, t, p + 1)->Ok_0.1;
            lemma_enclosed_at(front, t, back, p + 1 + n);
        },
        _ => {},
    }
}

proof fn lemma_enclosed_members(
    front: Seq<TokenModel>,
    path: Seq<Seq<char>>,
    t: Seq<TokenModel>,
    back: Seq<TokenModel>,
    p: nat,
)
    requires
        p <= t.len(),
        members(path, t, p) is Ok,
    ensures
        members(path, enclosed(front, t, back), front.len() + p) == members(path, t, p),
        p + members(path, t, p)->Ok_0.1 <= t.len(),
    decreases left(t, p),
{
    lemma_enclosed_at(front, t, back, p);
    if at(t, p) == Some(TokenModel::Dot) {
        lemma_enclosed_at(front, t, back, p + 1);
        if let Some(TokenModel::Ident(w)) = at(t, p + 1) {
            lemma_enclosed_members(front, path.push(w), t, back, p + 2);
        }
    }
}

/// Brackets round the text of an expression change nothing, and `not` before
/// them negates the whole.
pub proof fn law_brackets_change_nothing(source: Seq<char>)
    requires
        parsed(source) is Ok,
    ensures
        parsed("("@ + source + ")"@) == parsed(source),
        parsed("not ("@ + source + ")"@) == Ok::<ExprModel, ErrorModel>(
            ExprModel::Unary(UnOp::Not, Box::new(parsed(source)->Ok_0)),
        ),
{
    let t = token::tokens_from(source, 0)->Ok_0;
    let e = parsed(source)->Ok_0;
    token::law_brackets_are_tokens_of_their_own(source);

    let open = seq![TokenModel::LParen];
    let x = enclosed(open, t, Seq::empty());
    lemma_enclosed_grammar(open, Level::Or, t, Seq::empty(), 0);
    assert(x =~= open + t + seq![TokenModel::RParen]);
    assert(at(x, 0) == Some(TokenModel::LParen));
    assert(at(x, 1 + t.len()) == Some(TokenModel::RParen));
    assert(operand(x, 0) == Ok::<(ExprModel, nat), ErrorModel>((e, x.len())));
    lemma_climb(Level::Or, Level::Operand, x, 0, e, x.len());

    let negation = seq![TokenModel::Ident("not"@), TokenModel::LParen];
    let y = enclosed(negation, t, Seq::empty());
    assert(y =~= negation + t + seq![TokenModel::RParen]);
    let r = ExprModel::Unary(UnOp::Not, Box::new(e));
    let n = t.len() + 2;
    lemma_enclosed_grammar(negation, Level::Or, t, Seq::empty(), 0);
    assert(at(y, 0) == Some(TokenModel::Ident("not"@)));
    assert(at(y, 1) == Some(TokenModel::LParen));
    assert(at(y, 2 + t.len()) == Some(TokenModel::RParen));
    assert(operand(y, 1) == Ok::<(ExprModel, nat), ErrorModel>((e, n)));
    lemma_climb(Level::Not, Level::Operand, y, 1, e, n);
    assert(prefix_at(Level::Not, y, 0) == Some(UnOp::Not));
    assert(grammar(Level::Not, y, 0) == Ok::<(ExprModel, nat), ErrorModel>((r, y.len())));
    lemma_climb(Level::Or, Level::Not, y, 0, r, y.len());
}

} // verus!
