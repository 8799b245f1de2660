//! Tokens of the expression language.
use vstd::prelude::*;

use crate::error::Error;
use crate::text::{chars_of, concat3, debug_str, decimal_i64, string_of};
#[allow(unused_imports)]
use crate::{error, error::ErrorModel, text};

verus! {

/// An operator sign.
#[derive(Debug, Clone, Copy, PartialEq, Eq, Structural)]
pub enum Op {
    Equal,
    NotEqual,
    LessEqual,
    GreaterEqual,
    ShiftLeft,
    ShiftRight,
    Plus,
    Minus,
    Star,
    Slash,
    Percent,
    Less,
    Greater,
    Ampersand,
    Bar,
    Caret,
}

/// A token.
#[derive(Debug)]
pub enum Token {
    Int(i64),
    Str(String),
    Ident(String),
    Dot,
    LParen,
    RParen,
    Op(Op),
}

/// The mathematical counterpart of [`Token`].
pub enum TokenModel {
    Int(i64),
    Str(Seq<char>),
    Ident(Seq<char>),
    Dot,
    LParen,
    RParen,
    Op(Op),
}

impl View for Token {
    type V = TokenModel;

    open spec fn view(&self) -> TokenModel {
        match *self {
            Token::Int(n) => TokenModel::Int(n),
            Token::Str(s) => TokenModel::Str(s@),
            Token::Ident(w) => TokenModel::Ident(w@),
            Token::Dot => TokenModel::Dot,
            Token::LParen => TokenModel::LParen,
            Token::RParen => TokenModel::RParen,
            Token::Op(op) => TokenModel::Op(op),
        }
    }
}

pub open spec fn token_models(tokens: Seq<Token>) -> Seq<TokenModel> {
    Seq::new(tokens.len(), |i: int| tokens[i]@)
}

impl Clone for Token {
    fn clone(&self) -> (r: Token)
        ensures
            r@ == self@,
    {
        match self {
            Token::Int(n) => Token::Int(*n),
            Token::Str(s) => Token::Str(s.clone()),
            Token::Ident(w) => Token::Ident(w.clone()),
            Token::Dot => Token::Dot,
            Token::LParen => Token::LParen,
            Token::RParen => Token::RParen,
            Token::Op(op) => Token::Op(*op),
        }
    }
}

// ---------------------------------------------------------------------------
// Texts of tokens
// ---------------------------------------------------------------------------

/// The sign of an operator.
pub open spec fn sign(op: Op) -> Seq<char> {
    match op {
        Op::Equal => "=="@,
        Op::NotEqual => "!="@,
        Op::LessEqual => "<="@,
        Op::GreaterEqual => ">="@,
        Op::ShiftLeft => "<<"@,
        Op::ShiftRight => ">>"@,
        Op::Plus => "+"@,
        Op::Minus => "-"@,
        Op::Star => "*"@,
        Op::Slash => "/"@,
        Op::Percent => "%"@,
        Op::Less => "<"@,
        Op::Greater => ">"@,
        Op::Ampersand => "&"@,
        Op::Bar => "|"@,
        Op::Caret => "^"@,
    }
}

fn sign_text(op: Op) -> (r: &'static str)
    ensures
        r@ == sign(op),
{
    match op {
        Op::Equal => "==",
        Op::NotEqual => "!=",
        Op::LessEqual => "<=",
        Op::GreaterEqual => ">=",
        Op::ShiftLeft => "<<",
        Op::ShiftRight => ">>",
        Op::Plus => "+",
        Op::Minus => "-",
        Op::Star => "*",
        Op::Slash => "/",
        Op::Percent => "%",
        Op::Less => "<",
        Op::Greater => ">",
        Op::Ampersand => "&",
        Op::Bar => "|",
        Op::Caret => "^",
    }
}

/// A token as messages quote it.
pub open spec fn token_text(t: TokenModel) -> Seq<char> {
    match t {
        TokenModel::Int(n) => "Int("@ + text::decimal_signed(n as int) + ")"@,
        TokenModel::Str(s) => "Str("@ + text::str_debug(s) + ")"@,
        TokenModel::Ident(w) => "Ident("@ + text::str_debug(w) + ")"@,
        TokenModel::Dot => "Dot"@,
        TokenModel::LParen => "LParen"@,
        TokenModel::RParen => "RParen"@,
        TokenModel::Op(op) => "Op("@ + text::str_debug(sign(op)) + ")"@,
    }
}

/// What stands at a place, or that nothing does, as messages quote it.
pub open spec fn found_text(t: Option<TokenModel>) -> Seq<char> {
    match t {
        Some(t) => "Some("@ + token_text(t) + ")"@,
        None => "None"@,
    }
}

impl Token {
    /// The token as messages quote it.
    pub fn quoted(&self) -> (r: String)
        ensures
            r@ == token_text(self@),
    {
        match self {
            Token::Int(n) => concat3("Int(", decimal_i64(*n).as_str(), ")"),
            Token::Str(s) => concat3("Str(", debug_str(s.as_str()).as_str(), ")"),
            Token::Ident(w) => concat3("Ident(", debug_str(w.as_str()).as_str(), ")"),
            Token::Dot => "Dot".to_owned(),
            Token::LParen => "LParen".to_owned(),
            Token::RParen => "RParen".to_owned(),
            Token::Op(op) => concat3("Op(", debug_str(sign_text(*op)).as_str(), ")"),
        }
    }
}

/// What stands at a place, or that nothing does, as messages quote it.
pub fn quote_found(t: &Option<Token>) -> (r: String)
    ensures
        r@ == found_text(
            match *t {
                Some(t) => Some(t@),
                None => None,
            },
        ),
{
    match t {
        Some(t) => concat3("Some(", t.quoted().as_str(), ")"),
        None => "None".to_owned(),
    }
}

// ---------------------------------------------------------------------------
// Runs of characters
// ---------------------------------------------------------------------------

/// A class of characters of which a token can be made.
#[derive(Debug, Clone, Copy)]
pub enum Class {
    /// What may continue a name.
    Word,
    Digit,
    HexDigit,
    /// Everything but one character.
    Except(char),
}

pub open spec fn hex_digit(c: char) -> bool {
    text::ascii_digit(c) || ('a' <= c <= 'f') || ('A' <= c <= 'F')
}

/// The character belongs to the class.
pub open spec fn in_class(k: Class, c: char) -> bool {
    match k {
        Class::Word => text::alphanumeric(c) || c == '_',
        Class::Digit => text::ascii_digit(c),
        Class::HexDigit => hex_digit(c),
        Class::Except(q) => c != q,
    }
}

fn belongs(k: Class, c: char) -> (r: bool)
    ensures
        r == in_class(k, c),
{
    match k {
        Class::Word => c.is_alphanumeric() || c == '_',
        Class::Digit => '0' <= c && c <= '9',
        Class::HexDigit => ('0' <= c && c <= '9') || ('a' <= c && c <= 'f') || ('A' <= c && c
            <= 'F'),
        Class::Except(q) => c != q,
    }
}

/// How many characters from `i` on, without a gap, belong to the class.
pub open spec fn run(c: Seq<char>, i: int, k: Class) -> nat
    decreases c.len() - i,
{
    if 0 <= i < c.len() && in_class(k, c[i]) {
        1 + run(c, i + 1, k)
    } else {
        0
    }
}

/// The end of the run that starts at `start`.
fn run_end(c: &Vec<char>, start: usize, k: Class) -> (r: usize)
    requires
        start <= c@.len(),
    ensures
        r == start + run(c@, start as int, k),
        r <= c@.len(),
        r < c@.len() ==> !in_class(k, c@[r as int]),
{
    let mut i: usize = start;
    while i < c.len() && belongs(k, c[i])
        invariant
            start <= i <= c@.len(),
            start + run(c@, start as int, k) == i + run(c@, i as int, k),
        decreases c@.len() - i,
    {
        i = i + 1;
    }
    i
}

// ---------------------------------------------------------------------------
// Numbers
// ---------------------------------------------------------------------------

/// What a digit is worth.
pub open spec fn worth(c: char) -> nat {
    if 'a' <= c <= 'f' {
        (c as u32 - 'a' as u32 + 10) as nat
    } else if 'A' <= c <= 'F' {
        (c as u32 - 'A' as u32 + 10) as nat
    } else {
        (c as u32 - '0' as u32) as nat
    }
}

fn worth_of(c: char) -> (r: u32)
    requires
        hex_digit(c),
    ensures
        r == worth(c),
        r < 16,
{
    if 'a' <= c && c <= 'f' {
        c as u32 - 'a' as u32 + 10
    } else if 'A' <= c && c <= 'F' {
        c as u32 - 'A' as u32 + 10
    } else {
        c as u32 - '0' as u32
    }
}

/// The number that digits stand for.
pub open spec fn number(s: Seq<char>, radix: nat) -> nat
    decreases s.len(),
{
    if s.len() == 0 {
        0
    } else {
        number(s.drop_last(), radix) * radix + worth(s.last())
    }
}

proof fn lemma_number_grows(s: Seq<char>, radix: nat, i: int)
    requires
        radix >= 1,
        0 <= i <= s.len(),
    ensures
        number(s.take(i), radix) <= number(s, radix),
    decreases s.len() - i,
{
    if i < s.len() {
        lemma_number_grows(s, radix, i + 1);
        let longer = s.take(i + 1);
        assert(longer.drop_last() =~= s.take(i));
        let m = number(s.take(i), radix);
        assert(m * radix >= m) by (nonlinear_arith)
            requires
                radix >= 1,
                m >= 0,
        ;
    } else {
        assert(s.take(i) =~= s);
    }
}

/// The number that `c[from..to]` stands for, where it fits.
fn number_of(c: &Vec<char>, from: usize, to: usize, radix: i64) -> (r: Option<i64>)
    requires
        from <= to <= c@.len(),
        radix == 10 || radix == 16,
        forall|i: int| from <= i < to ==> hex_digit(#[trigger] c@[i]),
    ensures
        match r {
            Some(n) => n == number(c@.subrange(from as int, to as int), radix as nat),
            None => number(c@.subrange(from as int, to as int), radix as nat) > i64::MAX,
        },
{
    let ghost digits = c@.subrange(from as int, to as int);
    let mut value: i64 = 0;
    let mut i: usize = from;
    assert(digits.take(0) =~= Seq::<char>::empty());
    while i < to
        invariant
            from <= i <= to <= c@.len(),
            radix == 10 || radix == 16,
            digits == c@.subrange(from as int, to as int),
            forall|i: int| from <= i < to ==> hex_digit(#[trigger] c@[i]),
            value >= 0,
            value == number(digits.take(i - from), radix as nat),
        decreases to - i,
    {
        let d: i64 = worth_of(c[i]) as i64;
        proof {
            let longer = digits.take(i + 1 - from);
            assert(longer.drop_last() =~= digits.take(i - from));
            assert(longer.last() == c@[i as int]);
            lemma_number_grows(digits, radix as nat, i + 1 - from);
        }
        match value.checked_mul(radix) {
            Some(scaled) => match scaled.checked_add(d) {
                Some(next) => {
                    value = next;
                },
                None => {
                    return None;
                },
            },
            None => {
                return None;
            },
        }
        i = i + 1;
    }
    assert(digits.take(i - from) =~= digits);
    Some(value)
}

// ---------------------------------------------------------------------------
// Tokens
// ---------------------------------------------------------------------------

/// The operators of two characters.
pub open spec fn double_op(a: char, b: char) -> Option<Op> {
    if a == '=' && b == '=' {
        Some(Op::Equal)
    } else if a == '!' && b == '=' {
        Some(Op::NotEqual)
    } else if a == '<' && b == '=' {
        Some(Op::LessEqual)
    } else if a == '>' && b == '=' {
        Some(Op::GreaterEqual)
    } else if a == '<' && b == '<' {
        Some(Op::ShiftLeft)
    } else if a == '>' && b == '>' {
        Some(Op::ShiftRight)
    } else {
        None
    }
}

/// The operators of one character.
pub open spec fn single_op(a: char) -> Option<Op> {
    match a {
        '+' => Some(Op::Plus),
        '-' => Some(Op::Minus),
        '*' => Some(Op::Star),
        '/' => Some(Op::Slash),
        '%' => Some(Op::Percent),
        '<' => Some(Op::Less),
        '>' => Some(Op::Greater),
        '&' => Some(Op::Ampersand),
        '|' => Some(Op::Bar),
        '^' => Some(Op::Caret),
        _ => None,
    }
}

/// The literal made of the digits `s`, which takes `rest` characters after its
/// first.
pub open spec fn literal(kind: Seq<char>, s: Seq<char>, radix: nat, rest: nat) -> Result<
    (TokenModel, nat),
    ErrorModel,
> {
    if s.len() == 0 {
        Err(
            ErrorModel::Protocol(
                "invalid "@ + kind + " literal: cannot parse integer from empty string"@,
            ),
        )
    } else if number(s, radix) > i64::MAX {
        Err(
            ErrorModel::Protocol(
                "invalid "@ + kind + " literal: number too large to fit in target type"@,
            ),
        )
    } else {
        Ok((TokenModel::Int(number(s, radix) as i64), rest))
    }
}

/// The token at a place where there is no white space, and how many characters
/// it takes after its first.
pub open spec fn token_at(c: Seq<char>, i: int) -> Result<(TokenModel, nat), ErrorModel> {
    let first = c[i];
    if first == '(' {
        Ok((TokenModel::LParen, 0))
    } else if first == ')' {
        Ok((TokenModel::RParen, 0))
    } else if first == '.' {
        Ok((TokenModel::Dot, 0))
    } else if first == '"' || first == '\'' {
        let n = run(c, i + 1, Class::Except(first));
        if i + 1 + n >= c.len() {
            Err(ErrorModel::Protocol("unterminated string literal in expression"@))
        } else {
            Ok((TokenModel::Str(c.subrange(i + 1, i + 1 + n)), n + 1))
        }
    } else if text::ascii_digit(first) {
        if first == '0' && i + 1 < c.len() && c[i + 1] == 'x' {
            let n = run(c, i + 2, Class::HexDigit);
            literal("hex"@, c.subrange(i + 2, i + 2 + n), 16, n + 1)
        } else {
            let n = run(c, i + 1, Class::Digit);
            literal("integer"@, c.subrange(i, i + 1 + n), 10, n)
        }
    } else if text::alphabetic(first) || first == '_' {
        let n = run(c, i + 1, Class::Word);
        Ok((TokenModel::Ident(c.subrange(i, i + 1 + n)), n))
    } else if i + 1 < c.len() && double_op(first, c[i + 1]) is Some {
        Ok((TokenModel::Op(double_op(first, c[i + 1])->0), 1))
    } else if single_op(first) is Some {
        Ok((TokenModel::Op(single_op(first)->0), 0))
    } else {
        Err(ErrorModel::Protocol("unexpected character `"@ + seq![first] + "` in expression"@))
    }
}

/// The tokens from `i` on. White space only separates them.
pub open spec fn tokens_from(c: Seq<char>, i: int) -> Result<Seq<TokenModel>, ErrorModel>
    decreases
            if i < c.len() {
                c.len() - i
            } else {
                0
            },
{
    if i < 0 || i >= c.len() {
        Ok(Seq::empty())
    } else if text::whitespace(c[i]) {
        tokens_from(c, i + 1)
    } else {
        match token_at(c, i) {
            Err(e) => Err(e),
            Ok((t, rest)) => preceded(seq![t], tokens_from(c, i + 1 + rest)),
        }
    }
}

/// `front`, and after it what follows.
pub open spec fn preceded(
    front: Seq<TokenModel>,
    rest: Result<Seq<TokenModel>, ErrorModel>,
) -> Result<Seq<TokenModel>, ErrorModel> {
    match rest {
        Ok(s) => Ok(front + s),
        Err(e) => Err(e),
    }
}

fn double_op_of(a: char, b: char) -> (r: Option<Op>)
    ensures
        r == double_op(a, b),
{
    if a == '=' && b == '=' {
        Some(Op::Equal)
    } else if a == '!' && b == '=' {
        Some(Op::NotEqual)
    } else if a == '<' && b == '=' {
        Some(Op::LessEqual)
    } else if a == '>' && b == '=' {
        Some(Op::GreaterEqual)
    } else if a == '<' && b == '<' {
        Some(Op::ShiftLeft)
    } else if a == '>' && b == '>' {
        Some(Op::ShiftRight)
    } else {
        None
    }
}

fn single_op_of(a: char) -> (r: Option<Op>)
    ensures
        r == single_op(a),
{
    match a {
        '+' => Some(Op::Plus),
        '-' => Some(Op::Minus),
        '*' => Some(Op::Star),
        '/' => Some(Op::Slash),
        '%' => Some(Op::Percent),
        '<' => Some(Op::Less),
        '>' => Some(Op::Greater),
        '&' => Some(Op::Ampersand),
        '|' => Some(Op::Bar),
        '^' => Some(Op::Caret),
        _ => None,
    }
}

fn literal_of(
    kind: &str,
    c: &Vec<char>,
    from: usize,
    to: usize,
    radix: i64,
) -> (r: Result<Token, Error>)
    requires
        from <= to <= c@.len(),
        radix == 10 || radix == 16,
        forall|i: int| from <= i < to ==> hex_digit(#[trigger] c@[i]),
    ensures
        forall|rest: nat| #[trigger]
            literal(kind@, c@.subrange(from as int, to as int), radix as nat, rest) == (
            match error::outcome(r) {
                Ok(t) => Ok((t, rest)),
                Err(e) => Err(e),
            }),
{
    if from == to {
        return Err(
            Error::Protocol(
                concat3(
                    "invalid ",
                    kind,
                    " literal: cannot parse integer from empty string",
                ),
            ),
        );
    }
    match number_of(c, from, to, radix) {
        Some(n) => Ok(Token::Int(n)),
        None => Err(
            Error::Protocol(
                concat3(
                    "invalid ",
                    kind,
                    " literal: number too large to fit in target type",
                ),
            ),
        ),
    }
}

proof fn lemma_run_members(c: Seq<char>, i: int, k: Class, j: int)
    requires
        0 <= i <= j < i + run(c, i, k),
    ensures
        j < c.len(),
        in_class(k, c[j]),
    decreases j - i,
{
    if i < j {
        lemma_run_members(c, i + 1, k, j);
    }
}

/// The token at a place where there is no white space, and the place after it.
fn next_token(c: &Vec<char>, i: usize) -> (r: Result<(Token, usize), Error>)
    requires
        i < c@.len(),
    ensures
        match (r, token_at(c@, i as int)) {
            (Ok((t, next)), Ok((m, rest))) => t@ == m && next == i + 1 + rest && next <= c@.len(),
            (Err(e), Err(m)) => e@ == m,
            _ => false,
        },
{
    let count: usize = c.len();
    assert(i + 1 <= count);
    let first = c[i];
    if first == '(' {
        Ok((Token::LParen, i + 1))
    } else if first == ')' {
        Ok((Token::RParen, i + 1))
    } else if first == '.' {
        Ok((Token::Dot, i + 1))
    } else if first == '"' || first == '\'' {
        let end: usize = run_end(c, i + 1, Class::Except(first));
        if end >= count {
            Err(Error::Protocol("unterminated string literal in expression".to_owned()))
        } else {
            Ok((Token::Str(string_of(c, i + 1, end)), end + 1))
        }
    } else if '0' <= first && first <= '9' {
        if first == '0' && i + 1 < count && c[i + 1] == 'x' {
            let end: usize = run_end(c, i + 2, Class::HexDigit);
            proof {
                assert forall|j: int| i + 2 <= j < end implies hex_digit(#[trigger] c@[j]) by {
                    lemma_run_members(c@, i + 2, Class::HexDigit, j);
                }
            }
            match literal_of("hex", c, i + 2, end, 16) {
                Ok(t) => Ok((t, end)),
                Err(e) => Err(e),
            }
        } else {
            let end: usize = run_end(c, i + 1, Class::Digit);
            proof {
                assert forall|j: int| i <= j < end implies hex_digit(#[trigger] c@[j]) by {
                    if j > i {
                        lemma_run_members(c@, i + 1, Class::Digit, j);
                    }
                }
            }
            match literal_of("integer", c, i, end, 10) {
                Ok(t) => Ok((t, end)),
                Err(e) => Err(e),
            }
        }
    } else if first.is_alphabetic() || first == '_' {
        let end: usize = run_end(c, i + 1, Class::Word);
        Ok((Token::Ident(string_of(c, i, end)), end))
    } else {
        if i + 1 < count {
            if let Some(op) = double_op_of(first, c[i + 1]) {
                return Ok((Token::Op(op), i + 2));
            }
        }
        match single_op_of(first) {
            Some(op) => Ok((Token::Op(op), i + 1)),
            None => {
                let mut message = "unexpected character `".to_owned();
                message.push(first);
                message.append("` in expression");
                assert(message@ =~= "unexpected character `"@ + seq![first] + "` in expression"@);
                Err(Error::Protocol(message))
            },
        }
    }
}

/// Splits an expression into its tokens.
pub fn lex(source: &str) -> (r: Result<Vec<Token>, Error>)
    ensures
        match (r, tokens_from(source@, 0)) {
            (Ok(v), Ok(m)) => token_models(v@) == m,
            (Err(e), Err(m)) => e@ == m,
            _ => false,
        },
{
    let c = chars_of(source);
    let mut tokens: Vec<Token> = Vec::new();
    let mut i: usize = 0;
    proof {
        assert(token_models(tokens@) =~= Seq::<TokenModel>::empty());
        assert(preceded(Seq::empty(), tokens_from(c@, 0)) == tokens_from(c@, 0)) by {
            match tokens_from(c@, 0) {
                Ok(s) => {
                    assert(Seq::<TokenModel>::empty() + s =~= s);
                },
                Err(_) => {},
            }
        }
    }
    while i < c.len()
        invariant
            c@ == source@,
            i <= c@.len(),
            tokens_from(c@, 0) == preceded(token_models(tokens@), tokens_from(c@, i as int)),
        decreases c@.len() - i,
    {
        if c[i].is_whitespace() {
            i = i + 1;
        } else {
            match next_token(&c, i) {
                Ok((t, next)) => {
                    let ghost before = token_models(tokens@);
                    let ghost later = tokens_from(c@, next as int);
                    tokens.push(t);
                    proof {
                        assert(token_models(tokens@) =~= before + seq![t@]);
                        match later {
                            Ok(s) => {
                                assert(before + (seq![t@] + s) =~= (before + seq![t@]) + s);
                            },
                            Err(_) => {},
                        }
                    }
                    i = next;
                },
                Err(e) => {
                    return Err(e);
                },
            }
        }
    }
    assert(token_models(tokens@) + Seq::<TokenModel>::empty() =~= token_models(tokens@));
    Ok(tokens)
}

// ---------------------------------------------------------------------------
// Laws
// ---------------------------------------------------------------------------

/// The text `c` with something before it and a closing bracket after it.
pub open spec fn enclosed(front: Seq<char>, c: Seq<char>) -> Seq<char> {
    front + c + seq![')']
}

/// A run does not go on into the bracket, unless it takes brackets too.
proof fn lemma_enclosed_run(front: Seq<char>, c: Seq<char>, i: int, k: Class)
    requires
        0 <= i <= c.len(),
        !in_class(k, ')') || i + run(c, i, k) < c.len(),
    ensures
        run(enclosed(front, c), front.len() + i, k) == run(c, i, k),
        i + run(c, i, k) <= c.len(),
        enclosed(front, c).subrange(front.len() + i, front.len() + i + run(c, i, k)) == c.subrange(
            i,
            i + run(c, i, k),
        ),
    decreases c.len() - i,
{
    let whole = enclosed(front, c);
    if i < c.len() {
        assert(whole[front.len() + i] == c[i]);
        if in_class(k, c[i]) {
            lemma_enclosed_run(front, c, i + 1, k);
        }
    } else {
        assert(whole[front.len() + i] == ')');
    }
    assert(whole.subrange(front.len() + i, front.len() + i + run(c, i, k)) =~= c.subrange(
        i,
        i + run(c, i, k),
    ));
}

proof fn lemma_enclosed_token(front: Seq<char>, c: Seq<char>, i: int)
    requires
        0 <= i < c.len(),
        token_at(c, i) is Ok,
    ensures
        token_at(enclosed(front, c), front.len() + i) == token_at(c, i),
        i + 1 + token_at(c, i)->Ok_0.1 <= c.len(),
{
    let whole = enclosed(front, c);
    let first = c[i];
    let j = front.len() + i;
    assert(whole[j] == first);
    assert(i + 1 < c.len() ==> whole[j + 1] == c[i + 1]);
    assert(i + 1 == c.len() ==> whole[j + 1] == ')');
    if first == '(' || first == ')' || first == '.' {
    } else if first == '"' || first == '\'' {
        lemma_enclosed_run(front, c, i + 1, Class::Except(first));
    } else if text::ascii_digit(first) {
        if first == '0' && i + 1 < c.len() && c[i + 1] == 'x' {
            lemma_enclosed_run(front, c, i + 2, Class::HexDigit);
        } else {
            lemma_enclosed_run(front, c, i + 1, Class::Digit);
            let n = run(c, i + 1, Class::Digit);
            assert(whole.subrange(j, j + 1 + n) =~= c.subrange(i, i + 1 + n));
        }
    } else if text::alphabetic(first) || first == '_' {
        lemma_enclosed_run(front, c, i + 1, Class::Word);
        let n = run(c, i + 1, Class::Word);
        assert(whole.subrange(j, j + 1 + n) =~= c.subrange(i, i + 1 + n));
    }
}

proof fn lemma_enclosed_tokens(front: Seq<char>, c: Seq<char>, i: int)
    requires
        0 <= i <= c.len(),
        tokens_from(c, i) is Ok,
    ensures
        tokens_from(enclosed(front, c), front.len() + i) == Ok::<Seq<TokenModel>, ErrorModel>(
            tokens_from(c, i)->Ok_0.push(TokenModel::RParen),
        ),
    decreases c.len() - i,
{
    let whole = enclosed(front, c);
    let j = front.len() + i;
    if i == c.len() {
        assert(whole[j] == ')');
        assert(tokens_from(whole, j + 1) == Ok::<Seq<TokenModel>, ErrorModel>(Seq::empty()));
        assert(seq![TokenModel::RParen] + Seq::<TokenModel>::empty() =~= Seq::<
            TokenModel,
        >::empty().push(TokenModel::RParen));
    } else {
        assert(whole[j] == c[i]);
        if text::whitespace(c[i]) {
            lemma_enclosed_tokens(front, c, i + 1);
        } else {
            lemma_enclosed_token(front, c, i);
            let (t, n) = token_at(c, i)->Ok_0;
            lemma_enclosed_tokens(front, c, i + 1 + n);
            let rest = tokens_from(c, i + 1 + n)->Ok_0;
            assert(seq![t] + rest.push(TokenModel::RParen) =~= (seq![t] + rest).push(
                TokenModel::RParen,
            ));
        }
    }
}

/// The tokens of a text in brackets are a bracket, those of the text, and a
/// bracket.
pub proof fn law_brackets_are_tokens_of_their_own(c: Seq<char>)
    requires
        tokens_from(c, 0) is Ok,
    ensures
        tokens_from("("@ + c + ")"@, 0) == Ok::<Seq<TokenModel>, ErrorModel>(
            seq![TokenModel::LParen] + tokens_from(c, 0)->Ok_0 + seq![TokenModel::RParen],
        ),
        tokens_from("not ("@ + c + ")"@, 0) == Ok::<Seq<TokenModel>, ErrorModel>(
            seq![TokenModel::Ident("not"@), TokenModel::LParen] + tokens_from(c, 0)->Ok_0 + seq![
                TokenModel::RParen,
            ],
        ),
{
    reveal_strlit("(");
    reveal_strlit(")");
    reveal_strlit("not (");
    reveal_strlit("not");
    let t = tokens_from(c, 0)->Ok_0;
    let inner = t.push(TokenModel::RParen);
    assert(")"@ =~= seq![')']);

    let plain = enclosed("("@, c);
    assert("("@ + c + ")"@ =~= plain);
    lemma_enclosed_tokens("("@, c, 0);
    assert(plain[0] == '(');
    assert(seq![TokenModel::LParen] + inner =~= seq![TokenModel::LParen] + t + seq![
        TokenModel::RParen,
    ]);

    let negated = enclosed("not ("@, c);
    assert("not ("@ + c + ")"@ =~= negated);
    lemma_enclosed_tokens("not ("@, c, 0);
    assert(negated[0] == 'n' && negated[1] == 'o' && negated[2] == 't' && negated[3] == ' '
        && negated[4] == '(');
    assert(tokens_from(negated, 4) == preceded(seq![TokenModel::LParen], tokens_from(negated, 5)));
    assert(tokens_from(negated, 3) == tokens_from(negated, 4));
    assert(run(negated, 3, Class::Word) == 0);
    assert(run(negated, 2, Class::Word) == 1);
    assert(run(negated, 1, Class::Word) == 2);
    assert(negated.subrange(0, 3) =~= "not"@);
    assert(token_at(negated, 0) == Ok::<(TokenModel, nat), ErrorModel>(
        (TokenModel::Ident("not"@), 2),
    ));
    assert(seq![TokenModel::Ident("not"@)] + (seq![TokenModel::LParen] + inner) =~= seq![
        TokenModel::Ident("not"@),
        TokenModel::LParen,
    ] + t + seq![TokenModel::RParen]);
}

} // verus!
