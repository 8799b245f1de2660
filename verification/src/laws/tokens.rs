//! Tokens of the expression language.
use vstd::prelude::*;

#[allow(unused_imports)]
use crate::{
    error::ErrorModel, ksy::token, ksy::token::Class, ksy::token::Op, ksy::token::TokenModel, text,
};

verus! {

// ---------------------------------------------------------------------------
// What stands before and after
// ---------------------------------------------------------------------------

proof fn lemma_run_shifts(front: Seq<char>, c: Seq<char>, i: int, k: Class)
    requires
        0 <= i,
    ensures
        token::run(front + c, front.len() + i, k) == token::run(c, i, k),
        i <= c.len() ==> i + token::run(c, i, k) <= c.len(),
        i > c.len() ==> token::run(c, i, k) == 0,
    decreases c.len() - i,
{
    if i < c.len() {
        assert((front + c)[front.len() + i] == c[i]);
        if token::in_class(k, c[i]) {
            lemma_run_shifts(front, c, i + 1, k);
        }
    }
}

/// The text of a run, from `back` characters before it on.
proof fn lemma_run_text(front: Seq<char>, c: Seq<char>, i: int, back: int, k: Class)
    requires
        0 <= back <= i <= c.len(),
    ensures
        token::run(front + c, front.len() + i, k) == token::run(c, i, k),
        i + token::run(c, i, k) <= c.len(),
        (front + c).subrange(front.len() + i - back, front.len() + i + token::run(c, i, k))
            == c.subrange(i - back, i + token::run(c, i, k)),
{
    lemma_run_shifts(front, c, i, k);
    assert((front + c).subrange(front.len() + i - back, front.len() + i + token::run(c, i, k))
        =~= c.subrange(i - back, i + token::run(c, i, k)));
}

proof fn lemma_token_shifts(front: Seq<char>, c: Seq<char>, i: int)
    requires
        0 <= i < c.len(),
    ensures
        token::token_at(front + c, front.len() + i) == token::token_at(c, i),
{
    let whole = front + c;
    let j = front.len() + i;
    let first = c[i];
    assert(whole[j] == first);
    assert(i + 1 < c.len() ==> whole[j + 1] == c[i + 1]);
    lemma_run_text(front, c, i + 1, 0, Class::Except(first));
    lemma_run_text(front, c, i + 1, 1, Class::Digit);
    lemma_run_text(front, c, i + 1, 1, Class::Word);
    if i + 1 < c.len() {
        lemma_run_text(front, c, i + 2, 0, Class::HexDigit);
    }
}

/// What stands before a place does not change the tokens from it on.
pub proof fn law_tokens_do_not_look_back(front: Seq<char>, c: Seq<char>, i: int)
    requires
        0 <= i,
    ensures
        token::tokens_from(front + c, front.len() + i) == token::tokens_from(c, i),
    decreases
            if i < c.len() {
                c.len() - i
            } else {
                0
            },
{
    if i < c.len() {
        assert((front + c)[front.len() + i] == c[i]);
        if text::whitespace(c[i]) {
            law_tokens_do_not_look_back(front, c, i + 1);
        } else {
            lemma_token_shifts(front, c, i);
            if let Ok((t, n)) = token::token_at(c, i) {
                law_tokens_do_not_look_back(front, c, i + 1 + n);
            }
        }
    }
}

/// A character that ends every token but a string.
pub open spec fn ends_tokens(x: char) -> bool {
    x == ' ' || x == '(' || x == ')' || x == '.'
}

proof fn lemma_run_ends(c: Seq<char>, x: char, rest: Seq<char>, i: int, k: Class)
    requires
        0 <= i <= c.len(),
        !token::in_class(k, x) || i + token::run(c, i, k) < c.len(),
    ensures
        token::run(c.push(x) + rest, i, k) == token::run(c, i, k),
        i + token::run(c, i, k) <= c.len(),
    decreases c.len() - i,
{
    let whole = c.push(x) + rest;
    if i < c.len() {
        assert(whole[i] == c[i]);
        if token::in_class(k, c[i]) {
            lemma_run_ends(c, x, rest, i + 1, k);
        }
    } else {
        assert(whole[i] == x);
    }
}

proof fn lemma_token_ends(c: Seq<char>, x: char, rest: Seq<char>, i: int)
    requires
        ends_tokens(x),
        0 <= i < c.len(),
        token::token_at(c, i) is Ok,
    ensures
        token::token_at(c.push(x) + rest, i) == token::token_at(c, i),
        i + 1 + token::token_at(c, i)->Ok_0.1 <= c.len(),
{
    let whole = c.push(x) + rest;
    let first = c[i];
    assert(whole[i] == first);
    assert(i + 1 < c.len() ==> whole[i + 1] == c[i + 1]);
    assert(i + 1 == c.len() ==> whole[i + 1] == x);
    if first == '(' || first == ')' || first == '.' {
    } else if first == '"' || first == '\'' {
        lemma_run_ends(c, x, rest, i + 1, Class::Except(first));
        let n = token::run(c, i + 1, Class::Except(first));
        assert(whole.subrange(i + 1, i + 1 + n) =~= c.subrange(i + 1, i + 1 + n));
    } else if text::ascii_digit(first) {
        if first == '0' && i + 1 < c.len() && c[i + 1] == 'x' {
            lemma_run_ends(c, x, rest, i + 2, Class::HexDigit);
            let n = token::run(c, i + 2, Class::HexDigit);
            assert(whole.subrange(i + 2, i + 2 + n) =~= c.subrange(i + 2, i + 2 + n));
        } else {
            lemma_run_ends(c, x, rest, i + 1, Class::Digit);
            let n = token::run(c, i + 1, Class::Digit);
            assert(whole.subrange(i, i + 1 + n) =~= c.subrange(i, i + 1 + n));
        }
    } else if text::alphabetic(first) || first == '_' {
        lemma_run_ends(c, x, rest, i + 1, Class::Word);
        let n = token::run(c, i + 1, Class::Word);
        assert(whole.subrange(i, i + 1 + n) =~= c.subrange(i, i + 1 + n));
    }
}

proof fn lemma_tokens_end(c: Seq<char>, x: char, rest: Seq<char>, i: int)
    requires
        ends_tokens(x),
        0 <= i <= c.len(),
        token::tokens_from(c, i) is Ok,
    ensures
        token::tokens_from(c.push(x) + rest, i) == token::preceded(
            token::tokens_from(c, i)->Ok_0,
            token::tokens_from(c.push(x) + rest, c.len() as int),
        ),
    decreases c.len() - i,
{
    let whole = c.push(x) + rest;
    let last = token::tokens_from(whole, c.len() as int);
    if i == c.len() {
        if let Ok(t) = last {
            assert(Seq::<TokenModel>::empty() + t =~= t);
        }
    } else {
        assert(whole[i] == c[i]);
        if text::whitespace(c[i]) {
            lemma_tokens_end(c, x, rest, i + 1);
        } else {
            lemma_token_ends(c, x, rest, i);
            let (t, n) = token::token_at(c, i)->Ok_0;
            lemma_tokens_end(c, x, rest, i + 1 + n);
            let own = token::tokens_from(c, i + 1 + n)->Ok_0;
            if let Ok(s) = last {
                assert(seq![t] + (own + s) =~= (seq![t] + own) + s);
            }
        }
    }
}

/// The tokens of two texts with a space between them are those of the first and
/// after them those of the second.
pub proof fn law_spaces_part_tokens(a: Seq<char>, b: Seq<char>)
    requires
        token::tokens_from(a, 0) is Ok,
    ensures
        token::tokens_from(a.push(' ') + b, 0) == token::preceded(
            token::tokens_from(a, 0)->Ok_0,
            token::tokens_from(b, 0),
        ),
        token::tokens_from(a.push(' ') + b, 0) is Ok == token::tokens_from(b, 0) is Ok,
{
    let whole = a.push(' ') + b;
    lemma_tokens_end(a, ' ', b, 0);
    assert(whole[a.len() as int] == ' ');
    law_tokens_do_not_look_back(a.push(' '), b, 0);
    assert(token::tokens_from(whole, a.len() as int) == token::tokens_from(whole, a.len() as int + 1));
}

/// A closing bracket is a token of its own, wherever it stands after other
/// tokens.
pub proof fn law_closing_brackets_end_tokens(a: Seq<char>, b: Seq<char>)
    requires
        token::tokens_from(a, 0) is Ok,
    ensures
        token::tokens_from(a.push(')') + b, 0) == token::preceded(
            token::tokens_from(a, 0)->Ok_0.push(TokenModel::RParen),
            token::tokens_from(b, 0),
        ),
{
    let whole = a.push(')') + b;
    lemma_tokens_end(a, ')', b, 0);
    assert(whole[a.len() as int] == ')');
    law_tokens_do_not_look_back(a.push(')'), b, 0);
    let own = token::tokens_from(a, 0)->Ok_0;
    if let Ok(t) = token::tokens_from(b, 0) {
        assert(own + (seq![TokenModel::RParen] + t) =~= own.push(TokenModel::RParen) + t);
    }
}

/// A dot after other tokens is a token of its own.
pub proof fn law_dots_end_tokens(a: Seq<char>, b: Seq<char>)
    requires
        token::tokens_from(a, 0) is Ok,
    ensures
        token::tokens_from(a.push('.') + b, 0) == token::preceded(
            token::tokens_from(a, 0)->Ok_0.push(TokenModel::Dot),
            token::tokens_from(b, 0),
        ),
{
    let whole = a.push('.') + b;
    lemma_tokens_end(a, '.', b, 0);
    assert(whole[a.len() as int] == '.');
    law_tokens_do_not_look_back(a.push('.'), b, 0);
    let own = token::tokens_from(a, 0)->Ok_0;
    if let Ok(t) = token::tokens_from(b, 0) {
        assert(own + (seq![TokenModel::Dot] + t) =~= own.push(TokenModel::Dot) + t);
    }
}

/// An opening bracket is a token of its own.
pub proof fn law_opening_brackets_are_tokens(b: Seq<char>)
    ensures
        token::tokens_from(seq!['('] + b, 0) == token::preceded(
            seq![TokenModel::LParen],
            token::tokens_from(b, 0),
        ),
{
    let whole = seq!['('] + b;
    assert(whole[0] == '(');
    law_tokens_do_not_look_back(seq!['('], b, 0);
}

/// White space before a text makes no difference: the space, and the characters
/// from tab to carriage return.
pub proof fn law_white_space_before_a_text_makes_no_difference(w: char, b: Seq<char>)
    requires
        w == ' ' || w == '\t' || w == '\n' || w == '\r',
    ensures
        token::tokens_from(seq![w] + b, 0) == token::tokens_from(b, 0),
{
    let whole = seq![w] + b;
    assert(whole[0] == w);
    law_tokens_do_not_look_back(seq![w], b, 0);
}

// ---------------------------------------------------------------------------
// Single tokens
// ---------------------------------------------------------------------------

proof fn lemma_full_run(c: Seq<char>, i: int, k: Class)
    requires
        0 <= i <= c.len(),
        forall|j: int| i <= j < c.len() ==> token::in_class(k, #[trigger] c[j]),
    ensures
        token::run(c, i, k) == c.len() - i,
    decreases c.len() - i,
{
    if i < c.len() {
        lemma_full_run(c, i + 1, k);
    }
}

proof fn lemma_one_token(c: Seq<char>, t: TokenModel)
    requires
        c.len() > 0,
        !text::whitespace(c[0]),
        token::token_at(c, 0) == Ok::<(TokenModel, nat), ErrorModel>((t, (c.len() - 1) as nat)),
    ensures
        token::tokens_from(c, 0) == Ok::<Seq<TokenModel>, ErrorModel>(seq![t]),
{
    assert(token::tokens_from(c, c.len() as int) == Ok::<Seq<TokenModel>, ErrorModel>(
        Seq::empty(),
    ));
    assert(seq![t] + Seq::<TokenModel>::empty() =~= seq![t]);
}

/// A letter or an underscore, and after it letters, digits and underscores, make
/// a word.
pub proof fn law_words_are_tokens(w: Seq<char>)
    requires
        w.len() > 0,
        ('a' <= w[0] && w[0] <= 'z') || ('A' <= w[0] && w[0] <= 'Z') || w[0] == '_',
        forall|i: int|
            0 <= i < w.len() ==> ('a' <= #[trigger] w[i] && w[i] <= 'z') || ('A' <= w[i] && w[i]
                <= 'Z') || ('0' <= w[i] && w[i] <= '9') || w[i] == '_',
    ensures
        token::tokens_from(w, 0) == Ok::<Seq<TokenModel>, ErrorModel>(seq![TokenModel::Ident(w)]),
{
    lemma_full_run(w, 1, Class::Word);
    assert(w.subrange(0, w.len() as int) =~= w);
    lemma_one_token(w, TokenModel::Ident(w));
}

/// A text between two quotes of one sort, without that quote inside, is a string,
/// whatever else stands in it.
pub proof fn law_quoted_texts_are_strings(q: char, s: Seq<char>)
    requires
        q == '"' || q == '\'',
        forall|i: int| 0 <= i < s.len() ==> #[trigger] s[i] != q,
    ensures
        token::tokens_from(seq![q] + s + seq![q], 0) == Ok::<Seq<TokenModel>, ErrorModel>(
            seq![TokenModel::Str(s)],
        ),
        token::tokens_from(seq![q] + s, 0) is Err,
{
    let k = Class::Except(q);
    let c = seq![q] + s + seq![q];
    let open = seq![q] + s;
    assert(c[0] == q && open[0] == q);
    assert(c =~= open.push(q) + Seq::<char>::empty());
    assert forall|j: int| 1 <= j < open.len() implies token::in_class(k, #[trigger] open[j]) by {
        assert(open[j] == s[j - 1]);
    }
    lemma_full_run(open, 1, k);
    lemma_run_ends(open, q, Seq::empty(), 1, k);
    assert(c.subrange(1, 1 + s.len() as int) =~= s);
    lemma_one_token(c, TokenModel::Str(s));
}

/// What a digit counts.
pub open spec fn counts(c: char) -> int {
    if '0' <= c && c <= '9' {
        c as int - 48
    } else if 'a' <= c && c <= 'f' {
        c as int - 87
    } else {
        c as int - 55
    }
}

/// A digit more makes the number so many times larger, and adds what it counts.
pub proof fn law_digits_make_numbers(s: Seq<char>, c: char, radix: nat)
    requires
        ('0' <= c && c <= '9') || ('a' <= c && c <= 'f') || ('A' <= c && c <= 'F'),
    ensures
        token::number(s.push(c), radix) == token::number(s, radix) * radix + counts(c),
        token::number(Seq::empty(), radix) == 0,
{
    assert(s.push(c).drop_last() =~= s);
}

/// Digits are the number that they stand for in decimal, where it fits into 64
/// bits with a sign; else they are an error.
pub proof fn law_decimal_digits_are_numbers(s: Seq<char>)
    requires
        s.len() > 0,
        forall|i: int| 0 <= i < s.len() ==> '0' <= #[trigger] s[i] && s[i] <= '9',
    ensures
        match token::tokens_from(s, 0) {
            Ok(t) => token::number(s, 10) <= i64::MAX && t.len() == 1 && t[0] is Int && t[0]->Int_0
                == token::number(s, 10),
            Err(_) => token::number(s, 10) > i64::MAX,
        },
{
    assert('0' <= s[0] && s[0] <= '9');
    lemma_full_run(s, 1, Class::Digit);
    assert(s.subrange(0, s.len() as int) =~= s);
    if s.len() > 1 {
        assert('0' <= s[1] && s[1] <= '9');
    }
    if token::number(s, 10) <= i64::MAX {
        lemma_one_token(s, TokenModel::Int(token::number(s, 10) as i64));
    }
}

/// Digits after `0x` are the number that they stand for in hexadecimal.
pub proof fn law_hexadecimal_digits_are_numbers(s: Seq<char>)
    requires
        forall|i: int|
            0 <= i < s.len() ==> ('0' <= #[trigger] s[i] && s[i] <= '9') || ('a' <= s[i] && s[i]
                <= 'f') || ('A' <= s[i] && s[i] <= 'F'),
    ensures
        match token::tokens_from(seq!['0', 'x'] + s, 0) {
            Ok(t) => s.len() > 0 && token::number(s, 16) <= i64::MAX && t.len() == 1 && t[0] is Int
                && t[0]->Int_0 == token::number(s, 16),
            Err(_) => s.len() == 0 || token::number(s, 16) > i64::MAX,
        },
{
    let c = seq!['0', 'x'] + s;
    assert(c[0] == '0' && c[1] == 'x');
    assert forall|j: int| 2 <= j < c.len() implies token::in_class(
        Class::HexDigit,
        #[trigger] c[j],
    ) by {
        assert(c[j] == s[j - 2]);
    }
    lemma_full_run(c, 2, Class::HexDigit);
    assert(c.subrange(2, 2 + s.len() as int) =~= s);
    if s.len() > 0 && token::number(s, 16) <= i64::MAX {
        lemma_one_token(c, TokenModel::Int(token::number(s, 16) as i64));
    }
}

/// The decimal numeral of a number is read as the number.
pub proof fn law_numerals_are_read_back(n: nat)
    requires
        n <= i64::MAX,
    ensures
        token::tokens_from(text::decimal(n), 0) == Ok::<Seq<TokenModel>, ErrorModel>(
            seq![TokenModel::Int(n as i64)],
        ),
{
    lemma_numeral(n);
    let s = text::decimal(n);
    law_decimal_digits_are_numbers(s);
    let t = token::tokens_from(s, 0)->Ok_0;
    assert(t =~= seq![TokenModel::Int(n as i64)]);
}

pub proof fn lemma_numeral(n: nat)
    ensures
        text::decimal(n).len() > 0,
        forall|i: int|
            0 <= i < text::decimal(n).len() ==> '0' <= #[trigger] text::decimal(n)[i]
                && text::decimal(n)[i] <= '9',
        token::number(text::decimal(n), 10) == n,
    decreases n,
{
    let s = text::decimal(n);
    if n < 10 {
        law_digits_make_numbers(Seq::empty(), text::digit_char(n), 10);
        assert(s =~= Seq::<char>::empty().push(text::digit_char(n)));
    } else {
        lemma_numeral(n / 10);
        law_digits_make_numbers(text::decimal(n / 10), text::digit_char(n % 10), 10);
    }
}

/// The signs are the operators, and the dot and the brackets tokens of their own.
pub proof fn law_signs_are_tokens()
    ensures
        token::tokens_from("=="@, 0) == Ok::<Seq<TokenModel>, ErrorModel>(
            seq![TokenModel::Op(Op::Equal)],
        ),
        token::tokens_from("!="@, 0) == Ok::<Seq<TokenModel>, ErrorModel>(
            seq![TokenModel::Op(Op::NotEqual)],
        ),
        token::tokens_from("<="@, 0) == Ok::<Seq<TokenModel>, ErrorModel>(
            seq![TokenModel::Op(Op::LessEqual)],
        ),
        token::tokens_from(">="@, 0) == Ok::<Seq<TokenModel>, ErrorModel>(
            seq![TokenModel::Op(Op::GreaterEqual)],
        ),
        token::tokens_from("<<"@, 0) == Ok::<Seq<TokenModel>, ErrorModel>(
            seq![TokenModel::Op(Op::ShiftLeft)],
        ),
        token::tokens_from(">>"@, 0) == Ok::<Seq<TokenModel>, ErrorModel>(
            seq![TokenModel::Op(Op::ShiftRight)],
        ),
        token::tokens_from("+"@, 0) == Ok::<Seq<TokenModel>, ErrorModel>(
            seq![TokenModel::Op(Op::Plus)],
        ),
        token::tokens_from("-"@, 0) == Ok::<Seq<TokenModel>, ErrorModel>(
            seq![TokenModel::Op(Op::Minus)],
        ),
        token::tokens_from("*"@, 0) == Ok::<Seq<TokenModel>, ErrorModel>(
            seq![TokenModel::Op(Op::Star)],
        ),
        token::tokens_from("/"@, 0) == Ok::<Seq<TokenModel>, ErrorModel>(
            seq![TokenModel::Op(Op::Slash)],
        ),
        token::tokens_from("%"@, 0) == Ok::<Seq<TokenModel>, ErrorModel>(
            seq![TokenModel::Op(Op::Percent)],
        ),
        token::tokens_from("<"@, 0) == Ok::<Seq<TokenModel>, ErrorModel>(
            seq![TokenModel::Op(Op::Less)],
        ),
        token::tokens_from(">"@, 0) == Ok::<Seq<TokenModel>, ErrorModel>(
            seq![TokenModel::Op(Op::Greater)],
        ),
        token::tokens_from("&"@, 0) == Ok::<Seq<TokenModel>, ErrorModel>(
            seq![TokenModel::Op(Op::Ampersand)],
        ),
        token::tokens_from("|"@, 0) == Ok::<Seq<TokenModel>, ErrorModel>(
            seq![TokenModel::Op(Op::Bar)],
        ),
        token::tokens_from("^"@, 0) == Ok::<Seq<TokenModel>, ErrorModel>(
            seq![TokenModel::Op(Op::Caret)],
        ),
        token::tokens_from("."@, 0) == Ok::<Seq<TokenModel>, ErrorModel>(seq![TokenModel::Dot]),
        token::tokens_from("("@, 0) == Ok::<Seq<TokenModel>, ErrorModel>(seq![TokenModel::LParen]),
        token::tokens_from(")"@, 0) == Ok::<Seq<TokenModel>, ErrorModel>(seq![TokenModel::RParen]),
{
    reveal_strlit("==");
    reveal_strlit("!=");
    reveal_strlit("<=");
    reveal_strlit(">=");
    reveal_strlit("<<");
    reveal_strlit(">>");
    reveal_strlit("+");
    reveal_strlit("-");
    reveal_strlit("*");
    reveal_strlit("/");
    reveal_strlit("%");
    reveal_strlit("<");
    reveal_strlit(">");
    reveal_strlit("&");
    reveal_strlit("|");
    reveal_strlit("^");
    reveal_strlit(".");
    reveal_strlit("(");
    reveal_strlit(")");
    lemma_one_token("=="@, TokenModel::Op(Op::Equal));
    lemma_one_token("!="@, TokenModel::Op(Op::NotEqual));
    lemma_one_token("<="@, TokenModel::Op(Op::LessEqual));
    lemma_one_token(">="@, TokenModel::Op(Op::GreaterEqual));
    lemma_one_token("<<"@, TokenModel::Op(Op::ShiftLeft));
    lemma_one_token(">>"@, TokenModel::Op(Op::ShiftRight));
    lemma_one_token("+"@, TokenModel::Op(Op::Plus));
    lemma_one_token("-"@, TokenModel::Op(Op::Minus));
    lemma_one_token("*"@, TokenModel::Op(Op::Star));
    lemma_one_token("/"@, TokenModel::Op(Op::Slash));
    lemma_one_token("%"@, TokenModel::Op(Op::Percent));
    lemma_one_token("<"@, TokenModel::Op(Op::Less));
    lemma_one_token(">"@, TokenModel::Op(Op::Greater));
    lemma_one_token("&"@, TokenModel::Op(Op::Ampersand));
    lemma_one_token("|"@, TokenModel::Op(Op::Bar));
    lemma_one_token("^"@, TokenModel::Op(Op::Caret));
    lemma_one_token("."@, TokenModel::Dot);
    lemma_one_token("("@, TokenModel::LParen);
    lemma_one_token(")"@, TokenModel::RParen);
}

/// A character that starts no token is an error.
pub proof fn law_other_characters_are_errors(c: char, b: Seq<char>)
    requires
        c == '#' || c == '$' || c == '@' || c == ',' || c == ';' || c == ':' || c == '?' || c == '['
            || c == ']' || c == '{' || c == '}' || c == '~' || c == '`' || c == '\\',
    ensures
        token::tokens_from(seq![c] + b, 0) is Err,
{
    assert((seq![c] + b)[0] == c);
}

} // verus!
