//! Splitting a formula (the text after `=`) into tokens.
use vstd::prelude::*;
use crate::address::{all_upper, column_of, is_upper, lemma_prefix_value_le, letter_to_col, letters_fit, letters_value};
use crate::cell::CellError;
use crate::text::string_of;

verus! {

/// A formula token. A number keeps its literal text (digits and dots).
#[derive(Debug, Clone)]
pub enum Token {
    Number(String),
    /// A cell reference: zero-based row, zero-based column.
    CellRef(usize, usize),
    /// The name of a function, in upper case; a `(` follows it.
    Name(String),
    Comma,
    Plus,
    Minus,
    Star,
    Slash,
    LParen,
    RParen,
}

/// What a [`Token`] says, with a number's text as characters.
pub enum TokenView {
    Number(Seq<char>),
    CellRef(usize, usize),
    Name(Seq<char>),
    Comma,
    Plus,
    Minus,
    Star,
    Slash,
    LParen,
    RParen,
}

impl View for Token {
    type V = TokenView;

    open spec fn view(&self) -> TokenView {
        match *self {
            Token::Number(t) => TokenView::Number(t@),
            Token::CellRef(r, c) => TokenView::CellRef(r, c),
            Token::Name(n) => TokenView::Name(n@),
            Token::Comma => TokenView::Comma,
            Token::Plus => TokenView::Plus,
            Token::Minus => TokenView::Minus,
            Token::Star => TokenView::Star,
            Token::Slash => TokenView::Slash,
            Token::LParen => TokenView::LParen,
            Token::RParen => TokenView::RParen,
        }
    }
}

/// The views of a list of tokens.
pub open spec fn tokens_view(ts: Seq<Token>) -> Seq<TokenView> {
    ts.map_values(|t: Token| t@)
}

pub open spec fn is_blank(c: char) -> bool {
    c == ' ' || c == '\t' || c == '\r' || c == '\n'
}

pub open spec fn is_digit(c: char) -> bool {
    '0' <= c && c <= '9'
}

pub open spec fn is_number_char(c: char) -> bool {
    is_digit(c) || c == '.'
}

pub open spec fn is_alpha(c: char) -> bool {
    ('A' <= c && c <= 'Z') || ('a' <= c && c <= 'z')
}

/// The upper-case form of an ASCII letter (other characters unchanged).
pub open spec fn to_upper(c: char) -> char {
    if 'a' <= c && c <= 'z' { ((c as int) - 32) as char } else { c }
}

/// The token a one-character operator or bracket stands for.
pub open spec fn symbol_token(c: char) -> Option<TokenView> {
    if c == '+' { Some(TokenView::Plus) }
    else if c == '-' { Some(TokenView::Minus) }
    else if c == '*' { Some(TokenView::Star) }
    else if c == '/' { Some(TokenView::Slash) }
    else if c == '(' { Some(TokenView::LParen) }
    else if c == ')' { Some(TokenView::RParen) }
    else if c == ',' { Some(TokenView::Comma) }
    else { None }
}

/// End of the run of digits and dots that starts at `i`.
pub open spec fn number_end(s: Seq<char>, i: int) -> int
    decreases s.len() - i,
{
    if 0 <= i < s.len() && is_number_char(s[i]) { number_end(s, i + 1) } else { i }
}

/// End of the run of ASCII letters that starts at `i`.
pub open spec fn alpha_end(s: Seq<char>, i: int) -> int
    decreases s.len() - i,
{
    if 0 <= i < s.len() && is_alpha(s[i]) { alpha_end(s, i + 1) } else { i }
}

/// End of the run of digits that starts at `i`.
pub open spec fn digit_end(s: Seq<char>, i: int) -> int
    decreases s.len() - i,
{
    if 0 <= i < s.len() && is_digit(s[i]) { digit_end(s, i + 1) } else { i }
}

/// The number of dots in `t`.
pub open spec fn dot_count(t: Seq<char>) -> nat
    decreases t.len(),
{
    if t.len() == 0 { 0 } else { dot_count(t.drop_last()) + if t.last() == '.' { 1nat } else { 0nat } }
}

/// The number of digits in `t`.
pub open spec fn digit_count(t: Seq<char>) -> nat
    decreases t.len(),
{
    if t.len() == 0 { 0 } else { digit_count(t.drop_last()) + if is_digit(t.last()) { 1nat } else { 0nat } }
}

/// A run of digits and dots is a number literal (one that `f64` parsing accepts) when it
/// has at least one digit and at most one dot.
pub open spec fn valid_number(t: Seq<char>) -> bool {
    digit_count(t) >= 1 && dot_count(t) <= 1
}

/// The value of a run of decimal digits.
pub open spec fn digits_value(t: Seq<char>) -> int
    decreases t.len(),
{
    if t.len() == 0 { 0 } else { digits_value(t.drop_last()) * 10 + (t.last() as int - '0' as int) }
}

/// The upper-case form of `t`.
pub open spec fn upper(t: Seq<char>) -> Seq<char> {
    t.map_values(|c: char| to_upper(c))
}

/// `t` put in front of the tokens of `r`, when `r` is not an error.
pub open spec fn cons(t: TokenView, r: Result<Seq<TokenView>, CellError>) -> Result<Seq<TokenView>, CellError> {
    match r {
        Ok(ts) => Ok(seq![t] + ts),
        Err(e) => Err(e),
    }
}

/// `prefix` put in front of the tokens of `r`, when `r` is not an error.
pub open spec fn after(prefix: Seq<TokenView>, r: Result<Seq<TokenView>, CellError>) -> Result<Seq<TokenView>, CellError> {
    match r {
        Ok(ts) => Ok(prefix + ts),
        Err(e) => Err(e),
    }
}

pub proof fn lemma_number_end(s: Seq<char>, i: int)
    requires
        0 <= i <= s.len(),
    ensures
        i <= number_end(s, i) <= s.len(),
    decreases s.len() - i,
{
    if i < s.len() && is_number_char(s[i]) {
        lemma_number_end(s, i + 1);
    }
}

pub proof fn lemma_alpha_end(s: Seq<char>, i: int)
    requires
        0 <= i <= s.len(),
    ensures
        i <= alpha_end(s, i) <= s.len(),
    decreases s.len() - i,
{
    if i < s.len() && is_alpha(s[i]) {
        lemma_alpha_end(s, i + 1);
    }
}

pub proof fn lemma_digit_end(s: Seq<char>, i: int)
    requires
        0 <= i <= s.len(),
    ensures
        i <= digit_end(s, i) <= s.len(),
    decreases s.len() - i,
{
    if i < s.len() && is_digit(s[i]) {
        lemma_digit_end(s, i + 1);
    }
}

/// The tokens of `s` from position `i` on, or the first error met.
///
/// Blanks separate tokens; `+ - * / ( ) ,` are one-character tokens; a run of digits and
/// dots is a number; a run of letters followed by a run of digits is a cell reference
/// (letters name the column, digits the one-based row); a run of letters followed right
/// away by `(` is a function name, in upper case. A row that does not fit in
/// `usize` or a missing row is a syntax error, row `0` a reference error; any other
/// character is a syntax error.
#[verifier::opaque]
pub open spec fn lex(s: Seq<char>, i: int) -> Result<Seq<TokenView>, CellError>
    decreases s.len() - i,
{
    if i < 0 || i >= s.len() {
        Ok(seq![])
    } else {
        let c = s[i];
        if is_blank(c) {
            lex(s, i + 1)
        } else if symbol_token(c) is Some {
            cons(symbol_token(c)->0, lex(s, i + 1))
        } else if is_number_char(c) {
            let j = number_end(s, i + 1);
            proof {
                lemma_number_end(s, i + 1);
            }
            if !valid_number(s.subrange(i, j)) {
                Err(CellError::Syntax)
            } else {
                cons(TokenView::Number(s.subrange(i, j)), lex(s, j))
            }
        } else if is_alpha(c) {
            let j = alpha_end(s, i + 1);
            proof {
                lemma_alpha_end(s, i + 1);
                lemma_digit_end(s, j);
            }
            let k = digit_end(s, j);
            let row = digits_value(s.subrange(j, k));
            if k == j && j < s.len() && s[j] == '(' {
                cons(TokenView::Name(upper(s.subrange(i, j))), lex(s, j))
            } else if k == j || row > usize::MAX {
                Err(CellError::Syntax)
            } else if row == 0 {
                Err(CellError::Ref)
            } else {
                cons(
                    TokenView::CellRef((row - 1) as usize, (letters_value(upper(s.subrange(i, j))) - 1) as usize),
                    lex(s, k),
                )
            }
        } else {
            Err(CellError::Syntax)
        }
    }
}

/// Lexing `s` from position `i` meets a cell reference whose column does not fit in
/// `usize` before any error (where the conversion overflows).
#[verifier::opaque]
pub open spec fn lex_overflows(s: Seq<char>, i: int) -> bool
    decreases s.len() - i,
{
    if i < 0 || i >= s.len() {
        false
    } else {
        let c = s[i];
        if is_blank(c) {
            lex_overflows(s, i + 1)
        } else if symbol_token(c) is Some {
            lex_overflows(s, i + 1)
        } else if is_number_char(c) {
            let j = number_end(s, i + 1);
            proof {
                lemma_number_end(s, i + 1);
            }
            valid_number(s.subrange(i, j)) && lex_overflows(s, j)
        } else if is_alpha(c) {
            let j = alpha_end(s, i + 1);
            proof {
                lemma_alpha_end(s, i + 1);
                lemma_digit_end(s, j);
            }
            let k = digit_end(s, j);
            let row = digits_value(s.subrange(j, k));
            if k == j && j < s.len() && s[j] == '(' {
                lex_overflows(s, j)
            } else if k == j || row > usize::MAX || row == 0 {
                false
            } else {
                letters_value(upper(s.subrange(i, j))) > usize::MAX || lex_overflows(s, k)
            }
        } else {
            false
        }
    }
}

/// The tokens of a whole formula.
pub open spec fn tokens_of(s: Seq<char>) -> Result<Seq<TokenView>, CellError> {
    lex(s, 0)
}

proof fn lemma_upper_letters(t: Seq<char>)
    requires
        forall|i: int| 0 <= i < t.len() ==> #[trigger] is_alpha(t[i]),
    ensures
        all_upper(upper(t)),
        upper(t).len() == t.len(),
{
    assert forall|i: int| 0 <= i < upper(t).len() implies #[trigger] is_upper(upper(t)[i]) by {
        assert(is_alpha(t[i]));
    }
}

/// Upper-case letters whose value fits in `usize` can be converted without overflow.
proof fn lemma_letters_fit(s: Seq<char>)
    requires
        all_upper(s),
        letters_value(s) <= usize::MAX,
    ensures
        letters_fit(s),
{
    assert forall|k: int| 0 <= k <= s.len() && all_upper(#[trigger] s.subrange(0, k)) implies letters_value(s.subrange(0, k)) <= usize::MAX by {
        lemma_prefix_value_le(s, k);
    }
}

proof fn lemma_after_cons(tv: Seq<TokenView>, t: TokenView, r: Result<Seq<TokenView>, CellError>)
    ensures
        after(tv, cons(t, r)) == after(tv.push(t), r),
{
    match r {
        Ok(ts) => {
            assert(tv + (seq![t] + ts) == tv.push(t) + ts);
        },
        Err(_) => {},
    }
}

proof fn lemma_lex_end(s: Seq<char>)
    ensures
        lex(s, s.len() as int) == Ok::<Seq<TokenView>, CellError>(seq![]),
        !lex_overflows(s, s.len() as int),
{
    reveal(lex);
    reveal(lex_overflows);
}

proof fn lemma_lex_blank(s: Seq<char>, i: int)
    requires
        0 <= i < s.len(),
        is_blank(s[i]),
    ensures
        lex(s, i) == lex(s, i + 1),
        lex_overflows(s, i) == lex_overflows(s, i + 1),
{
    reveal(lex);
    reveal(lex_overflows);
}

proof fn lemma_lex_symbol(s: Seq<char>, i: int)
    requires
        0 <= i < s.len(),
        !is_blank(s[i]),
        symbol_token(s[i]) is Some,
    ensures
        lex(s, i) == cons(symbol_token(s[i])->0, lex(s, i + 1)),
        lex_overflows(s, i) == lex_overflows(s, i + 1),
{
    reveal(lex);
    reveal(lex_overflows);
}

proof fn lemma_lex_number(s: Seq<char>, i: int)
    requires
        0 <= i < s.len(),
        !is_blank(s[i]),
        symbol_token(s[i]) is None,
        is_number_char(s[i]),
    ensures
        lex(s, i) == (if valid_number(s.subrange(i, number_end(s, i + 1))) {
            cons(TokenView::Number(s.subrange(i, number_end(s, i + 1))), lex(s, number_end(s, i + 1)))
        } else {
            Err(CellError::Syntax)
        }),
        lex_overflows(s, i) == (valid_number(s.subrange(i, number_end(s, i + 1))) && lex_overflows(s, number_end(s, i + 1))),
{
    reveal(lex);
    reveal(lex_overflows);
}

/// The facts of a cell reference at `i`: the end of its letters, the end of its digits,
/// and its row value.
proof fn lemma_lex_alpha(s: Seq<char>, i: int)
    requires
        0 <= i < s.len(),
        !is_blank(s[i]),
        symbol_token(s[i]) is None,
        !is_number_char(s[i]),
        is_alpha(s[i]),
    ensures
        ({
            let j = alpha_end(s, i + 1);
            let k = digit_end(s, j);
            let row = digits_value(s.subrange(j, k));
            &&& lex(s, i) == (if k == j && j < s.len() && s[j] == '(' {
                cons(TokenView::Name(upper(s.subrange(i, j))), lex(s, j))
            } else if k == j || row > usize::MAX {
                Err(CellError::Syntax)
            } else if row == 0 {
                Err(CellError::Ref)
            } else {
                cons(
                    TokenView::CellRef((row - 1) as usize, (letters_value(upper(s.subrange(i, j))) - 1) as usize),
                    lex(s, k),
                )
            })
            &&& lex_overflows(s, i) == (if k == j && j < s.len() && s[j] == '(' {
                lex_overflows(s, j)
            } else if k == j || row > usize::MAX || row == 0 {
                false
            } else {
                letters_value(upper(s.subrange(i, j))) > usize::MAX || lex_overflows(s, k)
            })
        }),
{
    reveal(lex);
    reveal(lex_overflows);
}

proof fn lemma_lex_other(s: Seq<char>, i: int)
    requires
        0 <= i < s.len(),
        !is_blank(s[i]),
        symbol_token(s[i]) is None,
        !is_number_char(s[i]),
        !is_alpha(s[i]),
    ensures
        lex(s, i) == Err::<Seq<TokenView>, CellError>(CellError::Syntax),
        !lex_overflows(s, i),
{
    reveal(lex);
    reveal(lex_overflows);
}

fn is_blank_char(c: char) -> (b: bool)
    ensures
        b == is_blank(c),
{
    c == ' ' || c == '\t' || c == '\r' || c == '\n'
}

fn is_digit_char(c: char) -> (b: bool)
    ensures
        b == is_digit(c),
{
    '0' <= c && c <= '9'
}

fn is_alpha_char(c: char) -> (b: bool)
    ensures
        b == is_alpha(c),
{
    ('A' <= c && c <= 'Z') || ('a' <= c && c <= 'z')
}

fn upper_char(c: char) -> (u: char)
    ensures
        u == to_upper(c),
{
    if 'a' <= c && c <= 'z' {
        ((c as u32 - 32) as u8) as char
    } else {
        c
    }
}

fn symbol_of(c: char) -> (t: Option<Token>)
    ensures
        match t {
            Some(tok) => symbol_token(c) == Some(tok@),
            None => symbol_token(c) is None,
        },
{
    if c == '+' { Some(Token::Plus) }
    else if c == '-' { Some(Token::Minus) }
    else if c == '*' { Some(Token::Star) }
    else if c == '/' { Some(Token::Slash) }
    else if c == '(' { Some(Token::LParen) }
    else if c == ')' { Some(Token::RParen) }
    else if c == ',' { Some(Token::Comma) }
    else { None }
}

/// Scans the number literal starting at `i`: its end, and whether it is valid.
fn scan_number(s: &Vec<char>, i: usize) -> (r: (usize, bool))
    requires
        i < s.len(),
        is_number_char(s@[i as int]),
    ensures
        r.0 == number_end(s@, i + 1),
        r.1 == valid_number(s@.subrange(i as int, r.0 as int)),
{
    let mut j: usize = i + 1;
    let mut dots: usize = if s[i] == '.' { 1 } else { 0 };
    let mut digits: usize = if s[i] == '.' { 0 } else { 1 };
    proof {
        let t = s@.subrange(i as int, j as int);
        assert(t.drop_last().len() == 0);
        assert(dot_count(t.drop_last()) == 0);
        assert(digit_count(t.drop_last()) == 0);
    }
    while j < s.len() && (is_digit_char(s[j]) || s[j] == '.')
        invariant
            i < j <= s.len(),
            number_end(s@, j as int) == number_end(s@, i + 1),
            dots == dot_count(s@.subrange(i as int, j as int)),
            digits == digit_count(s@.subrange(i as int, j as int)),
            dots + digits == j - i,
        decreases s.len() - j,
    {
        proof {
            assert(s@.subrange(i as int, j + 1).drop_last() == s@.subrange(i as int, j as int));
        }
        if s[j] == '.' {
            dots = dots + 1;
        } else {
            digits = digits + 1;
        }
        j = j + 1;
    }
    (j, digits >= 1 && dots <= 1)
}

/// The end of the run of letters starting at `i`.
fn scan_alpha(s: &Vec<char>, i: usize) -> (j: usize)
    requires
        i <= s.len(),
    ensures
        j == alpha_end(s@, i as int),
        forall|k: int| i <= k < j ==> #[trigger] is_alpha(s@[k]),
{
    let mut j = i;
    while j < s.len() && is_alpha_char(s[j])
        invariant
            i <= j <= s.len(),
            alpha_end(s@, j as int) == alpha_end(s@, i as int),
            forall|k: int| i <= k < j ==> #[trigger] is_alpha(s@[k]),
        decreases s.len() - j,
    {
        j = j + 1;
    }
    j
}

/// The end of the run of digits starting at `i`.
fn scan_digits(s: &Vec<char>, i: usize) -> (j: usize)
    requires
        i <= s.len(),
    ensures
        j == digit_end(s@, i as int),
        forall|k: int| i <= k < j ==> #[trigger] is_digit(s@[k]),
{
    let mut j = i;
    while j < s.len() && is_digit_char(s[j])
        invariant
            i <= j <= s.len(),
            digit_end(s@, j as int) == digit_end(s@, i as int),
            forall|k: int| i <= k < j ==> #[trigger] is_digit(s@[k]),
        decreases s.len() - j,
    {
        j = j + 1;
    }
    j
}

/// The value of the digits `s[i..j]`, or `None` when it does not fit in `usize`.
fn digits_to_usize(s: &Vec<char>, i: usize, j: usize) -> (r: Option<usize>)
    requires
        i <= j <= s.len(),
        forall|k: int| i <= k < j ==> #[trigger] is_digit(s@[k]),
    ensures
        match r {
            Some(v) => v == digits_value(s@.subrange(i as int, j as int)),
            None => digits_value(s@.subrange(i as int, j as int)) > usize::MAX,
        },
{
    let mut v: usize = 0;
    let mut k: usize = i;
    while k < j
        invariant
            i <= k <= j <= s.len(),
            forall|m: int| i <= m < j ==> #[trigger] is_digit(s@[m]),
            v == digits_value(s@.subrange(i as int, k as int)),
        decreases j - k,
    {
        let c = s[k];
        assert(is_digit(s@[k as int]));
        let d = (c as u32 - '0' as u32) as usize;
        proof {
            assert(s@.subrange(i as int, k + 1).drop_last() == s@.subrange(i as int, k as int));
        }
        if v > (usize::MAX - d) / 10 {
            proof {
                assert(v * 10 + d > usize::MAX) by (nonlinear_arith)
                    requires
                        v > (usize::MAX - d) / 10,
                        d <= 9,
                {
                }
                lemma_digits_value_grows(s@.subrange(i as int, j as int), k - i);
                assert(s@.subrange(i as int, j as int).subrange(0, k - i + 1) == s@.subrange(i as int, k + 1));
            }
            return None;
        }
        proof {
            assert(v * 10 + d <= usize::MAX) by (nonlinear_arith)
                requires
                    v <= (usize::MAX - d) / 10,
                    d <= 9,
            {
            }
        }
        v = v * 10 + d;
        k = k + 1;
    }
    Some(v)
}

/// A longer run of digits has a value at least as large as any of its prefixes.
proof fn lemma_digits_value_grows(t: Seq<char>, k: int)
    requires
        0 <= k < t.len(),
        forall|m: int| 0 <= m < t.len() ==> #[trigger] is_digit(t[m]),
    ensures
        digits_value(t.subrange(0, k + 1)) <= digits_value(t),
    decreases t.len(),
{
    if k + 1 < t.len() {
        let u = t.drop_last();
        assert forall|m: int| 0 <= m < u.len() implies #[trigger] is_digit(u[m]) by {
            assert(is_digit(t[m]));
        }
        lemma_digits_value_grows(u, k);
        assert(u.subrange(0, k + 1) == t.subrange(0, k + 1));
        assert(is_digit(t[t.len() - 1]));
        lemma_digits_value_nonneg(u);
    } else {
        assert(t.subrange(0, k + 1) == t);
    }
}

proof fn lemma_digits_value_nonneg(t: Seq<char>)
    requires
        forall|m: int| 0 <= m < t.len() ==> #[trigger] is_digit(t[m]),
    ensures
        digits_value(t) >= 0,
    decreases t.len(),
{
    if t.len() > 0 {
        let u = t.drop_last();
        assert forall|m: int| 0 <= m < u.len() implies #[trigger] is_digit(u[m]) by {
            assert(is_digit(t[m]));
        }
        assert(is_digit(t[t.len() - 1]));
        lemma_digits_value_nonneg(u);
    }
}

/// The value of the upper-case letters `s`, or `None` when it does not fit in `usize`.
fn letters_value_checked(s: &Vec<char>) -> (r: Option<usize>)
    requires
        all_upper(s@),
    ensures
        match r {
            Some(v) => v == letters_value(s@),
            None => letters_value(s@) > usize::MAX,
        },
{
    let mut v: usize = 0;
    let mut k: usize = 0;
    while k < s.len()
        invariant
            k <= s.len(),
            all_upper(s@),
            v == letters_value(s@.subrange(0, k as int)),
        decreases s.len() - k,
    {
        let c = s[k];
        assert(is_upper(s@[k as int]));
        let d = (c as u32 - 'A' as u32 + 1) as usize;
        proof {
            assert(s@.subrange(0, k + 1).drop_last() == s@.subrange(0, k as int));
        }
        if v > (usize::MAX - d) / 26 {
            proof {
                assert(v * 26 + d > usize::MAX) by (nonlinear_arith)
                    requires
                        v > (usize::MAX - d) / 26,
                        d <= 26,
                {
                }
                lemma_prefix_value_le(s@, k + 1);
            }
            return None;
        }
        proof {
            assert(v * 26 + d <= usize::MAX) by (nonlinear_arith)
                requires
                    v <= (usize::MAX - d) / 26,
                    d <= 26,
            {
            }
        }
        v = v * 26 + d;
        k = k + 1;
    }
    proof {
        assert(s@.subrange(0, s.len() as int) == s@);
    }
    Some(v)
}

/// The upper-case form of `s[i..j]`.
fn upper_range(s: &Vec<char>, i: usize, j: usize) -> (u: Vec<char>)
    requires
        i <= j <= s.len(),
    ensures
        u@ == upper(s@.subrange(i as int, j as int)),
{
    let mut u: Vec<char> = Vec::new();
    let mut k = i;
    while k < j
        invariant
            i <= k <= j <= s.len(),
            u@ == upper(s@.subrange(i as int, k as int)),
        decreases j - k,
    {
        u.push(upper_char(s[k]));
        k = k + 1;
        proof {
            assert(upper(s@.subrange(i as int, k as int)) == upper(s@.subrange(i as int, k - 1)).push(to_upper(s@[k - 1])));
        }
    }
    u
}

/// Lexes `expr`: the tokens or the first error, and whether a column overflowed on the way
/// (the tokens are then meaningless).
fn scan(expr: &Vec<char>) -> (r: (Result<Vec<Token>, CellError>, bool))
    ensures
        r.1 == lex_overflows(expr@, 0),
        !r.1 ==> match r.0 {
            Ok(ts) => tokens_of(expr@) == Ok::<Seq<TokenView>, CellError>(tokens_view(ts@)),
            Err(e) => tokens_of(expr@) == Err::<Seq<TokenView>, CellError>(e),
        },
{
    let s = expr;
    let n = s.len();
    let mut tokens: Vec<Token> = Vec::new();
    let mut i: usize = 0;
    proof {

        assert(tokens_view(tokens@) == Seq::<TokenView>::empty());
        assert(after(Seq::<TokenView>::empty(), lex(s@, 0)) == lex(s@, 0)) by {
            match lex(s@, 0) {
                Ok(ts) => {
                    assert(Seq::<TokenView>::empty() + ts == ts);
                },
                Err(_) => {},
            }
        }
    }
    while i < n
        invariant
            s@ == expr@,
            n == s@.len(),
            i <= n,
            lex_overflows(s@, 0) == lex_overflows(s@, i as int),
            lex(s@, 0) == after(tokens_view(tokens@), lex(s@, i as int)),
        decreases n - i,
    {
        let c = s[i];
        let ghost tv = tokens_view(tokens@);
        if is_blank_char(c) {
            proof {
                lemma_lex_blank(s@, i as int);
            }
            i = i + 1;
            continue;
        }
        match symbol_of(c) {
            Some(t) => {
                proof {
                    lemma_lex_symbol(s@, i as int);
                    lemma_after_cons(tv, t@, lex(s@, i + 1));
                    assert(tokens_view(tokens@.push(t)) == tv.push(t@));
                }
                tokens.push(t);
                i = i + 1;
                continue;
            },
            None => {},
        }
        if is_digit_char(c) || c == '.' {
            let (j, valid) = scan_number(s, i);
            proof {
                lemma_lex_number(s@, i as int);
                lemma_number_end(s@, i + 1);
            }
            if !valid {
                proof {
                    assert(lex(s@, i as int) == Err::<Seq<TokenView>, CellError>(CellError::Syntax));
                    assert(lex(s@, 0) == Err::<Seq<TokenView>, CellError>(CellError::Syntax));
                }
                return (Err(CellError::Syntax), false);
            }
            let mut text: Vec<char> = Vec::new();
            let mut k = i;
            while k < j
                invariant
                    i <= k <= j <= n,
                    n == s@.len(),
                    text@ == s@.subrange(i as int, k as int),
                decreases j - k,
            {
                text.push(s[k]);
                k = k + 1;
            }
            let t = Token::Number(string_of(&text));
            proof {
                lemma_after_cons(tv, t@, lex(s@, j as int));
                assert(tokens_view(tokens@.push(t)) == tv.push(t@));
            }
            tokens.push(t);
            i = j;
        } else if is_alpha_char(c) {
            proof {
                lemma_lex_alpha(s@, i as int);
                lemma_alpha_end(s@, i + 1);
            }
            let j = scan_alpha(s, i + 1);
            proof {
                lemma_digit_end(s@, j as int);
            }
            let k = scan_digits(s, j);
            if k == j && j < n && s[j] == '(' {
                let name = upper_range(s, i, j);
                let t = Token::Name(string_of(&name));
                proof {
                    lemma_after_cons(tv, t@, lex(s@, j as int));
                    assert(tokens_view(tokens@.push(t)) == tv.push(t@));
                }
                tokens.push(t);
                i = j;
                continue;
            }
            if k == j {
                return (Err(CellError::Syntax), false);
            }
            let row = match digits_to_usize(s, j, k) {
                Some(v) => v,
                None => {
                    return (Err(CellError::Syntax), false);
                },
            };
            if row == 0 {
                return (Err(CellError::Ref), false);
            }
            let letters = upper_range(s, i, j);
            proof {
                assert forall|m: int| 0 <= m < s@.subrange(i as int, j as int).len()
                    implies #[trigger] is_alpha(s@.subrange(i as int, j as int)[m]) by {
                    if m == 0 {
                        assert(is_alpha(s@[i as int]));
                    } else {
                        assert(is_alpha(s@[i + m]));
                    }
                }
                lemma_upper_letters(s@.subrange(i as int, j as int));
            }
            if letters_value_checked(&letters).is_none() {
                return (Err(CellError::Syntax), true);
            }
            proof {
                lemma_letters_fit(letters@);
            }
            let col = match letter_to_col(&letters) {
                Ok(v) => v,
                Err(e) => {
                    return (Err(e), false);
                },
            };
            let t = Token::CellRef(row - 1, col);
            proof {
                lemma_after_cons(tv, t@, lex(s@, k as int));
                assert(tokens_view(tokens@.push(t)) == tv.push(t@));
            }
            tokens.push(t);
            i = k;
        } else {
            proof {
                lemma_lex_other(s@, i as int);
            }
            return (Err(CellError::Syntax), false);
        }
    }
    proof {
        lemma_lex_end(s@);
        assert(tokens_view(tokens@) + Seq::<TokenView>::empty() == tokens_view(tokens@));
    }
    (Ok(tokens), false)
}

/// The tokens of the formula `expr`, or the first error met.
pub fn tokenize(expr: &Vec<char>) -> (r: Result<Vec<Token>, CellError>)
    requires
        !lex_overflows(expr@, 0),
    ensures
        match r {
            Ok(ts) => tokens_of(expr@) == Ok::<Seq<TokenView>, CellError>(tokens_view(ts@)),
            Err(e) => tokens_of(expr@) == Err::<Seq<TokenView>, CellError>(e),
        },
{
    scan(expr).0
}

/// Whether lexing `expr` meets a cell reference whose column letters do not fit in `usize`.
pub fn column_overflows(expr: &Vec<char>) -> (b: bool)
    ensures
        b == lex_overflows(expr@, 0),
{
    scan(expr).1
}


} // verus!
