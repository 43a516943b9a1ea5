//! The lexer: one line of G-code into address words and comments.
//!
//! A word is an ASCII letter (upper-cased) followed by an optional sign and a
//! number of digits with at most one decimal point. White space and `%` are
//! skipped between tokens; `;` starts a comment that runs to the end of the
//! line, and `(` starts one that runs to the next `)`.

use vstd::prelude::*;

use crate::decimal::Decimal;
use crate::text::{
    ascii_digit, ascii_letter, ascii_upper, chars_of, digit_value, is_ascii_digit,
    is_ascii_letter, is_ascii_upper, is_white_space, push_char, to_ascii_upper, trim,
    trimmed_string, white_space,
};

verus! {

/// The most digits kept after the point of a number.
pub const MAX_FRACTION: u32 = 30;

/// `10^34`: the magnitude of every mantissa the lexer makes stays below it.
pub const NUMBER_LIMIT: u128 = 10_000_000_000_000_000_000_000_000_000_000_000;

/// An address letter with its value.
#[derive(Clone, Copy, Debug, PartialEq, Eq)]
pub struct Word {
    pub address: char,
    pub value: Decimal,
}

/// A token of a line.
#[derive(Clone, Debug, PartialEq)]
pub enum Token {
    Word(Word),
    Comment(String),
}

/// Why a line could not be lexed.
#[derive(Clone, Debug, PartialEq)]
pub enum LexError {
    /// An address letter without a number after it.
    MissingValue(char),
    /// A number that cannot be read: the address and the raw text. The
    /// lexer here reads every digit sequence, so [`lex_line`] does not give it.
    InvalidNumber(char, String),
    /// A character that starts no token.
    InvalidCharacter(char),
    /// A `(` comment without its `)`.
    UnclosedComment,
}

/// A token with the text of a comment as a sequence.
pub enum TokenView {
    Word(Word),
    Comment(Seq<char>),
}

/// A lexing error with its text as a sequence.
pub enum LexErrorView {
    MissingValue(char),
    InvalidNumber(char, Seq<char>),
    InvalidCharacter(char),
    UnclosedComment,
}

impl View for Token {
    type V = TokenView;

    open spec fn view(&self) -> TokenView {
        match self {
            Token::Word(w) => TokenView::Word(*w),
            Token::Comment(s) => TokenView::Comment(s@),
        }
    }
}

impl View for LexError {
    type V = LexErrorView;

    open spec fn view(&self) -> LexErrorView {
        match self {
            LexError::MissingValue(c) => LexErrorView::MissingValue(*c),
            LexError::InvalidNumber(c, s) => LexErrorView::InvalidNumber(*c, s@),
            LexError::InvalidCharacter(c) => LexErrorView::InvalidCharacter(*c),
            LexError::UnclosedComment => LexErrorView::UnclosedComment,
        }
    }
}

/// The views of a sequence of tokens.
pub open spec fn token_views(v: Seq<Token>) -> Seq<TokenView> {
    v.map_values(|t: Token| t@)
}

/// The index after the digits, and at most one point, from `k` on.
pub open spec fn number_end(cs: Seq<char>, k: int, saw_point: bool) -> int
    decreases cs.len() - k,
{
    if 0 <= k < cs.len() && is_ascii_digit(cs[k]) {
        number_end(cs, k + 1, saw_point)
    } else if 0 <= k < cs.len() && cs[k] == '.' && !saw_point {
        number_end(cs, k + 1, true)
    } else {
        k
    }
}

pub proof fn lemma_number_end_bounds(cs: Seq<char>, k: int, saw_point: bool)
    requires
        0 <= k <= cs.len(),
    ensures
        k <= number_end(cs, k, saw_point) <= cs.len(),
    decreases cs.len() - k,
{
    if 0 <= k < cs.len() && is_ascii_digit(cs[k]) {
        lemma_number_end_bounds(cs, k + 1, saw_point);
    } else if 0 <= k < cs.len() && cs[k] == '.' && !saw_point {
        lemma_number_end_bounds(cs, k + 1, true);
    }
}

/// The index of the first `)` at or after `k`, or the length.
pub open spec fn close_paren(cs: Seq<char>, k: int) -> int
    decreases cs.len() - k,
{
    if k >= cs.len() {
        cs.len() as int
    } else if cs[k] == ')' {
        k
    } else {
        close_paren(cs, k + 1)
    }
}

pub proof fn lemma_close_paren_bounds(cs: Seq<char>, k: int)
    requires
        0 <= k <= cs.len(),
    ensures
        k <= close_paren(cs, k) <= cs.len(),
    decreases cs.len() - k,
{
    if k < cs.len() && cs[k] != ')' {
        lemma_close_paren_bounds(cs, k + 1);
    }
}

/// The body holds a digit.
pub open spec fn has_digit(s: Seq<char>) -> bool
    decreases s.len(),
{
    s.len() > 0 && (is_ascii_digit(s.last()) || has_digit(s.drop_last()))
}

/// The digits of the body read as one integer, the point ignored.
pub open spec fn digits_value(s: Seq<char>) -> nat
    decreases s.len(),
{
    if s.len() == 0 {
        0
    } else if is_ascii_digit(s.last()) {
        digits_value(s.drop_last()) * 10 + digit_value(s.last())
    } else {
        digits_value(s.drop_last())
    }
}

/// The number of characters after the point of the body, if it has one.
pub open spec fn after_point(s: Seq<char>) -> Option<nat>
    decreases s.len(),
{
    if s.len() == 0 {
        None
    } else if s.last() == '.' {
        Some(0)
    } else {
        match after_point(s.drop_last()) {
            Some(n) => Some(n + 1),
            None => None,
        }
    }
}

/// The number of digits after the point of the body.
pub open spec fn fraction_digits(s: Seq<char>) -> nat {
    match after_point(s) {
        Some(n) => n,
        None => 0,
    }
}

/// The body's digits stay below [`NUMBER_LIMIT`] and it has at most
/// [`MAX_FRACTION`] digits after its point: it is read exactly.
pub open spec fn representable(s: Seq<char>) -> bool {
    digits_value(s) < NUMBER_LIMIT && fraction_digits(s) <= MAX_FRACTION
}

/// What reading a number body from the left has found: the mantissa and
/// the digits kept after the point, whether a point was seen, whether the
/// integer part outgrew the limit, and whether later fraction digits were
/// dropped.
pub struct NumberRead {
    pub mantissa: nat,
    pub fraction: nat,
    pub point: bool,
    pub full: bool,
    pub cut: bool,
}

/// Reads a number body digit by digit. A digit is kept while the mantissa
/// stays below [`NUMBER_LIMIT`] and, after the point, while at most
/// [`MAX_FRACTION`] digits are kept; an integer digit that does not fit
/// marks the number full, and the first fraction digit that does not fit
/// drops it and every digit after it.
pub open spec fn read_number(s: Seq<char>) -> NumberRead
    decreases s.len(),
{
    if s.len() == 0 {
        NumberRead { mantissa: 0, fraction: 0, point: false, full: false, cut: false }
    } else {
        let r = read_number(s.drop_last());
        let c = s.last();
        if is_ascii_digit(c) {
            let m = r.mantissa * 10 + digit_value(c);
            if r.full || r.cut {
                r
            } else if !r.point {
                if m < NUMBER_LIMIT {
                    NumberRead { mantissa: m, ..r }
                } else {
                    NumberRead { full: true, ..r }
                }
            } else if r.fraction < MAX_FRACTION && m < NUMBER_LIMIT {
                NumberRead { mantissa: m, fraction: r.fraction + 1, ..r }
            } else {
                NumberRead { cut: true, ..r }
            }
        } else if c == '.' {
            NumberRead { point: true, ..r }
        } else {
            r
        }
    }
}

/// The value of a number body, with its sign: the digits read by
/// [`read_number`] over the digits kept after the point; a number whose
/// integer part reaches [`NUMBER_LIMIT`] becomes the largest mantissa below
/// it.
pub open spec fn body_value(s: Seq<char>, negative: bool) -> Decimal {
    let r = read_number(s);
    let m: int = if r.full {
        NUMBER_LIMIT - 1
    } else {
        r.mantissa as int
    };
    Decimal {
        mantissa: (if negative {
            -m
        } else {
            m
        }) as i128,
        scale: (if r.full {
            0
        } else {
            r.fraction
        }) as u32,
    }
}

/// A number body: digits with at most one point.
pub open spec fn body_form(s: Seq<char>) -> bool
    decreases s.len(),
{
    s.len() == 0 || (body_form(s.drop_last()) && (is_ascii_digit(s.last()) || (s.last() == '.'
        && after_point(s.drop_last()) is None)))
}

pub proof fn lemma_read_number_bounds(s: Seq<char>)
    ensures
        read_number(s).mantissa < NUMBER_LIMIT,
        read_number(s).fraction <= MAX_FRACTION,
        read_number(s).point == (after_point(s) is Some),
    decreases s.len(),
{
    if s.len() > 0 {
        lemma_read_number_bounds(s.drop_last());
    }
}

/// A body that is [`representable`] is read exactly.
pub proof fn lemma_read_number_exact(s: Seq<char>)
    requires
        body_form(s),
        representable(s),
    ensures
        !read_number(s).full,
        !read_number(s).cut,
        read_number(s).mantissa == digits_value(s),
        read_number(s).fraction == fraction_digits(s),
    decreases s.len(),
{
    if s.len() > 0 {
        let d = s.drop_last();
        let c = s.last();
        lemma_read_number_bounds(d);
        if is_ascii_digit(c) {
            assert(digits_value(s) == digits_value(d) * 10 + digit_value(c));
            assert(fraction_digits(d) <= fraction_digits(s));
        } else {
            assert(after_point(d) is None);
            assert(fraction_digits(d) == 0);
        }
        lemma_read_number_exact(d);
    }
}

/// `t` followed by what `r` lexes, or `r`'s error.
pub open spec fn prepend(t: Seq<TokenView>, r: Result<Seq<TokenView>, LexErrorView>) -> Result<
    Seq<TokenView>,
    LexErrorView,
> {
    match r {
        Ok(ts) => Ok(t + ts),
        Err(e) => Err(e),
    }
}

/// The tokens of `cs` from index `i` on, or the first error there.
pub open spec fn lex_from(cs: Seq<char>, i: int) -> Result<Seq<TokenView>, LexErrorView>
    decreases cs.len() - i,
{
    if i < 0 || i >= cs.len() {
        Ok(Seq::empty())
    } else {
        let c = cs[i];
        if is_white_space(c) || c == '%' {
            lex_from(cs, i + 1)
        } else if c == ';' {
            Ok(seq![TokenView::Comment(trim(cs.subrange(i + 1, cs.len() as int)))])
        } else if c == '(' {
            let j = close_paren(cs, i + 1);
            proof {
                lemma_close_paren_bounds(cs, i + 1);
            }
            if j >= cs.len() {
                Err(LexErrorView::UnclosedComment)
            } else {
                prepend(seq![TokenView::Comment(trim(cs.subrange(i + 1, j)))], lex_from(cs, j + 1))
            }
        } else if !is_ascii_letter(c) {
            Err(LexErrorView::InvalidCharacter(c))
        } else {
            let address = ascii_upper(c);
            let start = i + 1;
            let signed = start < cs.len() && (cs[start] == '+' || cs[start] == '-');
            let body_start = if signed {
                start + 1
            } else {
                start
            };
            let end = number_end(cs, body_start, false);
            proof {
                lemma_number_end_bounds(cs, body_start, false);
            }
            let body = cs.subrange(body_start, end);
            if !has_digit(body) {
                Err(LexErrorView::MissingValue(address))
            } else {
                let negative = signed && cs[start] == '-';
                prepend(
                    seq![TokenView::Word(Word { address, value: body_value(body, negative) })],
                    lex_from(cs, end),
                )
            }
        }
    }
}

/// The tokens of a line, or the first error in it.
pub open spec fn lex_spec(cs: Seq<char>) -> Result<Seq<TokenView>, LexErrorView> {
    lex_from(cs, 0)
}

/// What scanning a number body has found so far.
struct NumberScan {
    mantissa: u128,
    fraction: u32,
    point: bool,
    full: bool,
    cut: bool,
    saw_digit: bool,
}

impl NumberScan {
    spec fn matches(self, prefix: Seq<char>) -> bool {
        &&& self.saw_digit == has_digit(prefix)
        &&& read_number(prefix) == NumberRead {
            mantissa: self.mantissa as nat,
            fraction: self.fraction as nat,
            point: self.point,
            full: self.full,
            cut: self.cut,
        }
    }
}

proof fn lemma_scan_step(prefix: Seq<char>, c: char)
    ensures
        prefix.push(c).drop_last() == prefix,
        prefix.push(c).last() == c,
{
    assert(prefix.push(c).drop_last() =~= prefix);
}

/// Scans the number body that starts at `k`, returning where it ends and
/// what it read.
fn scan_number(cs: &Vec<char>, k: usize) -> (r: (usize, NumberScan))
    requires
        k <= cs@.len(),
    ensures
        r.0 == number_end(cs@, k as int, false),
        r.1.matches(cs@.subrange(k as int, r.0 as int)),
{
    let mut index: usize = k;
    let mut scan = NumberScan {
        mantissa: 0,
        fraction: 0,
        point: false,
        full: false,
        cut: false,
        saw_digit: false,
    };
    assert(cs@.subrange(k as int, k as int) =~= Seq::<char>::empty());
    loop
        invariant
            k <= index <= cs@.len(),
            number_end(cs@, index as int, scan.point) == number_end(cs@, k as int, false),
            scan.matches(cs@.subrange(k as int, index as int)),
        decreases cs@.len() - index,
    {
        let ghost prefix = cs@.subrange(k as int, index as int);
        proof {
            lemma_read_number_bounds(prefix);
        }
        if index < cs.len() && ascii_digit(cs[index]) {
            let c = cs[index];
            let d: u128 = (c as u32 - 48) as u128;
            proof {
                lemma_scan_step(prefix, c);
            }
            if !scan.full && !scan.cut {
                let m: u128 = scan.mantissa * 10 + d;
                if !scan.point {
                    if m < NUMBER_LIMIT {
                        scan.mantissa = m;
                    } else {
                        scan.full = true;
                    }
                } else if scan.fraction < MAX_FRACTION && m < NUMBER_LIMIT {
                    scan.mantissa = m;
                    scan.fraction = scan.fraction + 1;
                } else {
                    scan.cut = true;
                }
            }
            scan.saw_digit = true;
            index = index + 1;
            assert(cs@.subrange(k as int, index as int) =~= prefix.push(c));
        } else if index < cs.len() && cs[index] == '.' && !scan.point {
            let c = cs[index];
            proof {
                lemma_scan_step(prefix, c);
            }
            scan.point = true;
            index = index + 1;
            assert(cs@.subrange(k as int, index as int) =~= prefix.push(c));
        } else {
            return (index, scan);
        }
    }
}

/// A number as the lexer makes it: its mantissa below [`NUMBER_LIMIT`] in
/// magnitude, with at most [`MAX_FRACTION`] digits after the point.
pub open spec fn lexed_number(d: Decimal) -> bool {
    -(NUMBER_LIMIT as int) < d.mantissa < NUMBER_LIMIT && d.scale <= MAX_FRACTION
}

/// Every word of `ts` has an upper-case address and a lexed number.
pub open spec fn words_well_formed(ts: Seq<TokenView>) -> bool {
    forall|k: int|
        0 <= k < ts.len() ==> match #[trigger] ts[k] {
            TokenView::Word(w) => is_ascii_upper(w.address) && lexed_number(w.value),
            TokenView::Comment(_) => true,
        }
}

/// Every word the lexer makes has an upper-case address and a lexed number.
pub proof fn lemma_lex_words_well_formed(cs: Seq<char>, i: int)
    ensures
        lex_from(cs, i) matches Ok(ts) ==> words_well_formed(ts),
    decreases cs.len() - i,
{
    if i < 0 || i >= cs.len() {
        return;
    }
    let c = cs[i];
    if is_white_space(c) || c == '%' {
        lemma_lex_words_well_formed(cs, i + 1);
    } else if c == ';' {
    } else if c == '(' {
        let j = close_paren(cs, i + 1);
        lemma_close_paren_bounds(cs, i + 1);
        if j < cs.len() {
            lemma_lex_words_well_formed(cs, j + 1);
            if let Ok(rest) = lex_from(cs, j + 1) {
                let t = TokenView::Comment(trim(cs.subrange(i + 1, j)));
                assert(lex_from(cs, i) == Ok::<Seq<TokenView>, LexErrorView>(seq![t] + rest));
                assert forall|k: int| 0 <= k < (seq![t] + rest).len() implies match #[trigger] (seq![t] + rest)[k] {
                    TokenView::Word(w) => is_ascii_upper(w.address) && lexed_number(w.value),
                    TokenView::Comment(_) => true,
                } by {
                    if k > 0 {
                        assert((seq![t] + rest)[k] == rest[k - 1]);
                    }
                }
            }
        }
    } else if is_ascii_letter(c) {
        let start = i + 1;
        let signed = start < cs.len() && (cs[start] == '+' || cs[start] == '-');
        let body_start = if signed {
            start + 1
        } else {
            start
        };
        let end = number_end(cs, body_start, false);
        lemma_number_end_bounds(cs, body_start, false);
        let body = cs.subrange(body_start, end);
        if has_digit(body) {
            lemma_read_number_bounds(body);
            lemma_lex_words_well_formed(cs, end);
            if let Ok(rest) = lex_from(cs, end) {
                let negative = signed && cs[start] == '-';
                let w = Word { address: ascii_upper(c), value: body_value(body, negative) };
                let t = TokenView::Word(w);
                assert(is_ascii_upper(w.address));
                assert(lexed_number(w.value));
                assert forall|k: int| 0 <= k < (seq![t] + rest).len() implies match #[trigger] (seq![t] + rest)[k] {
                    TokenView::Word(w) => is_ascii_upper(w.address) && lexed_number(w.value),
                    TokenView::Comment(_) => true,
                } by {
                    if k > 0 {
                        assert((seq![t] + rest)[k] == rest[k - 1]);
                    }
                }
            }
        }
    }
}

/// The message of a lexing error.
pub open spec fn lex_error_text(e: LexErrorView) -> Seq<char> {
    match e {
        LexErrorView::MissingValue(c) => "Nach Adresse "@.push(c) + " fehlt ein Wert"@,
        LexErrorView::InvalidNumber(c, s) => "Ungültige Zahl bei Adresse "@.push(c) + ": "@ + s,
        LexErrorView::InvalidCharacter(c) => "Ungültiges Zeichen: "@.push(c),
        LexErrorView::UnclosedComment => "Kommentar wurde nicht geschlossen"@,
    }
}

impl LexError {
    /// The message of the error, as [`lex_error_text`] says.
    pub fn message(&self) -> (r: String)
        ensures
            r@ == lex_error_text(self@),
    {
        match self {
            LexError::MissingValue(c) => {
                let mut r = "Nach Adresse ".to_owned();
                push_char(&mut r, *c);
                r.append(" fehlt ein Wert");
                r
            },
            LexError::InvalidNumber(c, s) => {
                let mut r = "Ungültige Zahl bei Adresse ".to_owned();
                push_char(&mut r, *c);
                r.append(": ");
                r.append(s.as_str());
                r
            },
            LexError::InvalidCharacter(c) => {
                let mut r = "Ungültiges Zeichen: ".to_owned();
                push_char(&mut r, *c);
                r
            },
            LexError::UnclosedComment => "Kommentar wurde nicht geschlossen".to_owned(),
        }
    }
}

/// Lexes one line of G-code, as [`lex_spec`] says.
pub fn lex_line(source: &str) -> (r: Result<Vec<Token>, LexError>)
    ensures
        lexed_as(r, source@),
{
    let chars = chars_of(source);
    lex_chars(&chars)
}

/// The result of the lexer agrees with [`lex_spec`] on `cs`.
pub open spec fn lexed_as(r: Result<Vec<Token>, LexError>, cs: Seq<char>) -> bool {
    match r {
        Ok(ts) => lex_spec(cs) == Ok::<Seq<TokenView>, LexErrorView>(token_views(ts@)),
        Err(e) => lex_spec(cs) == Err::<Seq<TokenView>, LexErrorView>(e@),
    }
}

proof fn lemma_prepend_push(ts: Seq<Token>, t: Token, r: Result<Seq<TokenView>, LexErrorView>)
    ensures
        prepend(token_views(ts), prepend(seq![t@], r)) == prepend(token_views(ts.push(t)), r),
{
    assert(token_views(ts.push(t)) =~= token_views(ts) + seq![t@]);
    match r {
        Ok(x) => {
            assert(token_views(ts) + (seq![t@] + x) =~= token_views(ts.push(t)) + x);
        },
        Err(_) => {},
    }
}

/// Lexes the characters of one line, as [`lex_spec`] says.
pub fn lex_chars(cs: &Vec<char>) -> (r: Result<Vec<Token>, LexError>)
    ensures
        lexed_as(r, cs@),
{
    let mut tokens: Vec<Token> = Vec::new();
    let mut index: usize = 0;
    assert(token_views(tokens@) =~= Seq::<TokenView>::empty());
    assert(prepend(Seq::<TokenView>::empty(), lex_from(cs@, 0)) == lex_from(cs@, 0)) by {
        match lex_from(cs@, 0) {
            Ok(x) => {
                assert(Seq::<TokenView>::empty() + x =~= x);
            },
            Err(_) => {},
        }
    }
    while index < cs.len()
        invariant
            index <= cs@.len(),
            lex_spec(cs@) == prepend(token_views(tokens@), lex_from(cs@, index as int)),
        decreases cs@.len() - index,
    {
        let c = cs[index];
        if white_space(c) || c == '%' {
            index = index + 1;
            continue;
        }
        if c == ';' {
            let comment = trimmed_string(cs, index + 1, cs.len());
            let ghost before = tokens@;
            let t = Token::Comment(comment);
            tokens.push(t);
            proof {
                lemma_prepend_push(before, t, Ok(Seq::empty()));
                assert(token_views(tokens@) + Seq::<TokenView>::empty() =~= token_views(tokens@));
            }
            return Ok(tokens);
        }
        if c == '(' {
            let start: usize = index + 1;
            index = index + 1;
            while index < cs.len() && cs[index] != ')'
                invariant
                    start <= index <= cs@.len(),
                    close_paren(cs@, index as int) == close_paren(cs@, start as int),
                decreases cs@.len() - index,
            {
                index = index + 1;
            }
            if index >= cs.len() {
                return Err(LexError::UnclosedComment);
            }
            let comment = trimmed_string(cs, start, index);
            let ghost before = tokens@;
            let t = Token::Comment(comment);
            tokens.push(t);
            proof {
                lemma_prepend_push(before, t, lex_from(cs@, index + 1));
            }
            index = index + 1;
            continue;
        }
        if !ascii_letter(c) {
            return Err(LexError::InvalidCharacter(c));
        }
        let address = to_ascii_upper(c);
        let start: usize = index + 1;
        let signed: bool = start < cs.len() && (cs[start] == '+' || cs[start] == '-');
        let body_start: usize = if signed {
            start + 1
        } else {
            start
        };
        let (end, scan) = scan_number(cs, body_start);
        proof {
            lemma_number_end_bounds(cs@, body_start as int, false);
        }
        if !scan.saw_digit {
            return Err(LexError::MissingValue(address));
        }
        let negative: bool = signed && cs[start] == '-';
        proof {
            lemma_read_number_bounds(cs@.subrange(body_start as int, end as int));
        }
        let magnitude: i128 = if scan.full {
            (NUMBER_LIMIT - 1) as i128
        } else {
            scan.mantissa as i128
        };
        let value = Decimal {
            mantissa: if negative {
                -magnitude
            } else {
                magnitude
            },
            scale: if scan.full {
                0
            } else {
                scan.fraction
            },
        };
        let ghost before = tokens@;
        let t = Token::Word(Word { address, value });
        proof {
            assert(value == body_value(cs@.subrange(body_start as int, end as int), negative));
        }
        tokens.push(t);
        proof {
            lemma_prepend_push(before, t, lex_from(cs@, end as int));
        }
        index = end;
    }
    proof {
        assert(token_views(tokens@) + Seq::<TokenView>::empty() =~= token_views(tokens@));
    }
    Ok(tokens)
}

} // verus!
