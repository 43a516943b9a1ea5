//! Laws of the lexer: what words written out as text lex back to.

use vstd::prelude::*;

use crate::decimal::{
    abs, lemma_pow10_add, lemma_pow10_positive, nat_digits, padded_digits, pow10, same_value,
    trimmed_fraction, Decimal,
};
use crate::lexer::{
    after_point, body_value, close_paren, digits_value, fraction_digits, has_digit, lex_from,
    lex_spec, lexed_number, number_end, prepend, representable, LexErrorView, TokenView, Word,
    body_form, lemma_read_number_exact,
};
use crate::text::{
    ascii_upper, back_white_space, digit_char, digit_value, is_ascii_digit, is_ascii_letter,
    is_ascii_upper, is_white_space, skip_white_space, trim,
};

verus! {

// ---------------------------------------------------------------------------
// Lexing from an index depends only on the text from that index on.
// ---------------------------------------------------------------------------

proof fn lemma_close_paren_shift(p: Seq<char>, s: Seq<char>, k: int)
    requires
        0 <= k <= s.len(),
    ensures
        close_paren(p + s, p.len() + k) == p.len() + close_paren(s, k),
    decreases s.len() - k,
{
    if k < s.len() {
        assert((p + s)[p.len() + k] == s[k]);
        if s[k] != ')' {
            lemma_close_paren_shift(p, s, k + 1);
        }
    }
}

proof fn lemma_number_end_shift(p: Seq<char>, s: Seq<char>, k: int, saw_point: bool)
    requires
        0 <= k <= s.len(),
    ensures
        number_end(p + s, p.len() + k, saw_point) == p.len() + number_end(s, k, saw_point),
    decreases s.len() - k,
{
    if k < s.len() {
        assert((p + s)[p.len() + k] == s[k]);
        if is_ascii_digit(s[k]) {
            lemma_number_end_shift(p, s, k + 1, saw_point);
        } else if s[k] == '.' && !saw_point {
            lemma_number_end_shift(p, s, k + 1, true);
        }
    }
}

/// Lexing `p + s` from index `p.len() + j` is lexing `s` from `j`.
pub proof fn lemma_lex_shift(p: Seq<char>, s: Seq<char>, j: int)
    requires
        0 <= j <= s.len(),
    ensures
        lex_from(p + s, p.len() + j) == lex_from(s, j),
    decreases s.len() - j,
{
    let cs = p + s;
    let i = p.len() + j;
    if j < s.len() {
        assert(cs[i] == s[j]);
        let c = s[j];
        if is_white_space(c) || c == '%' {
            lemma_lex_shift(p, s, j + 1);
        } else if c == ';' {
            assert(cs.subrange(i + 1, cs.len() as int) =~= s.subrange(j + 1, s.len() as int));
        } else if c == '(' {
            lemma_close_paren_shift(p, s, j + 1);
            crate::lexer::lemma_close_paren_bounds(s, j + 1);
            let k = close_paren(s, j + 1);
            if k < s.len() {
                assert(cs.subrange(i + 1, p.len() + k) =~= s.subrange(j + 1, k));
                lemma_lex_shift(p, s, k + 1);
            }
        } else if is_ascii_letter(c) {
            let start = j + 1;
            if start < s.len() {
                assert(cs[i + 1] == s[start]);
            }
            let signed = start < s.len() && (s[start] == '+' || s[start] == '-');
            let body_start = if signed {
                start + 1
            } else {
                start
            };
            lemma_number_end_shift(p, s, body_start, false);
            crate::lexer::lemma_number_end_bounds(s, body_start, false);
            let end = number_end(s, body_start, false);
            assert(cs.subrange(p.len() + body_start, p.len() + end) =~= s.subrange(body_start, end));
            assert(cs.subrange(i + 1, p.len() + end) =~= s.subrange(start, end));
            lemma_lex_shift(p, s, end);
        }
    }
}

/// White space before a text changes nothing of its lexing.
pub proof fn lemma_lex_skips_white_space(sep: Seq<char>, s: Seq<char>)
    requires
        forall|k: int| 0 <= k < sep.len() ==> is_white_space(#[trigger] sep[k]),
    ensures
        lex_spec(sep + s) == lex_spec(s),
{
    lemma_skip_from(sep, s, 0);
    lemma_lex_shift(sep, s, 0);
}

proof fn lemma_skip_from(sep: Seq<char>, s: Seq<char>, i: int)
    requires
        forall|k: int| 0 <= k < sep.len() ==> is_white_space(#[trigger] sep[k]),
        0 <= i <= sep.len(),
    ensures
        lex_from(sep + s, i) == lex_from(sep + s, sep.len() as int),
    decreases sep.len() - i,
{
    if i < sep.len() {
        assert((sep + s)[i] == sep[i]);
        lemma_skip_from(sep, s, i + 1);
    }
}

// ---------------------------------------------------------------------------
// Digit sequences.
// ---------------------------------------------------------------------------

/// Every character of `s` is an ASCII digit.
pub open spec fn all_digits(s: Seq<char>) -> bool {
    forall|k: int| 0 <= k < s.len() ==> is_ascii_digit(#[trigger] s[k])
}

proof fn lemma_digit_char(d: nat)
    requires
        d < 10,
    ensures
        is_ascii_digit(digit_char(d)),
        digit_value(digit_char(d)) == d,
{
}

proof fn lemma_digits_value_append(x: Seq<char>, y: Seq<char>)
    requires
        all_digits(y),
    ensures
        digits_value(x + y) == digits_value(x) * pow10(y.len()) + digits_value(y),
    decreases y.len(),
{
    if y.len() == 0 {
        assert(x + y =~= x);
        assert(pow10(0) == 1);
        assert(digits_value(x) * 1 == digits_value(x));
    } else {
        let yd = y.drop_last();
        assert((x + y).drop_last() =~= x + yd);
        assert((x + y).last() == y.last());
        assert(is_ascii_digit(y[y.len() - 1]));
        assert forall|k: int| 0 <= k < yd.len() implies is_ascii_digit(#[trigger] yd[k]) by {
            assert(yd[k] == y[k]);
        }
        lemma_digits_value_append(x, yd);
        assert(digits_value(x + y) == digits_value(x + yd) * 10 + digit_value(y.last()));
        assert(digits_value(y) == digits_value(yd) * 10 + digit_value(y.last()));
        let dx = digits_value(x);
        let p = pow10(yd.len());
        assert(pow10(y.len()) == 10 * p);
        assert((dx * p + digits_value(yd)) * 10 == dx * (10 * p) + digits_value(yd) * 10) by (nonlinear_arith);
        assert(dx * pow10(y.len()) == dx * (10 * p));
    }
}

proof fn lemma_nat_digits(n: nat)
    ensures
        all_digits(nat_digits(n)),
        nat_digits(n).len() >= 1,
        digits_value(nat_digits(n)) == n,
        after_point(nat_digits(n)) is None,
        has_digit(nat_digits(n)),
    decreases n,
{
    lemma_digit_char(n % 10);
    let c = digit_char(n % 10);
    assert(c != '.') by {
        assert(c as u32 != '.' as u32);
    }
    if n < 10 {
        let s = nat_digits(n);
        assert(n % 10 == n);
        assert(s =~= seq![c]);
        assert(s.drop_last() =~= Seq::<char>::empty());
        assert(s.last() == c);
        assert(digits_value(s.drop_last()) == 0);
        assert(after_point(s.drop_last()) is None);
        assert(digits_value(s) == digits_value(s.drop_last()) * 10 + digit_value(c));
    } else {
        lemma_nat_digits(n / 10);
        let s = nat_digits(n);
        let t = nat_digits(n / 10);
        assert(s.drop_last() =~= t);
        assert(s.last() == c);
        assert(n == (n / 10) * 10 + n % 10);
        assert forall|k: int| 0 <= k < s.len() implies is_ascii_digit(#[trigger] s[k]) by {
            if k < t.len() {
                assert(s[k] == t[k]);
            }
        }
    }
}

proof fn lemma_mod_step(n: nat, p: nat)
    requires
        p >= 1,
    ensures
        ((n / 10) % p) * 10 + n % 10 == n % (10 * p),
{
    let q = n / 10;
    let r = n % 10;
    let t = q / p;
    let u = q % p;
    vstd::arithmetic::div_mod::lemma_fundamental_div_mod(n as int, 10);
    vstd::arithmetic::div_mod::lemma_fundamental_div_mod(q as int, p as int);
    assert(n == t * (10 * p) + (u * 10 + r)) by (nonlinear_arith)
        requires
            n == 10 * q + r,
            q == p * t + u,
    ;
    assert(0 <= u * 10 + r < 10 * p) by (nonlinear_arith)
        requires
            0 <= u < p,
            0 <= r < 10,
    ;
    vstd::arithmetic::div_mod::lemma_fundamental_div_mod_converse(
        n as int,
        (10 * p) as int,
        t as int,
        (u * 10 + r) as int,
    );
}

proof fn lemma_padded_digits(n: nat, w: nat)
    ensures
        all_digits(padded_digits(n, w)),
        padded_digits(n, w).len() == w,
        digits_value(padded_digits(n, w)) == n % pow10(w) as nat,
    decreases w,
{
    lemma_pow10_positive(w);
    if w == 0 {
        assert(n % 1 == 0);
    } else {
        lemma_digit_char(n % 10);
        lemma_padded_digits(n / 10, (w - 1) as nat);
        lemma_pow10_positive((w - 1) as nat);
        lemma_mod_step(n, pow10((w - 1) as nat) as nat);
        let s = padded_digits(n, w);
        let t = padded_digits(n / 10, (w - 1) as nat);
        assert(s.drop_last() =~= t);
        assert forall|k: int| 0 <= k < s.len() implies is_ascii_digit(#[trigger] s[k]) by {
            if k < t.len() {
                assert(s[k] == t[k]);
            }
        }
    }
}

proof fn lemma_after_point_digits(x: Seq<char>, y: Seq<char>)
    requires
        all_digits(y),
    ensures
        after_point(x + y) == match after_point(x) {
            Some(k) => Some(k + y.len()),
            None => None::<nat>,
        },
    decreases y.len(),
{
    if y.len() == 0 {
        assert(x + y =~= x);
    } else {
        let yd = y.drop_last();
        assert((x + y).drop_last() =~= x + yd);
        assert((x + y).last() == y.last());
        assert(is_ascii_digit(y[y.len() - 1]));
        assert forall|k: int| 0 <= k < yd.len() implies is_ascii_digit(#[trigger] yd[k]) by {
            assert(yd[k] == y[k]);
        }
        lemma_after_point_digits(x, yd);
    }
}

proof fn lemma_body_form_digits(x: Seq<char>, y: Seq<char>)
    requires
        body_form(x),
        all_digits(y),
    ensures
        body_form(x + y),
    decreases y.len(),
{
    if y.len() == 0 {
        assert(x + y =~= x);
    } else {
        let yd = y.drop_last();
        assert((x + y).drop_last() =~= x + yd);
        assert((x + y).last() == y.last());
        assert(is_ascii_digit(y[y.len() - 1]));
        assert forall|k: int| 0 <= k < yd.len() implies is_ascii_digit(#[trigger] yd[k]) by {
            assert(yd[k] == y[k]);
        }
        lemma_body_form_digits(x, yd);
    }
}

proof fn lemma_has_digit_append(x: Seq<char>, y: Seq<char>)
    requires
        has_digit(x),
    ensures
        has_digit(x + y),
    decreases y.len(),
{
    if y.len() == 0 {
        assert(x + y =~= x);
    } else {
        assert((x + y).drop_last() =~= x + y.drop_last());
        lemma_has_digit_append(x, y.drop_last());
    }
}

proof fn lemma_number_end_digits(cs: Seq<char>, k: int, n: int, saw_point: bool)
    requires
        0 <= k,
        0 <= n,
        k + n <= cs.len(),
        forall|i: int| k <= i < k + n ==> is_ascii_digit(#[trigger] cs[i]),
    ensures
        number_end(cs, k, saw_point) == number_end(cs, k + n, saw_point),
    decreases n,
{
    if n > 0 {
        lemma_number_end_digits(cs, k + 1, n - 1, saw_point);
    }
}

// ---------------------------------------------------------------------------
// Words written out as text.
// ---------------------------------------------------------------------------

/// The digits and point of a number, written so that they read back to the
/// same mantissa and scale: the integer part, and, when the scale is not
/// zero, a point and exactly `scale` digits.
pub open spec fn number_body(d: Decimal) -> Seq<char> {
    let a = abs(d.mantissa as int) as nat;
    let p = pow10(d.scale as nat) as nat;
    if d.scale == 0 {
        nat_digits(a)
    } else {
        nat_digits(a / p) + seq!['.'] + padded_digits(a % p, d.scale as nat)
    }
}

/// A number as text: a minus sign when it is negative, then its body.
pub open spec fn number_text(d: Decimal) -> Seq<char> {
    if d.mantissa < 0 {
        seq!['-'] + number_body(d)
    } else {
        number_body(d)
    }
}

/// A word as text: its address letter, then its number.
pub open spec fn word_text(w: Word) -> Seq<char> {
    seq![w.address] + number_text(w.value)
}

/// A word the lexer reads back: an ASCII letter as address and
/// a number as [`lexed_number`] describes it.
pub open spec fn lexable_word(w: Word) -> bool {
    is_ascii_letter(w.address) && lexed_number(w.value)
}

/// The token the lexer makes of a word: its address upper-cased.
pub open spec fn word_token(w: Word) -> TokenView {
    TokenView::Word(Word { address: ascii_upper(w.address), value: w.value })
}

proof fn lemma_number_body(d: Decimal)
    ensures
        ({
            let b = number_body(d);
            &&& b.len() >= 1
            &&& is_ascii_digit(b[0])
            &&& has_digit(b)
            &&& digits_value(b) == abs(d.mantissa as int)
            &&& fraction_digits(b) == d.scale
            &&& lexed_number(d) ==> representable(b)
            &&& body_form(b)
        }),
{
    assert(body_form(Seq::<char>::empty()));
    let a = abs(d.mantissa as int) as nat;
    let p = pow10(d.scale as nat) as nat;
    lemma_pow10_positive(d.scale as nat);
    let b = number_body(d);
    if d.scale == 0 {
        lemma_nat_digits(a);
        assert(p == 1);
        assert(is_ascii_digit(b[0]));
        assert(Seq::<char>::empty() + b =~= b);
        lemma_body_form_digits(Seq::<char>::empty(), b);
    } else {
        let i = nat_digits(a / p);
        let f = padded_digits(a % p, d.scale as nat);
        lemma_nat_digits(a / p);
        lemma_padded_digits(a % p, d.scale as nat);
        let ip = i + seq!['.'];
        assert(ip.drop_last() =~= i);
        assert(ip.last() == '.');
        assert(!is_ascii_digit('.'));
        assert(digits_value(ip) == digits_value(i));
        assert(after_point(ip) == Some(0nat));
        assert(has_digit(ip));
        assert(Seq::<char>::empty() + i =~= i);
        lemma_body_form_digits(Seq::<char>::empty(), i);
        assert(body_form(ip));
        lemma_body_form_digits(ip, f);
        assert(b =~= ip + f);
        lemma_digits_value_append(ip, f);
        lemma_after_point_digits(ip, f);
        lemma_has_digit_append(ip, f);
        vstd::arithmetic::div_mod::lemma_fundamental_div_mod(a as int, p as int);
        vstd::arithmetic::div_mod::lemma_small_mod((a % p) as nat, p);
        assert(f.len() == d.scale);
        assert(digits_value(f) == a % p);
        assert(digits_value(b) == digits_value(ip) * p + digits_value(f));
        assert(digits_value(b) == (a / p) * p + a % p);
        assert(b[0] == i[0]);
        assert(is_ascii_digit(i[0]));
    }
}

/// Where the number of a word's text ends, when the text after it does not
/// continue the number.
proof fn lemma_word_number_end(w: Word, rest: Seq<char>)
    requires
        lexable_word(w),
        rest.len() == 0 || (!is_ascii_digit(rest[0]) && rest[0] != '.'),
    ensures
        ({
            let t = word_text(w);
            let cs = t + rest;
            let bs: int = if w.value.mantissa < 0 { 2 } else { 1 };
            &&& number_end(cs, bs, false) == t.len()
            &&& cs.subrange(bs, t.len() as int) == number_body(w.value)
        }),
{
    let t = word_text(w);
    let cs = t + rest;
    let d = w.value;
    let negative = d.mantissa < 0;
    let b = number_body(d);
    lemma_number_body(d);
    let sign: Seq<char> = if negative {
        seq!['-']
    } else {
        Seq::empty()
    };
    assert(t =~= seq![w.address] + sign + b);
    let bs: int = 1 + sign.len() as int;
    assert forall|k: int| bs <= k < t.len() implies #[trigger] cs[k] == b[k - bs] by {}
    if d.scale == 0 {
        lemma_nat_digits(abs(d.mantissa as int) as nat);
        assert forall|k: int| bs <= k < bs + b.len() implies is_ascii_digit(#[trigger] cs[k]) by {
            assert(cs[k] == b[k - bs]);
        }
        lemma_number_end_digits(cs, bs, b.len() as int, false);
    } else {
        let a = abs(d.mantissa as int) as nat;
        let p = pow10(d.scale as nat) as nat;
        let i = nat_digits(a / p);
        let f = padded_digits(a % p, d.scale as nat);
        lemma_nat_digits(a / p);
        lemma_padded_digits(a % p, d.scale as nat);
        assert forall|k: int| bs <= k < bs + i.len() implies is_ascii_digit(#[trigger] cs[k]) by {
            assert(cs[k] == b[k - bs]);
            assert(b[k - bs] == i[k - bs]);
        }
        lemma_number_end_digits(cs, bs, i.len() as int, false);
        assert(cs[bs + i.len()] == '.');
        assert(!is_ascii_digit('.'));
        let fs: int = bs + i.len() as int + 1;
        assert forall|k: int| fs <= k < fs + f.len() implies is_ascii_digit(#[trigger] cs[k]) by {
            assert(cs[k] == b[k - bs]);
            assert(b[k - bs] == f[k - fs]);
        }
        lemma_number_end_digits(cs, fs, f.len() as int, true);
        assert(fs + f.len() == t.len());
    }
    if rest.len() > 0 {
        assert(cs[t.len() as int] == rest[0]);
    }
    assert(cs.subrange(bs, t.len() as int) =~= b);
}

/// Lexing a word's text followed by text that does not continue its number
/// gives the word, then what the rest lexes to.
pub proof fn lemma_lex_word(w: Word, rest: Seq<char>)
    requires
        lexable_word(w),
        rest.len() == 0 || (!is_ascii_digit(rest[0]) && rest[0] != '.'),
    ensures
        lex_spec(word_text(w) + rest) == prepend(seq![word_token(w)], lex_spec(rest)),
{
    let t = word_text(w);
    let cs = t + rest;
    let d = w.value;
    let negative = d.mantissa < 0;
    let b = number_body(d);
    lemma_number_body(d);
    lemma_word_number_end(w, rest);
    assert(cs[0] == w.address);
    assert(!is_white_space(w.address));
    assert(is_ascii_letter(w.address));
    assert(cs[1] == if negative { '-' } else { b[0] });
    lemma_read_number_exact(b);
    assert(body_value(b, negative) == d);
    lemma_lex_shift(t, rest, 0);
}

/// The words followed each by `sep`, as text.
pub open spec fn words_text(ws: Seq<Word>, sep: Seq<char>) -> Seq<char>
    decreases ws.len(),
{
    if ws.len() == 0 {
        Seq::empty()
    } else {
        word_text(ws[0]) + sep + words_text(ws.drop_first(), sep)
    }
}

/// The tokens the lexer makes of words.
pub open spec fn word_tokens(ws: Seq<Word>) -> Seq<TokenView> {
    ws.map_values(|w: Word| word_token(w))
}

/// The text does not continue a number: it is empty or starts with neither
/// a digit nor a point.
pub open spec fn ends_number(rest: Seq<char>) -> bool {
    rest.len() == 0 || (!is_ascii_digit(rest[0]) && rest[0] != '.')
}

/// Words written out, each followed by the same run of white space, then
/// text that does not continue a number, lex to those words and then what
/// that text lexes to.
pub proof fn law_words_then(ws: Seq<Word>, sep: Seq<char>, tail: Seq<char>)
    requires
        forall|k: int| 0 <= k < ws.len() ==> lexable_word(#[trigger] ws[k]),
        forall|k: int| 0 <= k < sep.len() ==> is_white_space(#[trigger] sep[k]),
        ends_number(tail),
    ensures
        lex_spec(words_text(ws, sep) + tail) == prepend(word_tokens(ws), lex_spec(tail)),
    decreases ws.len(),
{
    if ws.len() == 0 {
        assert(words_text(ws, sep) + tail =~= tail);
        assert(word_tokens(ws) =~= Seq::<TokenView>::empty());
        if let Ok(x) = lex_spec(tail) {
            assert(word_tokens(ws) + x =~= x);
        }
    } else {
        let tail_ws = ws.drop_first();
        assert forall|k: int| 0 <= k < tail_ws.len() implies lexable_word(#[trigger] tail_ws[k]) by {
            assert(tail_ws[k] == ws[k + 1]);
        }
        law_words_then(tail_ws, sep, tail);
        let rest_text = words_text(tail_ws, sep) + tail;
        let rest = sep + rest_text;
        assert(words_text(ws, sep) + tail =~= word_text(ws[0]) + rest);
        if rest.len() > 0 {
            if sep.len() > 0 {
                assert(rest[0] == sep[0]);
                assert(is_white_space(sep[0]));
            } else if tail_ws.len() > 0 {
                assert(rest =~= rest_text);
                assert(rest_text =~= word_text(tail_ws[0]) + (sep + words_text(tail_ws.drop_first(), sep) + tail));
                assert(rest[0] == tail_ws[0].address);
                assert(lexable_word(tail_ws[0]));
            } else {
                assert(words_text(tail_ws, sep) =~= Seq::<char>::empty());
                assert(rest =~= tail);
            }
        }
        lemma_lex_word(ws[0], rest);
        lemma_lex_skips_white_space(sep, rest_text);
        assert(word_tokens(ws) =~= seq![word_token(ws[0])] + word_tokens(tail_ws));
        if let Ok(x) = lex_spec(tail) {
            assert(seq![word_token(ws[0])] + (word_tokens(tail_ws) + x) =~= word_tokens(ws) + x);
        }
    }
}

/// Words written out, each followed by the same run of white space (none
/// at all, as in `G1X10Y5`, or spaces, as in `G1 X10 Y5`), lex back to
/// exactly those words, their addresses upper-cased.
pub proof fn law_words_lex_back(ws: Seq<Word>, sep: Seq<char>)
    requires
        forall|k: int| 0 <= k < ws.len() ==> lexable_word(#[trigger] ws[k]),
        forall|k: int| 0 <= k < sep.len() ==> is_white_space(#[trigger] sep[k]),
    ensures
        lex_spec(words_text(ws, sep)) == Ok::<Seq<TokenView>, LexErrorView>(word_tokens(ws)),
{
    law_words_then(ws, sep, Seq::empty());
    assert(words_text(ws, sep) + Seq::<char>::empty() =~= words_text(ws, sep));
    assert(word_tokens(ws) + Seq::<TokenView>::empty() =~= word_tokens(ws));
}

/// A `;` after the words makes the rest of the line one comment, without
/// its leading and trailing white space.
pub proof fn law_semicolon_comment_ends_line(ws: Seq<Word>, sep: Seq<char>, comment: Seq<char>)
    requires
        forall|k: int| 0 <= k < ws.len() ==> lexable_word(#[trigger] ws[k]),
        forall|k: int| 0 <= k < sep.len() ==> is_white_space(#[trigger] sep[k]),
    ensures
        lex_spec(words_text(ws, sep) + seq![';'] + comment) == Ok::<Seq<TokenView>, LexErrorView>(
            word_tokens(ws).push(TokenView::Comment(trim(comment))),
        ),
{
    let tail = seq![';'] + comment;
    assert(!is_ascii_digit(';'));
    law_words_then(ws, sep, tail);
    assert(words_text(ws, sep) + seq![';'] + comment =~= words_text(ws, sep) + tail);
    assert(tail.subrange(1, tail.len() as int) =~= comment);
    assert(word_tokens(ws) + seq![TokenView::Comment(trim(comment))] =~= word_tokens(ws).push(
        TokenView::Comment(trim(comment)),
    ));
}

/// The compact writing of words and the writing with single spaces between
/// them lex to the same tokens.
pub proof fn law_compact_and_spaced_agree(ws: Seq<Word>)
    requires
        forall|k: int| 0 <= k < ws.len() ==> lexable_word(#[trigger] ws[k]),
    ensures
        lex_spec(words_text(ws, Seq::empty())) == lex_spec(words_text(ws, seq![' '])),
{
    law_words_lex_back(ws, Seq::empty());
    law_words_lex_back(ws, seq![' ']);
}

/// The words with their addresses upper-cased.
pub open spec fn upper_words(ws: Seq<Word>) -> Seq<Word> {
    ws.map_values(|w: Word| Word { address: ascii_upper(w.address), value: w.value })
}

/// Address letters may be written in either case: `g1x10` lexes as
/// `G1X10` does.
pub proof fn law_address_case_ignored(ws: Seq<Word>, sep: Seq<char>)
    requires
        forall|k: int| 0 <= k < ws.len() ==> lexable_word(#[trigger] ws[k]),
        forall|k: int| 0 <= k < sep.len() ==> is_white_space(#[trigger] sep[k]),
    ensures
        lex_spec(words_text(ws, sep)) == lex_spec(words_text(upper_words(ws), sep)),
{
    let up = upper_words(ws);
    assert forall|k: int| 0 <= k < up.len() implies lexable_word(#[trigger] up[k]) by {
        assert(up[k].address == ascii_upper(ws[k].address));
        assert(lexable_word(ws[k]));
    }
    law_words_lex_back(ws, sep);
    law_words_lex_back(up, sep);
    assert(word_tokens(ws) =~= word_tokens(up));
}

// ---------------------------------------------------------------------------
// White space between tokens.
// ---------------------------------------------------------------------------

/// Lexing `cs` from `i` ends inside a comment: it reaches a `;`, or a `(`
/// without its `)`, before the end of the text or an error.
pub open spec fn ends_in_comment(cs: Seq<char>, i: int) -> bool
    decreases cs.len() - i,
{
    if i < 0 || i >= cs.len() {
        false
    } else {
        let c = cs[i];
        if is_white_space(c) || c == '%' {
            ends_in_comment(cs, i + 1)
        } else if c == ';' {
            true
        } else if c == '(' {
            let j = close_paren(cs, i + 1);
            proof {
                crate::lexer::lemma_close_paren_bounds(cs, i + 1);
            }
            if j >= cs.len() {
                true
            } else {
                ends_in_comment(cs, j + 1)
            }
        } else if !is_ascii_letter(c) {
            false
        } else {
            let start = i + 1;
            let signed = start < cs.len() && (cs[start] == '+' || cs[start] == '-');
            let body_start = if signed {
                start + 1
            } else {
                start
            };
            let end = number_end(cs, body_start, false);
            proof {
                crate::lexer::lemma_number_end_bounds(cs, body_start, false);
            }
            if !has_digit(cs.subrange(body_start, end)) {
                false
            } else {
                ends_in_comment(cs, end)
            }
        }
    }
}

/// The text cannot continue a word or its number: it is empty or starts
/// with neither a digit, a point nor a sign.
pub open spec fn starts_apart(q: Seq<char>) -> bool {
    ends_number(q) && (q.len() == 0 || (q[0] != '+' && q[0] != '-'))
}

/// The tokens of `r` followed by what `rest` lexes; `r`'s error if it has one.
pub open spec fn then_lex(
    r: Result<Seq<TokenView>, LexErrorView>,
    rest: Result<Seq<TokenView>, LexErrorView>,
) -> Result<Seq<TokenView>, LexErrorView> {
    match r {
        Ok(ts) => prepend(ts, rest),
        Err(e) => Err(e),
    }
}

proof fn lemma_then_lex_prepend(
    t: Seq<TokenView>,
    x: Result<Seq<TokenView>, LexErrorView>,
    rest: Result<Seq<TokenView>, LexErrorView>,
)
    ensures
        then_lex(prepend(t, x), rest) == prepend(t, then_lex(x, rest)),
{
    if let Ok(ts) = x {
        if let Ok(more) = rest {
            assert(t + ts + more =~= t + (ts + more));
        }
    }
}

proof fn lemma_close_paren_prefix(p: Seq<char>, q: Seq<char>, k: int)
    requires
        0 <= k <= p.len(),
        close_paren(p, k) < p.len(),
    ensures
        close_paren(p + q, k) == close_paren(p, k),
    decreases p.len() - k,
{
    assert((p + q)[k] == p[k]);
    if p[k] != ')' {
        lemma_close_paren_prefix(p, q, k + 1);
    }
}

proof fn lemma_number_end_prefix(p: Seq<char>, q: Seq<char>, k: int, saw_point: bool)
    requires
        0 <= k <= p.len(),
        ends_number(q),
    ensures
        number_end(p + q, k, saw_point) == number_end(p, k, saw_point),
    decreases p.len() - k,
{
    if k < p.len() {
        assert((p + q)[k] == p[k]);
        if is_ascii_digit(p[k]) {
            lemma_number_end_prefix(p, q, k + 1, saw_point);
        } else if p[k] == '.' && !saw_point {
            lemma_number_end_prefix(p, q, k + 1, true);
        }
    } else if q.len() > 0 {
        assert((p + q)[k] == q[0]);
    }
}

/// Lexing `p` followed by text that starts apart from it, from a point of
/// `p` whose lexing does not end inside a comment, gives what `p` lexes to
/// from there, then what the text lexes to.
pub proof fn lemma_lex_concat(p: Seq<char>, q: Seq<char>, i: int)
    requires
        0 <= i <= p.len(),
        !ends_in_comment(p, i),
        starts_apart(q),
    ensures
        lex_from(p + q, i) == then_lex(lex_from(p, i), lex_spec(q)),
    decreases p.len() - i,
{
    let cs = p + q;
    if i == p.len() {
        lemma_lex_shift(p, q, 0);
        assert(lex_from(p, i) == Ok::<Seq<TokenView>, LexErrorView>(Seq::empty()));
        if let Ok(x) = lex_spec(q) {
            assert(Seq::<TokenView>::empty() + x =~= x);
        }
        return;
    }
    let c = p[i];
    assert(cs[i] == c);
    if is_white_space(c) || c == '%' {
        lemma_lex_concat(p, q, i + 1);
    } else if c == '(' {
        crate::lexer::lemma_close_paren_bounds(p, i + 1);
        let j = close_paren(p, i + 1);
        lemma_close_paren_prefix(p, q, i + 1);
        assert(cs.subrange(i + 1, j) =~= p.subrange(i + 1, j));
        lemma_lex_concat(p, q, j + 1);
        lemma_then_lex_prepend(
            seq![TokenView::Comment(trim(p.subrange(i + 1, j)))],
            lex_from(p, j + 1),
            lex_spec(q),
        );
    } else if is_ascii_letter(c) {
        let start = i + 1;
        if start < p.len() {
            assert(cs[start] == p[start]);
        } else if q.len() > 0 {
            assert(cs[start] == q[0]);
        }
        let signed = start < p.len() && (p[start] == '+' || p[start] == '-');
        let body_start = if signed {
            start + 1
        } else {
            start
        };
        lemma_number_end_prefix(p, q, body_start, false);
        crate::lexer::lemma_number_end_bounds(p, body_start, false);
        let end = number_end(p, body_start, false);
        assert(cs.subrange(body_start, end) =~= p.subrange(body_start, end));
        if has_digit(p.subrange(body_start, end)) {
            if signed {
                assert(cs[start] == p[start]);
            }
            lemma_lex_concat(p, q, end);
            let negative = signed && p[start] == '-';
            let w = Word { address: ascii_upper(c), value: body_value(p.subrange(body_start, end), negative) };
            lemma_then_lex_prepend(seq![TokenView::Word(w)], lex_from(p, end), lex_spec(q));
        }
    }
}

/// White space between two pieces of a line changes nothing of its lexing,
/// when the first piece does not end inside a comment and the second
/// cannot continue a word of the first: white space may stand before and
/// after every word and comment.
pub proof fn law_white_space_between_tokens(p: Seq<char>, ws: Seq<char>, q: Seq<char>)
    requires
        forall|k: int| 0 <= k < ws.len() ==> is_white_space(#[trigger] ws[k]),
        !ends_in_comment(p, 0),
        starts_apart(q),
    ensures
        lex_spec(p + ws + q) == lex_spec(p + q),
{
    let wq = ws + q;
    if ws.len() > 0 {
        assert(wq[0] == ws[0]);
        assert(is_white_space(ws[0]));
        assert(!is_ascii_digit(ws[0]));
    } else {
        assert(wq =~= q);
    }
    lemma_lex_concat(p, wq, 0);
    lemma_lex_concat(p, q, 0);
    lemma_lex_skips_white_space(ws, q);
    assert(p + ws + q =~= p + wq);
}

/// The lexer reads every number: it never reports one as invalid.
pub proof fn law_numbers_always_read(cs: Seq<char>, i: int)
    ensures
        !(lex_from(cs, i) is Err && lex_from(cs, i)->Err_0 is InvalidNumber),
    decreases cs.len() - i,
{
    if 0 <= i < cs.len() {
        let c = cs[i];
        if is_white_space(c) || c == '%' {
            law_numbers_always_read(cs, i + 1);
        } else if c == '(' {
            crate::lexer::lemma_close_paren_bounds(cs, i + 1);
            let j = close_paren(cs, i + 1);
            if j < cs.len() {
                law_numbers_always_read(cs, j + 1);
            }
        } else if is_ascii_letter(c) {
            let start = i + 1;
            let signed = start < cs.len() && (cs[start] == '+' || cs[start] == '-');
            let body_start = if signed {
                start + 1
            } else {
                start
            };
            crate::lexer::lemma_number_end_bounds(cs, body_start, false);
            law_numbers_always_read(cs, number_end(cs, body_start, false));
        }
    }
}

/// The pieces of a text, joined.
pub open spec fn joined(ps: Seq<Seq<char>>) -> Seq<char>
    decreases ps.len(),
{
    if ps.len() == 0 {
        Seq::empty()
    } else {
        ps[0] + joined(ps.drop_first())
    }
}

/// The pieces of a text, each followed by its gap.
pub open spec fn spaced(ps: Seq<Seq<char>>, gs: Seq<Seq<char>>) -> Seq<char>
    decreases ps.len(),
{
    if ps.len() == 0 {
        Seq::empty()
    } else {
        ps[0] + gs[0] + spaced(ps.drop_first(), gs.drop_first())
    }
}

/// Every character of `s` is white space.
pub open spec fn all_white_space(s: Seq<char>) -> bool {
    forall|k: int| 0 <= k < s.len() ==> is_white_space(#[trigger] s[k])
}

proof fn lemma_joined_split(ps: Seq<Seq<char>>, j: int)
    requires
        0 <= j <= ps.len(),
    ensures
        joined(ps) == joined(ps.take(j)) + joined(ps.skip(j)),
    decreases ps.len(),
{
    if j == 0 {
        assert(ps.take(0) =~= Seq::<Seq<char>>::empty());
        assert(ps.skip(0) =~= ps);
        assert(Seq::<char>::empty() + joined(ps) =~= joined(ps));
    } else {
        let rest = ps.drop_first();
        lemma_joined_split(rest, j - 1);
        let t = ps.take(j);
        assert(t[0] == ps[0]);
        assert(t.drop_first() =~= rest.take(j - 1));
        assert(ps.skip(j) =~= rest.skip(j - 1));
        assert(joined(ps) =~= joined(t) + joined(ps.skip(j)));
    }
}

proof fn lemma_spaced_starts_apart(ps: Seq<Seq<char>>, gs: Seq<Seq<char>>)
    requires
        gs.len() == ps.len(),
        forall|k: int| 0 <= k < gs.len() ==> all_white_space(#[trigger] gs[k]),
        starts_apart(joined(ps)),
    ensures
        starts_apart(spaced(ps, gs)),
    decreases ps.len(),
{
    if ps.len() > 0 {
        let p0 = ps[0];
        let g0 = gs[0];
        let rest = spaced(ps.drop_first(), gs.drop_first());
        if p0.len() > 0 {
            assert(spaced(ps, gs)[0] == p0[0]);
            assert(joined(ps)[0] == p0[0]);
        } else if g0.len() > 0 {
            assert(all_white_space(gs[0]));
            assert(spaced(ps, gs)[0] == g0[0]);
            assert(is_white_space(g0[0]));
        } else {
            assert(spaced(ps, gs) =~= rest);
            assert(joined(ps) =~= joined(ps.drop_first()));
            assert forall|k: int| 0 <= k < gs.drop_first().len() implies all_white_space(
                #[trigger] gs.drop_first()[k],
            ) by {
                assert(gs.drop_first()[k] == gs[k + 1]);
            }
            lemma_spaced_starts_apart(ps.drop_first(), gs.drop_first());
        }
    }
}

proof fn lemma_ends_in_comment_shift(p: Seq<char>, s: Seq<char>, j: int)
    requires
        0 <= j <= s.len(),
    ensures
        ends_in_comment(p + s, p.len() + j) == ends_in_comment(s, j),
    decreases s.len() - j,
{
    let cs = p + s;
    let i = p.len() + j;
    if j < s.len() {
        assert(cs[i] == s[j]);
        let c = s[j];
        if is_white_space(c) || c == '%' {
            lemma_ends_in_comment_shift(p, s, j + 1);
        } else if c == '(' {
            lemma_close_paren_shift(p, s, j + 1);
            crate::lexer::lemma_close_paren_bounds(s, j + 1);
            let k = close_paren(s, j + 1);
            if k < s.len() {
                lemma_ends_in_comment_shift(p, s, k + 1);
            }
        } else if is_ascii_letter(c) {
            let start = j + 1;
            if start < s.len() {
                assert(cs[i + 1] == s[start]);
            }
            let signed = start < s.len() && (s[start] == '+' || s[start] == '-');
            let body_start = if signed {
                start + 1
            } else {
                start
            };
            lemma_number_end_shift(p, s, body_start, false);
            crate::lexer::lemma_number_end_bounds(s, body_start, false);
            let end = number_end(s, body_start, false);
            assert(cs.subrange(p.len() + body_start, p.len() + end) =~= s.subrange(body_start, end));
            lemma_ends_in_comment_shift(p, s, end);
        }
    }
}

/// Where lexing `p` followed by text apart from it ends inside a comment:
/// only within that text, once `p` has lexed without error.
proof fn lemma_ends_in_comment_concat(p: Seq<char>, q: Seq<char>, i: int)
    requires
        0 <= i <= p.len(),
        !ends_in_comment(p, i),
        starts_apart(q),
    ensures
        ends_in_comment(p + q, i) == (lex_from(p, i) is Ok && ends_in_comment(q, 0)),
    decreases p.len() - i,
{
    let cs = p + q;
    if i == p.len() {
        lemma_ends_in_comment_shift(p, q, 0);
        return;
    }
    let c = p[i];
    assert(cs[i] == c);
    if is_white_space(c) || c == '%' {
        lemma_ends_in_comment_concat(p, q, i + 1);
    } else if c == '(' {
        crate::lexer::lemma_close_paren_bounds(p, i + 1);
        let j = close_paren(p, i + 1);
        lemma_close_paren_prefix(p, q, i + 1);
        lemma_ends_in_comment_concat(p, q, j + 1);
    } else if is_ascii_letter(c) {
        let start = i + 1;
        if start < p.len() {
            assert(cs[start] == p[start]);
        } else if q.len() > 0 {
            assert(cs[start] == q[0]);
        }
        let signed = start < p.len() && (p[start] == '+' || p[start] == '-');
        let body_start = if signed {
            start + 1
        } else {
            start
        };
        lemma_number_end_prefix(p, q, body_start, false);
        crate::lexer::lemma_number_end_bounds(p, body_start, false);
        let end = number_end(p, body_start, false);
        assert(cs.subrange(body_start, end) =~= p.subrange(body_start, end));
        if has_digit(p.subrange(body_start, end)) {
            lemma_ends_in_comment_concat(p, q, end);
        }
    }
}

/// White space inserted at any number of points of a line, each outside a
/// comment and before text that cannot continue a word, changes nothing of
/// its lexing: the line cut into pieces lexes as the pieces with white
/// space after each of them.
pub proof fn law_white_space_at_boundaries(ps: Seq<Seq<char>>, gs: Seq<Seq<char>>)
    requires
        gs.len() == ps.len(),
        forall|k: int| 0 <= k < gs.len() ==> all_white_space(#[trigger] gs[k]),
        forall|k: int| 0 <= k < ps.len() ==> !ends_in_comment(#[trigger] joined(ps.take(k + 1)), 0),
        forall|k: int| 0 <= k < ps.len() ==> starts_apart(#[trigger] joined(ps.skip(k + 1))),
    ensures
        lex_spec(spaced(ps, gs)) == lex_spec(joined(ps)),
    decreases ps.len(),
{
    if ps.len() == 0 {
        return;
    }
    let p0 = ps[0];
    let g0 = gs[0];
    let ps1 = ps.drop_first();
    let gs1 = gs.drop_first();
    let s1 = joined(ps1);
    let s2 = spaced(ps1, gs1);
    assert(ps.take(1) =~= seq![p0]);
    assert(joined(seq![p0]) =~= p0) by {
        assert(seq![p0].drop_first() =~= Seq::<Seq<char>>::empty());
        assert(joined(Seq::<Seq<char>>::empty()) =~= Seq::<char>::empty());
        assert(p0 + Seq::<char>::empty() =~= p0);
    }
    assert(ps.skip(1) =~= ps1);
    assert(!ends_in_comment(joined(ps.take(1)), 0) && starts_apart(joined(ps.skip(1))));
    assert forall|k: int| 0 <= k < gs1.len() implies all_white_space(#[trigger] gs1[k]) by {
        assert(gs1[k] == gs[k + 1]);
    }
    lemma_spaced_starts_apart(ps1, gs1);
    let wq = g0 + s2;
    assert(all_white_space(gs[0]));
    if g0.len() > 0 {
        assert(wq[0] == g0[0]);
        assert(is_white_space(g0[0]));
    } else {
        assert(wq =~= s2);
    }
    lemma_lex_concat(p0, wq, 0);
    lemma_lex_concat(p0, s1, 0);
    lemma_lex_skips_white_space(g0, s2);
    assert(spaced(ps, gs) =~= p0 + wq);
    assert(joined(ps) =~= p0 + s1);
    if lex_spec(p0) is Ok {
        assert forall|k: int| 0 <= k < ps1.len() implies starts_apart(
            #[trigger] joined(ps1.skip(k + 1)),
        ) by {
            let k1 = k + 1;
            assert(starts_apart(joined(ps.skip(k1 + 1))));
            assert(ps1.skip(k + 1) =~= ps.skip(k1 + 1));
        }
        assert forall|k: int| 0 <= k < ps1.len() implies !ends_in_comment(
            #[trigger] joined(ps1.take(k + 1)),
            0,
        ) by {
            let k1 = k + 1;
            assert(!ends_in_comment(joined(ps.take(k1 + 1)), 0));
            let t = ps.take(k1 + 1);
            assert(t[0] == p0);
            assert(t.drop_first() =~= ps1.take(k + 1));
            assert(joined(t) == p0 + joined(ps1.take(k + 1)));
            lemma_joined_split(ps1, k + 1);
            let x = joined(ps1.take(k + 1));
            if x.len() > 0 {
                assert(s1[0] == x[0]);
            }
            assert(starts_apart(x));
            lemma_ends_in_comment_concat(p0, x, 0);
        }
        law_white_space_at_boundaries(ps1, gs1);
    }
}

proof fn lemma_skip_white_space_append(t: Seq<char>, ws: Seq<char>, k: int)
    requires
        0 <= k <= t.len(),
        all_white_space(ws),
    ensures
        skip_white_space(t, k) < t.len() ==> skip_white_space(t + ws, k) == skip_white_space(t, k),
        skip_white_space(t, k) >= t.len() ==> skip_white_space(t + ws, k) == t.len() + ws.len(),
    decreases t.len() + ws.len() - k,
{
    let u = t + ws;
    if k < t.len() {
        assert(u[k] == t[k]);
        if is_white_space(t[k]) {
            lemma_skip_white_space_append(t, ws, k + 1);
        }
    } else {
        assert forall|j: int| t.len() <= j < u.len() implies is_white_space(#[trigger] u[j]) by {
            assert(u[j] == ws[j - t.len()]);
        }
        lemma_skip_tail(u, t.len() as int);
    }
}

proof fn lemma_skip_tail(u: Seq<char>, k: int)
    requires
        0 <= k <= u.len(),
        forall|j: int| k <= j < u.len() ==> is_white_space(#[trigger] u[j]),
    ensures
        skip_white_space(u, k) == u.len(),
    decreases u.len() - k,
{
    if k < u.len() {
        lemma_skip_tail(u, k + 1);
    }
}

proof fn lemma_back_white_space_prefix(t: Seq<char>, ws: Seq<char>, lo: int, k: int)
    requires
        0 <= lo <= k <= t.len(),
    ensures
        back_white_space(t + ws, lo, k) == back_white_space(t, lo, k),
    decreases k - lo,
{
    if lo < k {
        assert((t + ws)[k - 1] == t[k - 1]);
        lemma_back_white_space_prefix(t, ws, lo, k - 1);
    }
}

proof fn lemma_back_white_space_append(t: Seq<char>, ws: Seq<char>, lo: int, k: int)
    requires
        0 <= lo <= t.len() <= k <= t.len() + ws.len(),
        all_white_space(ws),
    ensures
        back_white_space(t + ws, lo, k) == back_white_space(t, lo, t.len() as int),
    decreases k - t.len(),
{
    if k > t.len() {
        assert((t + ws)[k - 1] == ws[k - 1 - t.len()]);
        if lo < k {
            lemma_back_white_space_append(t, ws, lo, k - 1);
        }
    } else {
        lemma_back_white_space_prefix(t, ws, lo, k);
    }
}

proof fn lemma_skip_white_space_bounds(s: Seq<char>, k: int)
    requires
        0 <= k <= s.len(),
    ensures
        k <= skip_white_space(s, k) <= s.len(),
    decreases s.len() - k,
{
    if k < s.len() && is_white_space(s[k]) {
        lemma_skip_white_space_bounds(s, k + 1);
    }
}

proof fn lemma_back_white_space_bounds(s: Seq<char>, lo: int, k: int)
    requires
        lo <= k,
    ensures
        lo <= back_white_space(s, lo, k) <= k,
    decreases k - lo,
{
    if lo < k <= s.len() && is_white_space(s[k - 1]) {
        lemma_back_white_space_bounds(s, lo, k - 1);
    }
}

proof fn lemma_trim_append(t: Seq<char>, ws: Seq<char>)
    requires
        all_white_space(ws),
    ensures
        trim(t + ws) == trim(t),
{
    let u = t + ws;
    lemma_skip_white_space_append(t, ws, 0);
    lemma_skip_white_space_bounds(t, 0);
    let a = skip_white_space(t, 0);
    if a < t.len() {
        lemma_back_white_space_append(t, ws, a, u.len() as int);
        lemma_back_white_space_bounds(t, a, t.len() as int);
        assert(u.subrange(a, back_white_space(t, a, t.len() as int)) =~= t.subrange(
            a,
            back_white_space(t, a, t.len() as int),
        ));
    } else {
        assert(trim(u) =~= Seq::<char>::empty());
        assert(trim(t) =~= Seq::<char>::empty());
    }
}

proof fn lemma_close_paren_unclosed(t: Seq<char>, ws: Seq<char>, k: int)
    requires
        0 <= k <= t.len(),
        close_paren(t, k) >= t.len(),
        all_white_space(ws),
    ensures
        close_paren(t + ws, k) >= t.len() + ws.len(),
    decreases t.len() + ws.len() - k,
{
    let u = t + ws;
    if k < u.len() {
        if k < t.len() {
            assert(u[k] == t[k]);
            lemma_close_paren_unclosed(t, ws, k + 1);
        } else {
            assert(u[k] == ws[k - t.len()]);
            assert(is_white_space(ws[k - t.len()]));
            lemma_close_paren_tail(u, k + 1, t.len() as int, ws);
        }
    }
}

proof fn lemma_close_paren_tail(u: Seq<char>, k: int, from: int, ws: Seq<char>)
    requires
        0 <= from <= k <= u.len(),
        u.len() - from == ws.len(),
        all_white_space(ws),
        forall|j: int| from <= j < u.len() ==> u[j] == ws[j - from],
    ensures
        close_paren(u, k) == u.len(),
    decreases u.len() - k,
{
    if k < u.len() {
        assert(u[k] == ws[k - from]);
        assert(is_white_space(ws[k - from]));
        lemma_close_paren_tail(u, k + 1, from, ws);
    }
}

proof fn lemma_lex_trailing(t: Seq<char>, ws: Seq<char>, i: int)
    requires
        0 <= i <= t.len(),
        all_white_space(ws),
    ensures
        lex_from(t + ws, i) == lex_from(t, i),
    decreases t.len() - i,
{
    let u = t + ws;
    if i == t.len() {
        lemma_lex_shift(t, ws, 0);
        lemma_lex_skips_white_space(ws, Seq::empty());
        assert(ws + Seq::<char>::empty() =~= ws);
        return;
    }
    let c = t[i];
    assert(u[i] == c);
    if is_white_space(c) || c == '%' {
        lemma_lex_trailing(t, ws, i + 1);
    } else if c == ';' {
        assert(u.subrange(i + 1, u.len() as int) =~= t.subrange(i + 1, t.len() as int) + ws);
        lemma_trim_append(t.subrange(i + 1, t.len() as int), ws);
    } else if c == '(' {
        crate::lexer::lemma_close_paren_bounds(t, i + 1);
        let j = close_paren(t, i + 1);
        if j < t.len() {
            lemma_close_paren_prefix(t, ws, i + 1);
            assert(u.subrange(i + 1, j) =~= t.subrange(i + 1, j));
            lemma_lex_trailing(t, ws, j + 1);
        } else {
            lemma_close_paren_unclosed(t, ws, i + 1);
            crate::lexer::lemma_close_paren_bounds(u, i + 1);
        }
    } else if is_ascii_letter(c) {
        let start = i + 1;
        if start < t.len() {
            assert(u[start] == t[start]);
        } else if ws.len() > 0 {
            assert(u[start] == ws[0]);
            assert(is_white_space(ws[0]));
        }
        let signed = start < t.len() && (t[start] == '+' || t[start] == '-');
        let body_start = if signed {
            start + 1
        } else {
            start
        };
        if ws.len() > 0 {
            assert(is_white_space(ws[0]));
        }
        lemma_number_end_prefix(t, ws, body_start, false);
        crate::lexer::lemma_number_end_bounds(t, body_start, false);
        let end = number_end(t, body_start, false);
        assert(u.subrange(body_start, end) =~= t.subrange(body_start, end));
        assert(u.subrange(start, end) =~= t.subrange(start, end));
        lemma_lex_trailing(t, ws, end);
    }
}

/// White space at the end of a line changes nothing of its lexing, also
/// after a `;` comment, whose text is trimmed.
pub proof fn law_trailing_white_space(t: Seq<char>, ws: Seq<char>)
    requires
        all_white_space(ws),
    ensures
        lex_spec(t + ws) == lex_spec(t),
{
    lemma_lex_trailing(t, ws, 0);
}

/// A number written with a point after its digits, as in `X10.`, lexes as
/// the digits alone: the point is part of the number and changes nothing
/// of its value.
pub proof fn law_trailing_point(a: char, ds: Seq<char>, rest: Seq<char>)
    requires
        is_ascii_letter(a),
        ds.len() > 0,
        all_digits(ds),
        ends_number(rest),
    ensures
        lex_spec(seq![a] + ds + seq!['.'] + rest) == lex_spec(seq![a] + ds + rest),
{
    let n = ds.len() as int;
    let p1 = seq![a] + ds + seq!['.'];
    let p2 = seq![a] + ds;
    let cs1 = p1 + rest;
    let cs2 = p2 + rest;
    assert(seq![a] + ds + seq!['.'] + rest =~= cs1);
    assert(seq![a] + ds + rest =~= cs2);
    assert(cs1[0] == a && cs2[0] == a);
    assert(!is_white_space(a));
    assert forall|i: int| 1 <= i < 1 + n implies is_ascii_digit(#[trigger] cs1[i]) by {
        assert(cs1[i] == ds[i - 1]);
    }
    assert forall|i: int| 1 <= i < 1 + n implies is_ascii_digit(#[trigger] cs2[i]) by {
        assert(cs2[i] == ds[i - 1]);
    }
    assert(cs1[1] == ds[0] && cs2[1] == ds[0]);
    assert(is_ascii_digit(ds[0]));
    lemma_number_end_digits(cs1, 1, n, false);
    lemma_number_end_digits(cs2, 1, n, false);
    assert(cs1[1 + n] == '.');
    if rest.len() > 0 {
        assert(cs1[2 + n] == rest[0]);
        assert(cs2[1 + n] == rest[0]);
    }
    assert(is_ascii_digit(cs1[1 + n]) == false);
    assert(number_end(cs1, 1 + n, false) == number_end(cs1, 2 + n, true));
    assert(number_end(cs1, 2 + n, true) == 2 + n);
    assert(number_end(cs1, 1, false) == 2 + n);
    assert(number_end(cs2, 1, false) == 1 + n);
    let b1 = cs1.subrange(1, 2 + n);
    let b2 = cs2.subrange(1, 1 + n);
    assert(b2 =~= ds);
    assert(b1 =~= ds.push('.'));
    assert(b1.drop_last() =~= ds);
    assert(is_ascii_digit(ds.last()));
    assert(has_digit(ds));
    assert(!is_ascii_digit('.'));
    assert(has_digit(b1));
    assert(crate::lexer::read_number(b1) == crate::lexer::NumberRead {
        point: true,
        ..crate::lexer::read_number(ds)
    });
    assert(body_value(b1, false) == body_value(b2, false));
    lemma_lex_shift(p1, rest, 0);
    lemma_lex_shift(p2, rest, 0);
    assert(p1.len() == 2 + n && p2.len() == 1 + n);
}

proof fn lemma_trimmed_fraction(fp: nat, width: nat)
    requires
        fp < pow10(width),
    ensures
        ({
            let (f, w) = trimmed_fraction(fp, width);
            &&& w <= width
            &&& f * pow10((width - w) as nat) == fp
            &&& f < pow10(w)
        }),
    decreases width,
{
    if width > 0 && fp % 10 == 0 {
        let q = fp / 10;
        assert(pow10(width) == 10 * pow10((width - 1) as nat));
        assert(fp == 10 * q);
        lemma_trimmed_fraction(q, (width - 1) as nat);
        let (f, w) = trimmed_fraction(q, (width - 1) as nat);
        let e = (width - 1 - w) as nat;
        assert((width - w) as nat == e + 1);
        assert(pow10((width - w) as nat) == 10 * pow10(e));
        assert(f * pow10((width - w) as nat) == fp) by (nonlinear_arith)
            requires
                f * pow10(e) == q,
                pow10((width - w) as nat) == 10 * pow10(e),
                fp == 10 * q,
        ;
    } else {
        assert(fp * 1 == fp);
    }
}

/// The text of every decimal starts with a minus sign exactly when its
/// mantissa is negative: `-0.5` keeps its sign.
pub proof fn law_text_sign(d: Decimal)
    ensures
        d.spec_text().len() > 0,
        d.spec_text()[0] == '-' <==> d.mantissa < 0,
{
    let a = abs(d.mantissa as int) as nat;
    lemma_pow10_positive(d.scale as nat);
    let p = pow10(d.scale as nat) as nat;
    let ip = a / p;
    lemma_nat_digits(ip);
    let t = d.spec_text();
    if d.mantissa >= 0 {
        assert(t[0] == nat_digits(ip)[0]);
        assert(is_ascii_digit(nat_digits(ip)[0]));
        assert(!is_ascii_digit('-'));
    }
}

/// The text of a decimal as the word of a shorter decimal: the same sign,
/// the trailing zeros of the fraction removed, and the same value.
proof fn lemma_text_as_number(d: Decimal) -> (d2: Decimal)
    ensures
        d.spec_text() == number_text(d2),
        d2.scale <= d.scale,
        (d2.mantissa < 0) == (d.mantissa < 0),
        abs(d2.mantissa as int) * pow10((d.scale - d2.scale) as nat) == abs(d.mantissa as int),
        same_value(d2, d),
        lexed_number(d) ==> lexed_number(d2),
{
    let s = d.scale as nat;
    let a = abs(d.mantissa as int) as nat;
    lemma_pow10_positive(s);
    let p = pow10(s) as nat;
    let ip = a / p;
    let fp = a % p;
    vstd::arithmetic::div_mod::lemma_fundamental_div_mod(a as int, p as int);
    lemma_trimmed_fraction(fp, s);
    let (f, w) = trimmed_fraction(fp, s);
    lemma_pow10_positive(w);
    lemma_pow10_positive((s - w) as nat);
    lemma_pow10_add(w, (s - w) as nat);
    assert(w + (s - w) as nat == s);
    let pw = pow10(w);
    let pr = pow10((s - w) as nat);
    let a2: nat = if fp == 0 {
        ip
    } else {
        ip * pw as nat + f
    };
    let w2: nat = if fp == 0 {
        0
    } else {
        w
    };
    assert(a2 * pow10((s - w2) as nat) == a) by {
        if fp == 0 {
            assert(a == p * ip);
            assert(ip * p == a) by (nonlinear_arith)
                requires
                    a == p * ip,
            ;
        } else {
            assert(a2 * pr == a) by (nonlinear_arith)
                requires
                    a2 == ip * pw + f,
                    f * pr == fp,
                    p == pw * pr,
                    a == p * ip + fp,
            ;
        }
    }
    lemma_pow10_positive((s - w2) as nat);
    assert(a2 <= a) by (nonlinear_arith)
        requires
            a2 * pow10((s - w2) as nat) == a,
            pow10((s - w2) as nat) >= 1,
    ;
    assert(d.mantissa < 0 ==> a2 > 0) by {
        if d.mantissa < 0 && a2 == 0 {
            let q = pow10((s - w2) as nat);
            assert(a2 * q == 0) by (nonlinear_arith)
                requires
                    a2 == 0,
            ;
        }
    }
    let m2: int = if d.mantissa < 0 {
        -(a2 as int)
    } else {
        a2 as int
    };
    let d2 = Decimal { mantissa: m2 as i128, scale: w2 as u32 };
    assert(abs(d2.mantissa as int) == a2);
    let sign: Seq<char> = if d.mantissa < 0 {
        seq!['-']
    } else {
        Seq::empty()
    };
    if fp == 0 {
        assert(number_body(d2) == nat_digits(ip));
        assert(d.spec_text() == sign + nat_digits(ip));
    } else {
        assert(w >= 1) by {
            if w == 0 {
                assert(pow10(0) == 1);
                assert(f == 0);
                assert(f * pr == 0) by (nonlinear_arith)
                    requires
                        f == 0,
                ;
            }
        }
        assert(a2 == pw * ip + f) by (nonlinear_arith)
            requires
                a2 == ip * pw + f,
        ;
        vstd::arithmetic::div_mod::lemma_fundamental_div_mod_converse(a2 as int, pw as int, ip as int, f as int);
        assert(number_body(d2) == nat_digits(ip) + seq!['.'] + padded_digits(f, w));
        assert(d.spec_text() == sign + nat_digits(ip) + seq!['.'] + padded_digits(f, w));
    }
    assert(d.spec_text() =~= number_text(d2));
    assert(crate::decimal::sum_scale(d2, d) == s);
    assert(pow10(0) == 1);
    assert(d2.mantissa * pow10((s - w2) as nat) == d.mantissa * pow10(0)) by (nonlinear_arith)
        requires
            a2 * pow10((s - w2) as nat) == a,
            d2.mantissa == (if d.mantissa < 0 { -(a2 as int) } else { a2 as int }),
            a == abs(d.mantissa as int),
            pow10(0) == 1,
    ;
    d2
}

/// The text of every decimal writes its value: after the minus sign of a
/// negative one come digits with at most one point, whose digits read as
/// one integer give the magnitude of the mantissa once scaled by the digits
/// missing after the point.
pub proof fn law_text_value(d: Decimal)
    ensures
        ({
            let t = d.spec_text();
            let body = if d.mantissa < 0 {
                t.drop_first()
            } else {
                t
            };
            &&& body_form(body)
            &&& has_digit(body)
            &&& fraction_digits(body) <= d.scale
            &&& digits_value(body) * pow10((d.scale - fraction_digits(body)) as nat) == abs(
                d.mantissa as int,
            )
        }),
{
    let d2 = lemma_text_as_number(d);
    lemma_number_body(d2);
    let t = d.spec_text();
    if d.mantissa < 0 {
        assert(t.drop_first() =~= number_body(d2));
    }
}

/// The text of a decimal that the lexer can hold reads back as the same
/// value: lexing a word whose number is that text gives one word whose
/// value equals the decimal's.
pub proof fn law_text_reads_back(d: Decimal)
    requires
        lexed_number(d),
    ensures
        ({
            let r = lex_spec(seq!['X'] + d.spec_text());
            &&& r is Ok
            &&& r->Ok_0.len() == 1
            &&& r->Ok_0[0] is Word
            &&& r->Ok_0[0]->Word_0.address == 'X'
            &&& same_value(r->Ok_0[0]->Word_0.value, d)
        }),
{
    let d2 = lemma_text_as_number(d);
    let word = Word { address: 'X', value: d2 };
    assert(seq!['X'] + d.spec_text() =~= word_text(word));
    assert(is_ascii_letter('X'));
    lemma_lex_word(word, Seq::empty());
    assert(word_text(word) + Seq::<char>::empty() =~= word_text(word));
    assert(lex_spec(Seq::<char>::empty()) == Ok::<Seq<TokenView>, LexErrorView>(Seq::empty()));
    assert(ascii_upper('X') == 'X');
    assert(seq![word_token(word)] + Seq::<TokenView>::empty() =~= seq![word_token(word)]);
}

} // verus!
