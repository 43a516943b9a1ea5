//! Characters and strings: classification, trimming, line splitting and
//! string building.

use vstd::prelude::*;

verus! {

/// The character of a decimal digit.
pub open spec fn digit_char(d: nat) -> char {
    ((d + 48) as u8) as char
}

/// The Unicode `White_Space` characters: tab through carriage return, space,
/// next line, no-break space, ogham space mark, the spaces U+2000 to U+200A,
/// line and paragraph separators, narrow no-break space, medium mathematical
/// space and ideographic space.
pub open spec fn is_white_space(c: char) -> bool {
    let u: u32 = c as u32;
    ||| 0x9 <= u <= 0xd
    ||| u == 0x20
    ||| u == 0x85
    ||| u == 0xa0
    ||| u == 0x1680
    ||| 0x2000 <= u <= 0x200a
    ||| u == 0x2028
    ||| u == 0x2029
    ||| u == 0x202f
    ||| u == 0x205f
    ||| u == 0x3000
}

/// An ASCII letter.
pub open spec fn is_ascii_letter(c: char) -> bool {
    ('A' as u32 <= c as u32 <= 'Z' as u32) || ('a' as u32 <= c as u32 <= 'z' as u32)
}

/// An ASCII digit.
pub open spec fn is_ascii_digit(c: char) -> bool {
    '0' as u32 <= c as u32 <= '9' as u32
}

/// An ASCII upper-case letter.
pub open spec fn is_ascii_upper(c: char) -> bool {
    'A' as u32 <= c as u32 <= 'Z' as u32
}

/// The upper-case form of an ASCII letter; other characters unchanged.
pub open spec fn ascii_upper(c: char) -> char {
    if 'a' as u32 <= c as u32 <= 'z' as u32 {
        ((c as u32 - 32) as u8) as char
    } else {
        c
    }
}

/// The value of an ASCII digit.
pub open spec fn digit_value(c: char) -> nat {
    (c as u32 - '0' as u32) as nat
}

/// Whether `c` is white space, as [`is_white_space`] says.
pub fn white_space(c: char) -> (r: bool)
    ensures
        r == is_white_space(c),
{
    let u: u32 = c as u32;
    (0x9 <= u && u <= 0xd) || u == 0x20 || u == 0x85 || u == 0xa0 || u == 0x1680 || (0x2000 <= u
        && u <= 0x200a) || u == 0x2028 || u == 0x2029 || u == 0x202f || u == 0x205f || u == 0x3000
}

/// Whether `c` is an ASCII letter.
pub fn ascii_letter(c: char) -> (r: bool)
    ensures
        r == is_ascii_letter(c),
{
    let u: u32 = c as u32;
    (65 <= u && u <= 90) || (97 <= u && u <= 122)
}

/// Whether `c` is an ASCII digit.
pub fn ascii_digit(c: char) -> (r: bool)
    ensures
        r == is_ascii_digit(c),
{
    let u: u32 = c as u32;
    48 <= u && u <= 57
}

/// The upper-case form of an ASCII letter; other characters unchanged.
pub fn to_ascii_upper(c: char) -> (r: char)
    ensures
        r == ascii_upper(c),
{
    let u: u32 = c as u32;
    if 97 <= u && u <= 122 {
        ((u - 32) as u8) as char
    } else {
        c
    }
}

/// The first index at or after `k` that does not hold white space.
pub open spec fn skip_white_space(s: Seq<char>, k: int) -> int
    decreases s.len() - k,
{
    if 0 <= k < s.len() && is_white_space(s[k]) {
        skip_white_space(s, k + 1)
    } else {
        k
    }
}

/// Moving back from `k`, but not below `lo`, past white space.
pub open spec fn back_white_space(s: Seq<char>, lo: int, k: int) -> int
    decreases k - lo,
{
    if lo < k <= s.len() && is_white_space(s[k - 1]) {
        back_white_space(s, lo, k - 1)
    } else {
        k
    }
}

/// `s` without its leading and trailing white space.
pub open spec fn trim(s: Seq<char>) -> Seq<char> {
    let a = skip_white_space(s, 0);
    s.subrange(a, back_white_space(s, a, s.len() as int))
}

/// The characters `cs[start..end]` without leading and trailing white space,
/// as a string.
pub fn trimmed_string(cs: &[char], start: usize, end: usize) -> (r: String)
    requires
        start <= end <= cs@.len(),
    ensures
        r@ == trim(cs@.subrange(start as int, end as int)),
{
    let ghost t = cs@.subrange(start as int, end as int);
    let mut a: usize = start;
    while a < end && white_space(cs[a])
        invariant
            start <= a <= end <= cs@.len(),
            t == cs@.subrange(start as int, end as int),
            skip_white_space(t, (a - start) as int) == skip_white_space(t, 0),
        decreases end - a,
    {
        a = a + 1;
    }
    let mut b: usize = end;
    while b > a && white_space(cs[b - 1])
        invariant
            start <= a <= b <= end <= cs@.len(),
            t == cs@.subrange(start as int, end as int),
            skip_white_space(t, 0) == a - start,
            back_white_space(t, (a - start) as int, (b - start) as int) == back_white_space(
                t,
                (a - start) as int,
                t.len() as int,
            ),
        decreases b - a,
    {
        b = b - 1;
    }
    let r = string_of(cs, a, b);
    assert(r@ =~= trim(t));
    r
}

/// The characters `cs[start..end]` as a string.
pub fn string_of(cs: &[char], start: usize, end: usize) -> (r: String)
    requires
        start <= end <= cs@.len(),
    ensures
        r@ == cs@.subrange(start as int, end as int),
{
    let mut r = String::new();
    let mut i: usize = start;
    while i < end
        invariant
            start <= i <= end <= cs@.len(),
            r@ == cs@.subrange(start as int, i as int),
        decreases end - i,
    {
        push_char(&mut r, cs[i]);
        i = i + 1;
        assert(r@ =~= cs@.subrange(start as int, i as int));
    }
    r
}

/// The characters of a string slice.
pub fn chars_of(s: &str) -> (r: Vec<char>)
    ensures
        r@ == s@,
{
    let mut r: Vec<char> = Vec::new();
    for c in it: s.chars()
        invariant
            r@ == it.seq().take(it.index() as int),
    {
        r.push(c);
    }
    r
}

/// The first index at or after `k` that holds a line feed, or the length.
pub open spec fn next_newline(s: Seq<char>, k: int) -> int
    decreases s.len() - k,
{
    if k >= s.len() {
        s.len() as int
    } else if s[k] == '\n' {
        k
    } else {
        next_newline(s, k + 1)
    }
}

/// The lines of `s` from index `start` on. A line ends at a line feed, which
/// is not part of it, nor is a carriage return just before that line feed.
/// The last line needs no line feed; text that ends with a line feed has no
/// empty line after it.
pub open spec fn lines_from(s: Seq<char>, start: int) -> Seq<Seq<char>>
    decreases s.len() - start,
{
    if start < 0 || start >= s.len() {
        Seq::empty()
    } else {
        let k = next_newline(s, start);
        proof {
            lemma_next_newline_bounds(s, start);
        }
        if k >= s.len() {
            seq![s.subrange(start, s.len() as int)]
        } else {
            let line = if k > start && s[k - 1] == '\r' {
                s.subrange(start, k - 1)
            } else {
                s.subrange(start, k)
            };
            seq![line] + lines_from(s, k + 1)
        }
    }
}

/// The lines of `s`.
pub open spec fn lines(s: Seq<char>) -> Seq<Seq<char>> {
    lines_from(s, 0)
}

pub proof fn lemma_next_newline_bounds(s: Seq<char>, k: int)
    requires
        0 <= k <= s.len(),
    ensures
        k <= next_newline(s, k) <= s.len(),
        next_newline(s, k) < s.len() ==> s[next_newline(s, k)] == '\n',
    decreases s.len() - k,
{
    if k < s.len() && s[k] != '\n' {
        lemma_next_newline_bounds(s, k + 1);
    }
}

/// The views of a sequence of character vectors.
pub open spec fn char_vec_views(v: Seq<Vec<char>>) -> Seq<Seq<char>> {
    v.map_values(|l: Vec<char>| l@)
}

/// Splits text into its lines, as [`lines`] says.
pub fn split_lines(cs: &[char]) -> (r: Vec<Vec<char>>)
    ensures
        char_vec_views(r@) == lines(cs@),
{
    let mut r: Vec<Vec<char>> = Vec::new();
    let mut start: usize = 0;
    while start < cs.len()
        invariant
            start <= cs@.len(),
            char_vec_views(r@) + lines_from(cs@, start as int) == lines(cs@),
        decreases cs@.len() - start,
    {
        let mut k: usize = start;
        while k < cs.len() && cs[k] != '\n'
            invariant
                start <= k <= cs@.len(),
                next_newline(cs@, k as int) == next_newline(cs@, start as int),
            decreases cs@.len() - k,
        {
            k = k + 1;
        }
        let ghost before = char_vec_views(r@);
        let end: usize = if k < cs.len() && k > start && cs[k - 1] == '\r' {
            k - 1
        } else {
            k
        };
        let line = copy_range(cs, start, end);
        r.push(line);
        proof {
            assert(char_vec_views(r@) =~= before.push(cs@.subrange(start as int, end as int)));
        }
        if k < cs.len() {
            start = k + 1;
        } else {
            start = cs.len();
        }
        proof {
            assert(lines_from(cs@, start as int) == Seq::<Seq<char>>::empty() || k < cs@.len());
        }
    }
    assert(char_vec_views(r@) =~= lines(cs@));
    r
}

/// A copy of `cs[start..end]`.
pub fn copy_range(cs: &[char], start: usize, end: usize) -> (r: Vec<char>)
    requires
        start <= end <= cs@.len(),
    ensures
        r@ == cs@.subrange(start as int, end as int),
{
    let mut r: Vec<char> = Vec::new();
    let mut i: usize = start;
    while i < end
        invariant
            start <= i <= end <= cs@.len(),
            r@ == cs@.subrange(start as int, i as int),
        decreases end - i,
    {
        r.push(cs[i]);
        i = i + 1;
        assert(r@ =~= cs@.subrange(start as int, i as int));
    }
    r
}

/// Appends one character to a string with `String::push`, which, as its
/// documentation says, appends the character to the end of the string.
#[verifier::external_body]
pub(crate) fn push_char(s: &mut String, c: char)
    ensures
        final(s)@ == old(s)@.push(c),
{
    s.push(c)
}

} // verus!
