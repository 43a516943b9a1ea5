//! The words of a line grouped by address letter, each group in the order of
//! the line, the groups ordered by letter.

use vstd::prelude::*;

use crate::decimal::Decimal;
use crate::lexer::{token_views, Token, TokenView};
use crate::text::is_ascii_upper;

verus! {

/// The values of the words with address `c`, in the order of `ts`.
pub open spec fn words_of(ts: Seq<TokenView>, c: char) -> Seq<Decimal>
    decreases ts.len(),
{
    if ts.len() == 0 {
        Seq::empty()
    } else {
        let rest = words_of(ts.drop_last(), c);
        match ts.last() {
            TokenView::Word(w) => if w.address == c {
                rest.push(w.value)
            } else {
                rest
            },
            TokenView::Comment(_) => rest,
        }
    }
}

/// For each upper-case address that occurs in `ts`, its values in order.
pub open spec fn words_map(ts: Seq<TokenView>) -> Map<char, Seq<Decimal>> {
    Map::new(|c: char| is_ascii_upper(c) && words_of(ts, c).len() > 0, |c: char| words_of(ts, c))
}

/// The values of address `c`, empty when it has none.
pub open spec fn values(w: Map<char, Seq<Decimal>>, c: char) -> Seq<Decimal> {
    if w.contains_key(c) {
        w[c]
    } else {
        Seq::empty()
    }
}

/// The last value of address `c`, if it has one.
pub open spec fn last_value(w: Map<char, Seq<Decimal>>, c: char) -> Option<Decimal> {
    if w.contains_key(c) && w[c].len() > 0 {
        Some(w[c].last())
    } else {
        None
    }
}

/// The upper-case letter with index `k` from `A`.
pub open spec fn letter(k: int) -> char {
    ((k + 65) as u8) as char
}

/// The index from `A` of an upper-case letter.
pub open spec fn letter_index(c: char) -> int {
    c as u32 - 65
}

/// Word values grouped by upper-case address letter, in one slot per
/// letter from `A` to `Z`; each slot holds the values of its letter in the
/// order of the line.
#[derive(Debug)]
pub struct WordMap {
    slots: Vec<Vec<Decimal>>,
}

impl WordMap {
    #[verifier::type_invariant]
    spec fn inv(self) -> bool {
        self.slots.len() == 26
    }

    /// The values of the slot of an upper-case letter.
    closed spec fn slot(self, c: char) -> Seq<Decimal> {
        self.slots@[letter_index(c)]@
    }
}

/// A copy of a list of values.
fn copy_values(v: &Vec<Decimal>) -> (r: Vec<Decimal>)
    ensures
        r@ == v@,
{
    let mut r: Vec<Decimal> = Vec::new();
    let mut i: usize = 0;
    while i < v.len()
        invariant
            i <= v@.len(),
            r@ == v@.take(i as int),
        decreases v@.len() - i,
    {
        r.push(v[i]);
        i = i + 1;
        assert(r@ =~= v@.take(i as int));
    }
    assert(v@.take(v@.len() as int) =~= v@);
    r
}

impl Clone for WordMap {
    fn clone(&self) -> (r: Self)
        ensures
            r@ == self@,
    {
        proof {
            use_type_invariant(self);
        }
        let mut slots: Vec<Vec<Decimal>> = Vec::new();
        let mut l: usize = 0;
        while l < 26
            invariant
                l <= 26,
                self.slots@.len() == 26,
                slots@.len() == l,
                forall|k: int| 0 <= k < l ==> (#[trigger] slots@[k])@ == self.slots@[k]@,
            decreases 26 - l,
        {
            slots.push(copy_values(&self.slots[l]));
            l = l + 1;
        }
        let r = WordMap { slots };
        assert(r@ =~= self@);
        r
    }
}

impl View for WordMap {
    type V = Map<char, Seq<Decimal>>;

    closed spec fn view(&self) -> Map<char, Seq<Decimal>> {
        Map::new(|c: char| is_ascii_upper(c) && self.slot(c).len() > 0, |c: char| self.slot(c))
    }
}

proof fn lemma_letter_roundtrip(c: char)
    requires
        is_ascii_upper(c),
    ensures
        letter(letter_index(c)) == c,
        0 <= letter_index(c) < 26,
{
}

impl WordMap {
    /// The values of an address, if it has any.
    pub fn get(&self, address: char) -> (r: Option<&Vec<Decimal>>)
        ensures
            match r {
                Some(v) => self@.contains_key(address) && v@ == self@[address],
                None => !self@.contains_key(address),
            },
    {
        proof {
            use_type_invariant(self);
        }
        let u: u32 = address as u32;
        if u < 65 || u > 90 {
            return None;
        }
        let slot = &self.slots[(u - 65) as usize];
        if slot.len() == 0 {
            None
        } else {
            Some(slot)
        }
    }

    /// Whether an address has a value.
    pub fn contains_key(&self, address: char) -> (r: bool)
        ensures
            r == self@.contains_key(address),
    {
        self.get(address).is_some()
    }

    /// The last value of an address, if it has one.
    pub fn last(&self, address: char) -> (r: Option<Decimal>)
        ensures
            r == last_value(self@, address),
    {
        match self.get(address) {
            Some(v) => Some(v[v.len() - 1]),
            None => None,
        }
    }

    /// The addresses that have values, in alphabetical order.
    pub fn addresses(&self) -> (r: Vec<char>)
        ensures
            forall|i: int, j: int| 0 <= i < j < r@.len() ==> (#[trigger] r@[i] as u32) < (#[trigger] r@[j] as u32),
            forall|c: char| r@.contains(c) <==> self@.contains_key(c),
    {
        proof {
            use_type_invariant(self);
        }
        let mut r: Vec<char> = Vec::new();
        let mut l: u32 = 0;
        while l < 26
            invariant
                l <= 26,
                self.slots@.len() == 26,
                forall|i: int, j: int| 0 <= i < j < r@.len() ==> (#[trigger] r@[i] as u32) < (#[trigger] r@[j] as u32),
                forall|i: int| 0 <= i < r@.len() ==> (#[trigger] r@[i] as u32) < l + 65,
                forall|c: char| r@.contains(c) <==> (self@.contains_key(c) && (c as u32) < l + 65),
            decreases 26 - l,
        {
            let c: char = ((l + 65) as u8) as char;
            let ghost before = r@;
            if self.slots[l as usize].len() > 0 {
                r.push(c);
            }
            proof {
                assert(c == letter(l as int));
                assert(letter_index(c) == l);
                assert forall|d: char| r@.contains(d) <==> (self@.contains_key(d) && (d as u32) < l + 66) by {
                    if r@.contains(d) {
                        let k = choose|k: int| 0 <= k < r@.len() && r@[k] == d;
                        if k < before.len() {
                            assert(before[k] == d);
                            assert(before.contains(d));
                        } else {
                            assert(d == c);
                        }
                    }
                    if self@.contains_key(d) && (d as u32) < l + 66 {
                        if (d as u32) < l + 65 {
                            assert(before.contains(d));
                            let k = choose|k: int| 0 <= k < before.len() && before[k] == d;
                            assert(r@[k] == d);
                        } else {
                            lemma_letter_roundtrip(d);
                            assert(d == c);
                            assert(r@[r@.len() - 1] == d);
                        }
                    }
                }
            }
            l = l + 1;
        }
        proof {
            assert forall|c: char| self@.contains_key(c) implies (c as u32) < 91 by {}
        }
        r
    }

    /// No words at all.
    pub fn new() -> (r: WordMap)
        ensures
            r@ == Map::<char, Seq<Decimal>>::empty(),
    {
        let mut slots: Vec<Vec<Decimal>> = Vec::new();
        let mut l: u32 = 0;
        while l < 26
            invariant
                l <= 26,
                slots@.len() == l,
                forall|k: int| 0 <= k < l ==> (#[trigger] slots@[k])@.len() == 0,
            decreases 26 - l,
        {
            slots.push(Vec::new());
            l = l + 1;
        }
        let r = WordMap { slots };
        assert(r@ =~= Map::<char, Seq<Decimal>>::empty());
        r
    }

    /// Groups the words of `ts` by upper-case address, as [`words_map`] says.
    pub fn from_tokens(ts: &Vec<Token>) -> (r: WordMap)
        ensures
            r@ == words_map(token_views(ts@)),
    {
        let ghost tv = token_views(ts@);
        let mut slots: Vec<Vec<Decimal>> = Vec::new();
        let mut l: u32 = 0;
        while l < 26
            invariant
                l <= 26,
                tv == token_views(ts@),
                slots@.len() == l,
                forall|k: int| 0 <= k < l ==> (#[trigger] slots@[k])@ == words_of(tv, letter(k)),
            decreases 26 - l,
        {
            let c: char = ((l + 65) as u8) as char;
            let mut slot: Vec<Decimal> = Vec::new();
            let mut i: usize = 0;
            while i < ts.len()
                invariant
                    i <= ts@.len(),
                    tv == token_views(ts@),
                    c == letter(l as int),
                    slot@ == words_of(tv.take(i as int), c),
                decreases ts@.len() - i,
            {
                proof {
                    assert(tv.take(i + 1).drop_last() =~= tv.take(i as int));
                }
                match &ts[i] {
                    Token::Word(w) => {
                        if w.address == c {
                            slot.push(w.value);
                        }
                    },
                    Token::Comment(_) => {},
                }
                i = i + 1;
            }
            proof {
                assert(tv.take(ts@.len() as int) =~= tv);
            }
            slots.push(slot);
            l = l + 1;
        }
        let r = WordMap { slots };
        proof {
            assert forall|c: char| is_ascii_upper(c) implies r.slot(c) == words_of(tv, c) by {
                lemma_letter_roundtrip(c);
            }
            assert(r@ =~= words_map(tv));
        }
        r
    }
}

} // verus!
