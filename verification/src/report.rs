//! The warnings of a dry run, sorted and without repeats.

use vstd::prelude::*;

use crate::text::chars_of;

verus! {

/// `a` comes before `b` in the order of code points, compared character by
/// character, a prefix first. For strings this is the order of their UTF-8
/// bytes.
pub open spec fn text_less(a: Seq<char>, b: Seq<char>) -> bool
    decreases a.len(),
{
    if a.len() == 0 {
        b.len() > 0
    } else if b.len() == 0 {
        false
    } else if (a[0] as int) < (b[0] as int) {
        true
    } else if a[0] == b[0] {
        text_less(a.drop_first(), b.drop_first())
    } else {
        false
    }
}

pub proof fn lemma_text_less_total(a: Seq<char>, b: Seq<char>)
    ensures
        a == b || text_less(a, b) || text_less(b, a),
    decreases a.len(),
{
    if a.len() == 0 && b.len() == 0 {
        assert(a =~= b);
    } else if a.len() > 0 && b.len() > 0 {
        let x = a[0];
        let y = b[0];
        if x == y {
            lemma_text_less_total(a.drop_first(), b.drop_first());
            if a.drop_first() == b.drop_first() {
                assert(a =~= seq![x] + a.drop_first());
                assert(b =~= seq![y] + b.drop_first());
            }
        } else {
            assert((x as int) < (y as int) || (y as int) < (x as int));
        }
    }
}

pub proof fn lemma_text_less_transitive(a: Seq<char>, b: Seq<char>, c: Seq<char>)
    requires
        text_less(a, b),
        text_less(b, c),
    ensures
        text_less(a, c),
    decreases a.len(),
{
    if a.len() > 0 && b.len() > 0 && c.len() > 0 && a[0] == b[0] && b[0] == c[0] {
        lemma_text_less_transitive(a.drop_first(), b.drop_first(), c.drop_first());
    }
}

/// The texts are in strictly increasing order.
pub open spec fn strictly_sorted(s: Seq<Seq<char>>) -> bool {
    forall|i: int, j: int| 0 <= i < j < s.len() ==> text_less(#[trigger] s[i], #[trigger] s[j])
}

/// The views of strings.
pub open spec fn string_views(v: Seq<String>) -> Seq<Seq<char>> {
    v.map_values(|s: String| s@)
}

/// Whether the code point of `x` is below that of `y`.
fn char_less(x: char, y: char) -> (r: bool)
    ensures
        r == ((x as int) < (y as int)),
{
    (x as u32) < (y as u32)
}

/// Whether `a` comes before `b`, and whether they are equal.
fn compare_texts(a: &Vec<char>, b: &Vec<char>) -> (r: (bool, bool))
    ensures
        r.0 == text_less(a@, b@),
        r.1 == (a@ == b@),
{
    let mut i: usize = 0;
    assert(a@.skip(0) =~= a@);
    assert(b@.skip(0) =~= b@);
    assert(a@.take(0) =~= b@.take(0));
    while i < a.len() && i < b.len() && a[i] == b[i]
        invariant
            i <= a@.len(),
            i <= b@.len(),
            a@.take(i as int) == b@.take(i as int),
            text_less(a@, b@) == text_less(a@.skip(i as int), b@.skip(i as int)),
        decreases a@.len() - i,
    {
        proof {
            assert(a@.skip(i as int).drop_first() =~= a@.skip(i + 1));
            assert(b@.skip(i as int).drop_first() =~= b@.skip(i + 1));
            assert(a@.take(i + 1) =~= a@.take(i as int).push(a@[i as int]));
            assert(b@.take(i + 1) =~= b@.take(i as int).push(b@[i as int]));
        }
        i = i + 1;
    }
    let ghost sa = a@.skip(i as int);
    let ghost sb = b@.skip(i as int);
    if i == a.len() && i == b.len() {
        proof {
            assert(a@ =~= a@.take(i as int));
            assert(b@ =~= b@.take(i as int));
        }
        (false, true)
    } else if i == a.len() {
        proof {
            assert(sa.len() == 0);
            if a@ == b@ {
                assert(a@.len() == b@.len());
            }
        }
        (true, false)
    } else if i == b.len() {
        proof {
            assert(sb.len() == 0 && sa.len() > 0);
            if a@ == b@ {
                assert(a@.len() == b@.len());
            }
        }
        (false, false)
    } else {
        proof {
            assert(sa[0] == a@[i as int] && sb[0] == b@[i as int]);
            if a@ == b@ {
                assert(a@[i as int] == b@[i as int]);
            }
        }
        (char_less(a[i], b[i]), false)
    }
}

/// The first index whose text does not come before `key`, and whether that
/// text equals `key`.
fn find_slot(keys: &Vec<Vec<char>>, key: &Vec<char>, Ghost(views): Ghost<Seq<Seq<char>>>) -> (r: (usize, bool))
    requires
        views.len() == keys@.len(),
        forall|k: int| 0 <= k < keys@.len() ==> (#[trigger] keys@[k])@ == views[k],
    ensures
        r.0 <= keys@.len(),
        forall|k: int| 0 <= k < r.0 ==> text_less(#[trigger] views[k], key@),
        r.1 ==> r.0 < keys@.len() && views[r.0 as int] == key@,
        !r.1 && r.0 < keys@.len() ==> text_less(key@, views[r.0 as int]),
{
    let mut pos: usize = 0;
    let mut done: bool = false;
    let mut equal: bool = false;
    while pos < keys.len() && !done
        invariant
            pos <= keys@.len(),
            views.len() == keys@.len(),
            forall|k: int| 0 <= k < keys@.len() ==> (#[trigger] keys@[k])@ == views[k],
            forall|k: int| 0 <= k < pos ==> text_less(#[trigger] views[k], key@),
            equal ==> done,
            done ==> pos < keys@.len(),
            done && equal ==> views[pos as int] == key@,
            done && !equal ==> text_less(key@, views[pos as int]),
        decreases keys@.len() - pos + (if done { 0int } else { 1int }),
    {
        let (less, same) = compare_texts(&keys[pos], key);
        proof {
            assert(keys@[pos as int]@ == views[pos as int]);
        }
        if same {
            equal = true;
            done = true;
        } else if !less {
            proof {
                lemma_text_less_total(views[pos as int], key@);
            }
            done = true;
        } else {
            pos = pos + 1;
        }
    }
    (pos, equal)
}

/// The warnings sorted in code point order, each once.
pub fn sort_and_dedup(warnings: Vec<String>) -> (r: Vec<String>)
    ensures
        strictly_sorted(string_views(r@)),
        forall|t: Seq<char>| string_views(r@).contains(t) <==> string_views(warnings@).contains(t),
{
    let mut out: Vec<String> = Vec::new();
    let mut keys: Vec<Vec<char>> = Vec::new();
    let ghost input = string_views(warnings@);
    let mut i: usize = 0;
    while i < warnings.len()
        invariant
            i <= warnings@.len(),
            input == string_views(warnings@),
            keys@.len() == out@.len(),
            forall|k: int| 0 <= k < keys@.len() ==> (#[trigger] keys@[k])@ == out@[k]@,
            strictly_sorted(string_views(out@)),
            forall|t: Seq<char>| string_views(out@).contains(t) <==> input.take(i as int).contains(t),
        decreases warnings@.len() - i,
    {
        let w = &warnings[i];
        let key = chars_of(w.as_str());
        let ghost outv = string_views(out@);
        let (pos, equal) = find_slot(&keys, &key, Ghost(outv));
        let ghost pre = input.take(i as int);
        let ghost pre1 = input.take(i + 1);
        proof {
            assert(pre1 =~= pre.push(key@));
        }
        if !equal {
            let copy = w.clone();
            out.insert(pos, copy);
            keys.insert(pos, key);
            proof {
                let nv = string_views(out@);
                assert(nv =~= outv.insert(pos as int, key@));
                assert forall|a: int, b: int| 0 <= a < b < nv.len() implies text_less(
                    #[trigger] nv[a],
                    #[trigger] nv[b],
                ) by {
                    if b < pos {
                        assert(nv[a] == outv[a] && nv[b] == outv[b]);
                    } else if b == pos {
                        assert(nv[a] == outv[a]);
                    } else if a == pos {
                        assert(nv[b] == outv[b - 1]);
                        if b - 1 > pos {
                            lemma_text_less_transitive(key@, outv[pos as int], outv[b - 1]);
                        }
                    } else if a < pos {
                        assert(nv[a] == outv[a] && nv[b] == outv[b - 1]);
                        if b - 1 >= pos {
                            if b - 1 > pos {
                                lemma_text_less_transitive(key@, outv[pos as int], outv[b - 1]);
                            }
                            lemma_text_less_transitive(outv[a], key@, outv[b - 1]);
                        }
                    } else {
                        assert(nv[a] == outv[a - 1] && nv[b] == outv[b - 1]);
                    }
                }
                assert forall|t: Seq<char>| nv.contains(t) <==> pre1.contains(t) by {
                    if nv.contains(t) {
                        let k = choose|k: int| 0 <= k < nv.len() && nv[k] == t;
                        if k < pos {
                            assert(outv[k] == t);
                            assert(outv.contains(t));
                        } else if k > pos {
                            assert(outv[k - 1] == t);
                            assert(outv.contains(t));
                        }
                        assert(pre1[i as int] == key@);
                        if t != key@ {
                            assert(pre.contains(t));
                            let m = choose|m: int| 0 <= m < pre.len() && pre[m] == t;
                            assert(pre1[m] == t);
                        }
                    }
                    if pre1.contains(t) {
                        let m = choose|m: int| 0 <= m < pre1.len() && pre1[m] == t;
                        if m < i {
                            assert(pre[m] == t);
                            assert(outv.contains(t));
                            let k = choose|k: int| 0 <= k < outv.len() && outv[k] == t;
                            if k < pos {
                                assert(nv[k] == t);
                            } else {
                                assert(nv[k + 1] == t);
                            }
                        } else {
                            assert(nv[pos as int] == t);
                        }
                    }
                }
                assert forall|k: int| 0 <= k < keys@.len() implies (#[trigger] keys@[k])@ == out@[k]@ by {
                    assert(keys@[k]@ == nv[k]);
                }
            }
        } else {
            proof {
                assert(outv[pos as int] == key@);
                assert forall|t: Seq<char>| outv.contains(t) <==> pre1.contains(t) by {
                    if pre1.contains(t) {
                        let m = choose|m: int| 0 <= m < pre1.len() && pre1[m] == t;
                        if m < i {
                            assert(pre[m] == t);
                        } else {
                            assert(outv[pos as int] == t);
                        }
                    }
                    if outv.contains(t) {
                        assert(pre.contains(t));
                        let m = choose|m: int| 0 <= m < pre.len() && pre[m] == t;
                        assert(pre1[m] == t);
                    }
                }
            }
        }
        i = i + 1;
    }
    proof {
        assert(input.take(i as int) =~= input);
    }
    out
}

} // verus!
