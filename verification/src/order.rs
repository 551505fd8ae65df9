//! The order in which names are listed: code-point lexicographic order, the order of
//! `String`'s `Ord` (and of a `BTreeSet<String>`).
use vstd::prelude::*;
use crate::text::{to_chars, views};

verus! {

/// `a` comes strictly before `b` in code-point lexicographic order.
pub open spec fn lex_lt(a: Seq<char>, b: Seq<char>) -> bool
    decreases a.len(),
{
    if a.len() == 0 {
        b.len() > 0
    } else if b.len() == 0 {
        false
    } else if a[0] != b[0] {
        (a[0] as int) < (b[0] as int)
    } else {
        lex_lt(a.drop_first(), b.drop_first())
    }
}

/// No text comes before itself.
pub proof fn lemma_lex_irreflexive(a: Seq<char>)
    ensures
        !lex_lt(a, a),
    decreases a.len(),
{
    if a.len() > 0 {
        lemma_lex_irreflexive(a.drop_first());
    }
}

/// The order is transitive.
pub proof fn lemma_lex_transitive(a: Seq<char>, b: Seq<char>, c: Seq<char>)
    requires
        lex_lt(a, b),
        lex_lt(b, c),
    ensures
        lex_lt(a, c),
    decreases a.len(),
{
    if a.len() > 0 && b.len() > 0 && c.len() > 0 {
        if a[0] == b[0] && b[0] == c[0] {
            lemma_lex_transitive(a.drop_first(), b.drop_first(), c.drop_first());
        }
    }
}

/// Of two different texts, one comes before the other.
pub proof fn lemma_lex_total(a: Seq<char>, b: Seq<char>)
    requires
        a != b,
    ensures
        lex_lt(a, b) || lex_lt(b, a),
    decreases a.len(),
{
    if a.len() > 0 && b.len() > 0 {
        if a[0] == b[0] {
            if a.drop_first() == b.drop_first() {
                assert(a =~= seq![a[0]] + a.drop_first());
                assert(b =~= seq![b[0]] + b.drop_first());
            }
            lemma_lex_total(a.drop_first(), b.drop_first());
        } else {
        }
    } else if a.len() == 0 && b.len() == 0 {
        assert(a =~= b);
    }
}

/// No two texts come each before the other.
pub proof fn lemma_lex_asymmetric(a: Seq<char>, b: Seq<char>)
    requires
        lex_lt(a, b),
    ensures
        !lex_lt(b, a),
{
    if lex_lt(b, a) {
        lemma_lex_transitive(a, b, a);
        lemma_lex_irreflexive(a);
    }
}

/// Whether `a` comes strictly before `b`.
pub fn lex_less(a: &[char], b: &[char]) -> (r: bool)
    ensures
        r == lex_lt(a@, b@),
{
    let mut i: usize = 0;
    assert(a@.skip(0) == a@);
    assert(b@.skip(0) == b@);
    while i < a.len() && i < b.len()
        invariant
            i <= a.len(),
            i <= b.len(),
            lex_lt(a@, b@) == lex_lt(a@.skip(i as int), b@.skip(i as int)),
        decreases a.len() - i,
    {
        if a[i] != b[i] {
            assert(a@.skip(i as int)[0] == a@[i as int]);
            assert(b@.skip(i as int)[0] == b@[i as int]);
            return a[i] < b[i];
        }
        assert(a@.skip(i as int).drop_first() == a@.skip(i + 1));
        assert(b@.skip(i as int).drop_first() == b@.skip(i + 1));
        i += 1;
    }
    i < b.len()
}

proof fn lemma_push_contains(s: Seq<Seq<char>>, e: Seq<char>, x: Seq<char>)
    ensures
        s.push(e).contains(x) <==> (s.contains(x) || x == e),
{
    if s.push(e).contains(x) {
        let k = choose|k: int| 0 <= k < s.push(e).len() && s.push(e)[k] == x;
        if k < s.len() {
            assert(s[k] == x);
        }
    }
    if s.contains(x) {
        let k = choose|k: int| 0 <= k < s.len() && s[k] == x;
        assert(s.push(e)[k] == x);
    }
    if x == e {
        assert(s.push(e)[s.len() as int] == x);
    }
}

/// `s` is strictly increasing.
pub open spec fn strictly_sorted(s: Seq<Seq<char>>) -> bool {
    forall|i: int, j: int| 0 <= i < j < s.len() ==> lex_lt(s[i], s[j])
}

/// The distinct texts of `items`, in increasing order (what collecting them into a
/// `BTreeSet<String>`, or sorting and deduplicating them, gives).
pub fn sorted_distinct(items: &[String]) -> (res: Vec<String>)
    ensures
        strictly_sorted(views(res@)),
        forall|x: Seq<char>| views(res@).contains(x) <==> views(items@).contains(x),
{
    let mut res: Vec<String> = Vec::new();
    let mut keys: Vec<Vec<char>> = Vec::new();
    let mut n: usize = 0;
    while n < items.len()
        invariant
            n <= items.len(),
            keys@.len() == res@.len(),
            forall|i: int| 0 <= i < keys@.len() ==> #[trigger] keys@[i]@ == res@[i]@,
            strictly_sorted(views(res@)),
            forall|x: Seq<char>|
                views(res@).contains(x) <==> views(items@.take(n as int)).contains(x),
        decreases items.len() - n,
    {
        let key = to_chars(items[n].as_str());
        let mut p: usize = 0;
        while p < keys.len() && lex_less(keys[p].as_slice(), key.as_slice())
            invariant
                p <= keys@.len(),
                keys@.len() == res@.len(),
                forall|i: int| 0 <= i < keys@.len() ==> #[trigger] keys@[i]@ == res@[i]@,
                forall|i: int| 0 <= i < p ==> lex_lt(#[trigger] res@[i]@, key@),
            decreases keys.len() - p,
        {
            p += 1;
        }
        let ghost old_res = views(res@);
        assert(views(items@.take(n + 1)) == views(items@.take(n as int)).push(key@));
        if p < keys.len() && !lex_less(key.as_slice(), keys[p].as_slice()) {
            proof {
                if keys@[p as int]@ != key@ {
                    lemma_lex_total(keys@[p as int]@, key@);
                }
                assert(old_res[p as int] == key@);
                assert forall|x: Seq<char>|
                    views(res@).contains(x) <==> views(items@.take(n + 1)).contains(x) by {
                    lemma_push_contains(views(items@.take(n as int)), key@, x);
                    if x == key@ {
                        assert(views(res@)[p as int] == x);
                    }
                }
            }
        } else {
            proof {
                if p < keys@.len() {
                    if keys@[p as int]@ == key@ {
                        lemma_lex_irreflexive(key@);
                    }
                    lemma_lex_total(keys@[p as int]@, key@);
                }
            }
            res.insert(p, items[n].clone());
            keys.insert(p, key);
            let ghost nv = views(res@);
            assert(nv == old_res.insert(p as int, items@[n as int]@));
            proof {
                assert forall|i: int, j: int| 0 <= i < j < nv.len() implies lex_lt(nv[i], nv[j]) by {
                    if j == p {
                        assert(nv[i] == old_res[i]);
                    } else if i == p {
                        assert(nv[j] == old_res[j - 1]);
                        if j - 1 > p {
                            lemma_lex_transitive(nv[i], old_res[p as int], old_res[j - 1]);
                        }
                    } else if i > p {
                        assert(nv[i] == old_res[i - 1]);
                        assert(nv[j] == old_res[j - 1]);
                    } else if j > p {
                        assert(nv[j] == old_res[j - 1]);
                    }
                }
                assert forall|x: Seq<char>|
                    nv.contains(x) <==> views(items@.take(n + 1)).contains(x) by {
                    lemma_push_contains(views(items@.take(n as int)), key@, x);
                    if x == key@ {
                        assert(nv[p as int] == x);
                    }
                    if old_res.contains(x) {
                        let k = choose|k: int| 0 <= k < old_res.len() && old_res[k] == x;
                        if k < p {
                            assert(nv[k] == x);
                        } else {
                            assert(nv[k + 1] == x);
                        }
                    }
                    if nv.contains(x) && x != key@ {
                        let k = choose|k: int| 0 <= k < nv.len() && nv[k] == x;
                        if k < p {
                            assert(old_res[k] == x);
                        } else {
                            assert(old_res[k - 1] == x);
                        }
                    }
                }
            }
        }
        n += 1;
    }
    assert(items@.take(items.len() as int) == items@);
    res
}

/// Keeping some elements of a strictly increasing sequence leaves it strictly increasing.
pub proof fn lemma_filter_sorted(s: Seq<Seq<char>>, p: spec_fn(Seq<char>) -> bool)
    requires
        strictly_sorted(s),
    ensures
        strictly_sorted(s.filter(p)),
    decreases s.len(),
{
    reveal(Seq::filter);
    if s.len() > 0 {
        let t = s.drop_last();
        assert(strictly_sorted(t));
        lemma_filter_sorted(t, p);
        if p(s.last()) {
            let ft = t.filter(p);
            assert(s.filter(p) == ft.push(s.last()));
            assert forall|i: int, j: int| 0 <= i < j < ft.len() + 1 implies lex_lt(ft.push(s.last())[i], ft.push(s.last())[j]) by {
                if j == ft.len() {
                    t.lemma_filter_contains_rev(p, ft[i]);
                    assert(ft.contains(ft[i]));
                    let k = choose|k: int| 0 <= k < t.len() && t[k] == ft[i];
                    assert(s[k] == ft[i]);
                    assert(s[s.len() - 1] == s.last());
                }
            }
        }
    }
}

} // verus!
