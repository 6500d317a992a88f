//! Lexicographic order on strings, and sorted lists without repeats.
use vstd::prelude::*;
use crate::text;

verus! {

/// `a` sorts strictly before `b`: character by character, a proper prefix
/// first (the order of `str`'s `<`, as UTF-8 keeps code point order).
pub open spec fn lex_lt(a: Seq<char>, b: Seq<char>) -> bool
    decreases a.len(),
{
    if a.len() == 0 {
        b.len() > 0
    } else if b.len() == 0 {
        false
    } else if (a[0] as int) < (b[0] as int) {
        true
    } else if a[0] == b[0] {
        lex_lt(a.drop_first(), b.drop_first())
    } else {
        false
    }
}

/// No string sorts before itself.
pub proof fn lemma_lex_irreflexive(a: Seq<char>)
    ensures
        !lex_lt(a, a),
    decreases a.len(),
{
    if a.len() > 0 {
        lemma_lex_irreflexive(a.drop_first());
    }
}

/// The order is transitive.
pub proof fn lemma_lex_transitive(a: Seq<char>, b: Seq<char>, c: Seq<char>)
    requires
        lex_lt(a, b),
        lex_lt(b, c),
    ensures
        lex_lt(a, c),
    decreases a.len(),
{
    if a.len() > 0 && b.len() > 0 && c.len() > 0 && a[0] == b[0] && b[0] == c[0] {
        lemma_lex_transitive(a.drop_first(), b.drop_first(), c.drop_first());
    }
}

/// Of two different strings one sorts before the other.
pub proof fn lemma_lex_total(a: Seq<char>, b: Seq<char>)
    ensures
        lex_lt(a, b) || a == b || lex_lt(b, a),
    decreases a.len(),
{
    if a.len() == 0 && b.len() == 0 {
        assert(a =~= b);
    } else if a.len() > 0 && b.len() > 0 && a[0] != b[0] {
        assert(a[0] as int != b[0] as int);
    } else if a.len() > 0 && b.len() > 0 && a[0] == b[0] {
        lemma_lex_total(a.drop_first(), b.drop_first());
        if a.drop_first() == b.drop_first() {
            assert(a =~= seq![a[0]] + a.drop_first());
            assert(b =~= seq![b[0]] + b.drop_first());
        }
    }
}

/// The strings of `v`, each strictly before the next.
pub open spec fn strictly_sorted(v: Seq<Seq<char>>) -> bool {
    forall|i: int, j: int| 0 <= i < j < v.len() ==> lex_lt(#[trigger] v[i], #[trigger] v[j])
}

/// Whether `a` sorts strictly before `b`.
pub fn lex_less(a: &str, b: &str) -> (r: bool)
    ensures
        r == lex_lt(a@, b@),
{
    let x = text::chars_of(a);
    let y = text::chars_of(b);
    let mut i: usize = 0;
    assert(x@.skip(0) =~= x@ && y@.skip(0) =~= y@);
    while i < x.len() && i < y.len()
        invariant
            0 <= i <= x@.len(),
            i <= y@.len(),
            x@ == a@,
            y@ == b@,
            x@.subrange(0, i as int) == y@.subrange(0, i as int),
            lex_lt(a@, b@) == lex_lt(x@.skip(i as int), y@.skip(i as int)),
        decreases x@.len() - i,
    {
        let c = x[i];
        let d = y[i];
        assert(x@.skip(i as int)[0] == c && y@.skip(i as int)[0] == d);
        if c < d {
            return true;
        }
        if c != d {
            return false;
        }
        assert(x@.skip(i as int).drop_first() =~= x@.skip(i + 1));
        assert(y@.skip(i as int).drop_first() =~= y@.skip(i + 1));
        assert(x@.subrange(0, i + 1) =~= x@.subrange(0, i as int).push(c));
        assert(y@.subrange(0, i + 1) =~= y@.subrange(0, i as int).push(d));
        i = i + 1;
    }
    i == x.len() && i < y.len()
}

/// The strings of `v` sorted, each kept once.
pub fn sorted_unique(v: &Vec<String>) -> (r: Vec<String>)
    ensures
        strictly_sorted(text::views(r@)),
        forall|s: Seq<char>| text::views(r@).contains(s) <==> text::views(v@).contains(s),
{
    let mut r: Vec<String> = Vec::new();
    let mut k: usize = 0;
    while k < v.len()
        invariant
            0 <= k <= v@.len(),
            strictly_sorted(text::views(r@)),
            forall|s: Seq<char>| text::views(r@).contains(s) <==> text::views(v@.subrange(0, k as int)).contains(s),
        decreases v@.len() - k,
    {
        let x = &v[k];
        let ghost xs = x@;
        let ghost before = text::views(r@);
        let mut p: usize = 0;
        while p < r.len()
            invariant
                0 <= p <= r@.len(),
                text::views(r@) == before,
                strictly_sorted(before),
                x@ == xs,
                forall|i: int| 0 <= i < p ==> lex_lt(#[trigger] before[i], xs),
            ensures
                0 <= p <= r@.len(),
                forall|i: int| 0 <= i < p ==> lex_lt(#[trigger] before[i], xs),
                p < r@.len() ==> !lex_lt(before[p as int], xs),
            decreases r@.len() - p,
        {
            let lt = lex_less(r[p].as_str(), x.as_str());
            assert(before[p as int] == r@[p as int]@);
            if !lt {
                break;
            }
            p = p + 1;
        }
        let present = p < r.len() && text::str_eq(r[p].as_str(), x.as_str());
        proof {
            if p < r.len() {
                assert(before[p as int] == r@[p as int]@);
            }
        }
        if !present {
            r.insert(p, x.clone());
            proof {
                let after = text::views(r@);
                assert(after =~= before.insert(p as int, xs));
                if (p as int) < before.len() {
                    assert(!lex_lt(before[p as int], xs));
                    assert(before[p as int] != xs);
                    lemma_lex_total(before[p as int], xs);
                }
                assert forall|i: int, j: int| 0 <= i < j < after.len() implies lex_lt(
                    #[trigger] after[i],
                    #[trigger] after[j],
                ) by {
                    let pi = p as int;
                    if j < pi {
                        assert(after[i] == before[i] && after[j] == before[j]);
                    } else if j == pi {
                        assert(after[i] == before[i]);
                    } else if i == pi {
                        assert(after[j] == before[j - 1]);
                        if j - 1 > pi {
                            assert(lex_lt(before[pi], before[j - 1]));
                            lemma_lex_transitive(xs, before[pi], before[j - 1]);
                        }
                    } else if i < pi {
                        assert(after[i] == before[i] && after[j] == before[j - 1]);
                    } else {
                        assert(after[i] == before[i - 1] && after[j] == before[j - 1]);
                    }
                }
            }
        }
        proof {
            let after = text::views(r@);
            let pre = text::views(v@.subrange(0, k as int));
            let pre1 = text::views(v@.subrange(0, k + 1));
            assert(pre1 =~= pre.push(xs));
            assert forall|s: Seq<char>| after.contains(s) <==> pre1.contains(s) by {
                if present {
                    assert(after == before);
                    if s == xs {
                        assert(before[p as int] == xs);
                        assert(after.contains(s));
                    }
                    if after.contains(s) && s != xs {
                        assert(pre.contains(s));
                    }
                } else {
                    assert(after =~= before.insert(p as int, xs));
                    if after.contains(s) {
                        let w = choose|w: int| 0 <= w < after.len() && after[w] == s;
                        if w < p {
                            assert(before[w] == s);
                        } else if w > p {
                            assert(before[w - 1] == s);
                        }
                    }
                    if before.contains(s) {
                        let w = choose|w: int| 0 <= w < before.len() && before[w] == s;
                        if w < p {
                            assert(after[w] == s);
                        } else {
                            assert(after[w + 1] == s);
                        }
                    }
                    assert(after[p as int] == xs);
                    if s == xs {
                        assert(after.contains(s));
                    }
                    if after.contains(s) && s != xs {
                        assert(before.contains(s));
                        assert(pre.contains(s));
                    }
                }
                if s == xs {
                    assert(pre1[k as int] == xs);
                }
                if pre1.contains(s) && s != xs {
                    let w = choose|w: int| 0 <= w < pre1.len() && pre1[w] == s;
                    assert(pre[w] == s);
                    assert(pre.contains(s));
                }
                if pre.contains(s) {
                    let w = choose|w: int| 0 <= w < pre.len() && pre[w] == s;
                    assert(pre1[w] == s);
                }
            }
        }
        k = k + 1;
    }
    assert(v@.subrange(0, v@.len() as int) =~= v@);
    r
}

/// `a` sorts before `b` or equals it.
pub open spec fn lex_le(a: Seq<char>, b: Seq<char>) -> bool {
    lex_lt(a, b) || a == b
}

/// The strings of `v` in order, repeats side by side.
pub open spec fn sorted(v: Seq<Seq<char>>) -> bool {
    forall|i: int, j: int| 0 <= i < j < v.len() ==> lex_le(#[trigger] v[i], #[trigger] v[j])
}

proof fn lemma_insert_multiset<A>(s: Seq<A>, i: int, a: A)
    requires
        0 <= i <= s.len(),
    ensures
        s.insert(i, a).to_multiset() =~= s.to_multiset().insert(a),
{
    broadcast use vstd::seq_lib::group_to_multiset_ensures;
    broadcast use vstd::multiset::group_multiset_axioms;
    let t = s.insert(i, a);
    assert(t.remove(i) =~= s);
    assert(t[i] == a);
    assert(t.contains(a));
    assert(t.to_multiset().count(a) > 0);
    assert(t.to_multiset() =~= t.to_multiset().remove(a).insert(a));
}

/// The strings of `v` sorted, repeats kept (`Vec::sort`).
pub fn sort_strings(v: &Vec<String>) -> (r: Vec<String>)
    ensures
        sorted(text::views(r@)),
        text::views(r@).to_multiset() == text::views(v@).to_multiset(),
        text::views(r@) == sorted_of(text::views(v@)),
{
    let mut r: Vec<String> = Vec::new();
    let mut k: usize = 0;
    proof {
        broadcast use vstd::seq_lib::group_to_multiset_ensures;
        assert(text::views(r@) =~= Seq::<Seq<char>>::empty());
        assert(text::views(v@.subrange(0, 0)) =~= Seq::<Seq<char>>::empty());
        assert(Seq::<Seq<char>>::empty().to_multiset().len() == 0);
    }
    while k < v.len()
        invariant
            0 <= k <= v@.len(),
            sorted(text::views(r@)),
            text::views(r@).to_multiset() == text::views(v@.subrange(0, k as int)).to_multiset(),
        decreases v@.len() - k,
    {
        let x = &v[k];
        let ghost xs = x@;
        let ghost before = text::views(r@);
        let mut p: usize = 0;
        while p < r.len()
            invariant
                0 <= p <= r@.len(),
                text::views(r@) == before,
                sorted(before),
                x@ == xs,
                forall|i: int| 0 <= i < p ==> lex_le(#[trigger] before[i], xs),
            ensures
                0 <= p <= r@.len(),
                forall|i: int| 0 <= i < p ==> lex_le(#[trigger] before[i], xs),
                p < r@.len() ==> lex_lt(xs, before[p as int]),
            decreases r@.len() - p,
        {
            let lt = lex_less(x.as_str(), r[p].as_str());
            assert(before[p as int] == r@[p as int]@);
            if lt {
                break;
            }
            proof {
                lemma_lex_total(before[p as int], xs);
            }
            p = p + 1;
        }
        r.insert(p, x.clone());
        proof {
            let after = text::views(r@);
            assert(after =~= before.insert(p as int, xs));
            assert forall|i: int, j: int| 0 <= i < j < after.len() implies lex_le(
                #[trigger] after[i],
                #[trigger] after[j],
            ) by {
                let pi = p as int;
                if j < pi {
                    assert(after[i] == before[i] && after[j] == before[j]);
                } else if j == pi {
                    assert(after[i] == before[i]);
                } else if i == pi {
                    assert(after[j] == before[j - 1]);
                    if j - 1 > pi {
                        assert(lex_le(before[pi], before[j - 1]));
                        if before[pi] != before[j - 1] {
                            lemma_lex_transitive(xs, before[pi], before[j - 1]);
                        }
                    }
                } else if i < pi {
                    assert(after[i] == before[i] && after[j] == before[j - 1]);
                } else {
                    assert(after[i] == before[i - 1] && after[j] == before[j - 1]);
                }
            }
            lemma_insert_multiset(before, p as int, xs);
            let pre = text::views(v@.subrange(0, k as int));
            let pre1 = text::views(v@.subrange(0, k + 1));
            assert(pre1 =~= pre.push(xs));
            broadcast use vstd::seq_lib::group_to_multiset_ensures;
            assert(pre1.to_multiset() =~= pre.to_multiset().insert(xs));
        }
        k = k + 1;
    }
    assert(v@.subrange(0, v@.len() as int) =~= v@);
    proof {
        lemma_sorted_of(text::views(r@), text::views(v@));
    }
    r
}

/// The strings of `v` sorted, repeats kept: the one sorted sequence with
/// the same strings as `v`, each as often.
pub open spec fn sorted_of(v: Seq<Seq<char>>) -> Seq<Seq<char>> {
    choose|w: Seq<Seq<char>>| sorted(w) && w.to_multiset() == v.to_multiset()
}

/// Two strings that each sort no later than the other are equal.
pub proof fn lemma_lex_antisymmetric(x: Seq<char>, y: Seq<char>)
    requires
        lex_le(x, y),
        lex_le(y, x),
    ensures
        x == y,
{
    if x != y {
        lemma_lex_transitive(x, y, x);
        lemma_lex_irreflexive(x);
    }
}

/// A sorted sequence is determined by its strings and their counts.
pub proof fn lemma_sorted_unique(a: Seq<Seq<char>>, b: Seq<Seq<char>>)
    requires
        sorted(a),
        sorted(b),
        a.to_multiset() == b.to_multiset(),
    ensures
        a == b,
    decreases a.len(),
{
    broadcast use vstd::seq_lib::group_to_multiset_ensures;
    assert(a.len() == a.to_multiset().len());
    assert(b.len() == b.to_multiset().len());
    if a.len() == 0 {
        assert(a =~= b);
    } else {
        assert(a.contains(a[0]));
        assert(a.to_multiset().count(a[0]) > 0);
        assert(b.contains(a[0]));
        let j = choose|j: int| 0 <= j < b.len() && b[j] == a[0];
        if j > 0 {
            assert(lex_le(b[0], b[j]));
        }
        assert(b.contains(b[0]));
        assert(b.to_multiset().count(b[0]) > 0);
        assert(a.to_multiset().count(b[0]) > 0);
        assert(a.contains(b[0]));
        let k = choose|k: int| 0 <= k < a.len() && a[k] == b[0];
        if k > 0 {
            assert(lex_le(a[0], a[k]));
        }
        lemma_lex_antisymmetric(a[0], b[0]);
        assert(a.remove(0) =~= a.drop_first());
        assert(b.remove(0) =~= b.drop_first());
        assert(a.drop_first().to_multiset() =~= a.to_multiset().remove(a[0]));
        assert(b.drop_first().to_multiset() =~= b.to_multiset().remove(b[0]));
        assert(sorted(a.drop_first())) by {
            assert forall|i: int, j2: int| 0 <= i < j2 < a.drop_first().len() implies lex_le(
                #[trigger] a.drop_first()[i],
                #[trigger] a.drop_first()[j2],
            ) by {
                assert(a.drop_first()[i] == a[i + 1] && a.drop_first()[j2] == a[j2 + 1]);
            }
        }
        assert(sorted(b.drop_first())) by {
            assert forall|i: int, j2: int| 0 <= i < j2 < b.drop_first().len() implies lex_le(
                #[trigger] b.drop_first()[i],
                #[trigger] b.drop_first()[j2],
            ) by {
                assert(b.drop_first()[i] == b[i + 1] && b.drop_first()[j2] == b[j2 + 1]);
            }
        }
        lemma_sorted_unique(a.drop_first(), b.drop_first());
        assert(a =~= seq![a[0]] + a.drop_first());
        assert(b =~= seq![b[0]] + b.drop_first());
    }
}

/// A sorted sequence with the strings of `v` is `sorted_of(v)`.
pub proof fn lemma_sorted_of(w: Seq<Seq<char>>, v: Seq<Seq<char>>)
    requires
        sorted(w),
        w.to_multiset() == v.to_multiset(),
    ensures
        sorted_of(v) == w,
{
    let c = sorted_of(v);
    assert(sorted(c) && c.to_multiset() == v.to_multiset());
    lemma_sorted_unique(c, w);
}

} // verus!
