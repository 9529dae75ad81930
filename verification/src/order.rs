use vstd::prelude::*;

verus! {

/// Byte-wise lexicographic order, the order of `str` and `[u8]`.
pub open spec fn lex_le(a: Seq<u8>, b: Seq<u8>) -> bool
    decreases a.len(),
{
    if a.len() == 0 {
        true
    } else if b.len() == 0 {
        false
    } else if a[0] != b[0] {
        a[0] < b[0]
    } else {
        lex_le(a.drop_first(), b.drop_first())
    }
}

/// Strictly before in byte-wise lexicographic order.
pub open spec fn lex_lt(a: Seq<u8>, b: Seq<u8>) -> bool {
    lex_le(a, b) && a != b
}

/// The byte-wise order is reflexive.
pub proof fn lemma_lex_refl(a: Seq<u8>)
    ensures
        lex_le(a, a),
    decreases a.len(),
{
    if a.len() > 0 {
        lemma_lex_refl(a.drop_first());
    }
}

/// Any two byte strings are ordered one way or the other.
pub proof fn lemma_lex_total(a: Seq<u8>, b: Seq<u8>)
    ensures
        lex_le(a, b) || lex_le(b, a),
    decreases a.len(),
{
    if a.len() > 0 && b.len() > 0 && a[0] == b[0] {
        lemma_lex_total(a.drop_first(), b.drop_first());
    }
}

/// Byte strings ordered both ways are equal.
pub proof fn lemma_lex_antisym(a: Seq<u8>, b: Seq<u8>)
    requires
        lex_le(a, b),
        lex_le(b, a),
    ensures
        a == b,
    decreases a.len(),
{
    if a.len() > 0 {
        lemma_lex_antisym(a.drop_first(), b.drop_first());
        assert(a =~= seq![a[0]] + a.drop_first());
        assert(b =~= seq![b[0]] + b.drop_first());
    } else {
        assert(b.len() == 0);
        assert(a =~= b);
    }
}

/// The byte-wise order is transitive.
pub proof fn lemma_lex_trans(a: Seq<u8>, b: Seq<u8>, c: Seq<u8>)
    requires
        lex_le(a, b),
        lex_le(b, c),
    ensures
        lex_le(a, c),
    decreases a.len(),
{
    if a.len() > 0 && b.len() > 0 && c.len() > 0 && a[0] == b[0] && b[0] == c[0] {
        lemma_lex_trans(a.drop_first(), b.drop_first(), c.drop_first());
    }
}

/// Two sequences in strictly ascending byte-wise order that hold the same
/// elements are the same sequence.
pub proof fn lemma_ascending_unique(x: Seq<Seq<u8>>, y: Seq<Seq<u8>>)
    requires
        forall|i: int, j: int| 0 <= i < j < x.len() ==> lex_lt(#[trigger] x[i], #[trigger] x[j]),
        forall|i: int, j: int| 0 <= i < j < y.len() ==> lex_lt(#[trigger] y[i], #[trigger] y[j]),
        forall|s: Seq<u8>| x.contains(s) <==> y.contains(s),
    ensures
        x == y,
    decreases x.len(),
{
    if x.len() == 0 {
        if y.len() > 0 {
            assert(y.contains(y[0]));
        }
        assert(x =~= y);
    } else {
        assert(x.contains(x[0]));
        assert(y.len() > 0);
        assert(y.contains(y[0]));
        let j = choose|j: int| 0 <= j < y.len() && y[j] == x[0];
        let i = choose|i: int| 0 <= i < x.len() && x[i] == y[0];
        if j > 0 {
            assert(lex_lt(y[0], y[j]));
            if i > 0 {
                assert(lex_lt(x[0], x[i]));
                lemma_lex_antisym(x[0], y[0]);
            }
        }
        assert(x[0] == y[0]);
        let xr = x.drop_first();
        let yr = y.drop_first();
        assert forall|s: Seq<u8>| xr.contains(s) <==> yr.contains(s) by {
            if xr.contains(s) {
                let a = choose|a: int| 0 <= a < xr.len() && xr[a] == s;
                assert(x[a + 1] == s);
                assert(lex_lt(x[0], x[a + 1]));
                assert(x.contains(s));
                let b = choose|b: int| 0 <= b < y.len() && y[b] == s;
                if b == 0 {
                    assert(s == x[0]);
                }
                assert(yr[b - 1] == s);
            }
            if yr.contains(s) {
                let a = choose|a: int| 0 <= a < yr.len() && yr[a] == s;
                assert(y[a + 1] == s);
                assert(lex_lt(y[0], y[a + 1]));
                assert(y.contains(s));
                let b = choose|b: int| 0 <= b < x.len() && x[b] == s;
                if b == 0 {
                    assert(s == y[0]);
                }
                assert(xr[b - 1] == s);
            }
        }
        assert forall|a: int, b: int| 0 <= a < b < xr.len() implies lex_lt(#[trigger] xr[a], #[trigger] xr[b]) by {
            assert(lex_lt(x[a + 1], x[b + 1]));
        }
        assert forall|a: int, b: int| 0 <= a < b < yr.len() implies lex_lt(#[trigger] yr[a], #[trigger] yr[b]) by {
            assert(lex_lt(y[a + 1], y[b + 1]));
        }
        lemma_ascending_unique(xr, yr);
        assert(x =~= seq![x[0]] + xr);
        assert(y =~= seq![y[0]] + yr);
    }
}

/// Byte-wise lexicographic comparison: whether `a` comes no later than `b`.
pub fn bytes_le(a: &[u8], b: &[u8]) -> (r: bool)
    ensures
        r == lex_le(a@, b@),
{
    let mut i: usize = 0;
    assert(a@.skip(0) =~= a@);
    assert(b@.skip(0) =~= b@);
    while i < a.len() && i < b.len()
        invariant
            i <= a@.len(),
            i <= b@.len(),
            lex_le(a@, b@) == lex_le(a@.skip(i as int), b@.skip(i as int)),
        decreases a@.len() - i,
    {
        if a[i] != b[i] {
            return a[i] < b[i];
        }
        assert(a@.skip(i as int).drop_first() =~= a@.skip(i + 1));
        assert(b@.skip(i as int).drop_first() =~= b@.skip(i + 1));
        i = i + 1;
    }
    i == a.len()
}

/// Sequences holding the same elements, each mapped by `f`, hold the same
/// images.
pub proof fn lemma_multiset_map<A, B>(s1: Seq<A>, s2: Seq<A>, f: spec_fn(A) -> B)
    requires
        s1.to_multiset() == s2.to_multiset(),
    ensures
        s1.map_values(f).to_multiset() == s2.map_values(f).to_multiset(),
    decreases s1.len(),
{
    broadcast use vstd::seq_lib::group_to_multiset_ensures;
    broadcast use vstd::multiset::group_multiset_axioms;

    if s1.len() == 0 {
        vstd::seq_lib::to_multiset_len(s1);
        vstd::seq_lib::to_multiset_len(s2);
        assert(s2.len() == 0);
        assert(s1.map_values(f) =~= s2.map_values(f));
    } else {
        let x = s1.last();
        let d1 = s1.drop_last();
        assert(s1 =~= d1.push(x));
        assert(s1.contains(x)) by {
            assert(s1[s1.len() - 1] == x);
        }
        vstd::seq_lib::to_multiset_contains(s1, x);
        vstd::seq_lib::to_multiset_contains(s2, x);
        let j = choose|j: int| 0 <= j < s2.len() && s2[j] == x;
        let r2 = s2.remove(j);
        vstd::seq_lib::to_multiset_remove(s2, j);
        assert(d1.to_multiset() =~= r2.to_multiset()) by {
            assert(s1.to_multiset() == d1.to_multiset().insert(x));
        }
        lemma_multiset_map(d1, r2, f);
        let m1 = s1.map_values(f);
        let m2 = s2.map_values(f);
        assert(m1 =~= d1.map_values(f).push(f(x)));
        assert(m2.remove(j) =~= r2.map_values(f));
        vstd::seq_lib::to_multiset_remove(m2, j);
        assert(m2[j] == f(x));
        assert(m2.contains(f(x)));
        vstd::seq_lib::to_multiset_contains(m2, f(x));
        assert(m1.to_multiset() =~= m2.to_multiset());
    }
}

/// `s` is sorted by the first component of its elements.
pub open spec fn sorted_by_key<V>(s: Seq<(Seq<u8>, V)>) -> bool {
    forall|i: int, j: int| 0 <= i < j < s.len() ==> lex_le(#[trigger] s[i].0, #[trigger] s[j].0)
}

/// Inserts `e` into `t` after every element whose key is no later than
/// the key of `e`, scanning from the back.
pub open spec fn insert_by_key<V>(t: Seq<(Seq<u8>, V)>, e: (Seq<u8>, V)) -> Seq<(Seq<u8>, V)>
    decreases t.len(),
{
    if t.len() == 0 || lex_le(t.last().0, e.0) {
        t.push(e)
    } else {
        insert_by_key(t.drop_last(), e).push(t.last())
    }
}

/// The stable sort of `s` by key: elements with equal keys keep their
/// order (insertion sort, which is what a stable sort gives).
pub open spec fn sort_by_key<V>(s: Seq<(Seq<u8>, V)>) -> Seq<(Seq<u8>, V)>
    decreases s.len(),
{
    if s.len() == 0 {
        s
    } else {
        insert_by_key(sort_by_key(s.drop_last()), s.last())
    }
}

/// Inserting at the position found by scanning from the back is what
/// `insert_by_key` does.
pub proof fn lemma_insert_at<V>(t: Seq<(Seq<u8>, V)>, e: (Seq<u8>, V), j: int)
    requires
        0 <= j <= t.len(),
        forall|k: int| j <= k < t.len() ==> !lex_le(#[trigger] t[k].0, e.0),
        j == 0 || lex_le(t[j - 1].0, e.0),
    ensures
        insert_by_key(t, e) == t.insert(j, e),
    decreases t.len() - j,
{
    if j == t.len() {
        assert(t.insert(j, e) =~= t.push(e));
    } else {
        assert(!lex_le(t.last().0, e.0));
        lemma_insert_at(t.drop_last(), e, j);
        assert(t.insert(j, e) =~= t.drop_last().insert(j, e).push(t.last()));
    }
}

proof fn lemma_insert_sorted<V>(t: Seq<(Seq<u8>, V)>, e: (Seq<u8>, V))
    requires
        sorted_by_key(t),
    ensures
        sorted_by_key(insert_by_key(t, e)),
        insert_by_key(t, e).len() == t.len() + 1,
        insert_by_key(t, e).to_multiset() == t.to_multiset().insert(e),
    decreases t.len(),
{
    broadcast use vstd::seq_lib::group_to_multiset_ensures;
    if t.len() == 0 || lex_le(t.last().0, e.0) {
        let r = t.push(e);
        assert forall|i: int, j: int| 0 <= i < j < r.len() implies lex_le(#[trigger] r[i].0, #[trigger] r[j].0) by {
            if j == t.len() {
                if i < t.len() - 1 {
                    lemma_lex_trans(t[i].0, t.last().0, e.0);
                }
            }
        }
    } else {
        let t0 = t.drop_last();
        assert(sorted_by_key(t0));
        lemma_insert_sorted(t0, e);
        let r0 = insert_by_key(t0, e);
        let r = r0.push(t.last());
        lemma_lex_total(t.last().0, e.0);
        assert(t =~= t0.push(t.last()));
        assert forall|i: int, j: int| 0 <= i < j < r.len() implies lex_le(#[trigger] r[i].0, #[trigger] r[j].0) by {
            if j == r.len() - 1 {
                // every element of r0 is an element of t0 or e
                assert(r0.to_multiset().count(r0[i]) > 0);
                assert(r0.contains(r0[i]));
                if r0[i] == e {
                } else {
                    assert(t0.to_multiset().count(r0[i]) > 0);
                    assert(t0.contains(r0[i]));
                    let k = choose|k: int| 0 <= k < t0.len() && t0[k] == r0[i];
                    assert(t[k] == t0[k]);
                }
            }
        }
    }
}

/// The stable sort gives a sorted permutation.
pub proof fn lemma_sort_sorted<V>(s: Seq<(Seq<u8>, V)>)
    ensures
        sorted_by_key(sort_by_key(s)),
        sort_by_key(s).len() == s.len(),
        sort_by_key(s).to_multiset() == s.to_multiset(),
    decreases s.len(),
{
    broadcast use vstd::seq_lib::group_to_multiset_ensures;
    if s.len() > 0 {
        lemma_sort_sorted(s.drop_last());
        lemma_insert_sorted(sort_by_key(s.drop_last()), s.last());
        assert(s =~= s.drop_last().push(s.last()));
    }
}

/// Sorting what is already sorted changes nothing.
pub proof fn lemma_sort_sorted_id<V>(s: Seq<(Seq<u8>, V)>)
    requires
        sorted_by_key(s),
    ensures
        sort_by_key(s) == s,
    decreases s.len(),
{
    if s.len() > 0 {
        let t = s.drop_last();
        assert(sorted_by_key(t));
        lemma_sort_sorted_id(t);
        if t.len() > 0 {
            assert(lex_le(s[t.len() - 1].0, s[s.len() - 1].0));
        }
        assert(t.push(s.last()) =~= s);
    }
}

} // verus!
