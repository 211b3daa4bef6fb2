use vstd::prelude::*;

verus! {

/// Strict lexicographic order on byte strings: a proper prefix comes first,
/// otherwise the first differing byte decides.
pub open spec fn lex_lt(a: Seq<u8>, b: Seq<u8>) -> bool
    decreases a.len(),
{
    if b.len() == 0 {
        false
    } else if a.len() == 0 {
        true
    } else {
        a[0] < b[0] || (a[0] == b[0] && lex_lt(a.skip(1), b.skip(1)))
    }
}

pub proof fn lemma_lex_lt_irrefl(a: Seq<u8>)
    ensures
        !lex_lt(a, a),
    decreases a.len(),
{
    if a.len() > 0 {
        lemma_lex_lt_irrefl(a.skip(1));
    }
}

pub proof fn lemma_lex_lt_trans(a: Seq<u8>, b: Seq<u8>, c: Seq<u8>)
    requires
        lex_lt(a, b),
        lex_lt(b, c),
    ensures
        lex_lt(a, c),
    decreases a.len(),
{
    if a.len() > 0 && b.len() > 0 && c.len() > 0 && a[0] == b[0] && b[0] == c[0] {
        lemma_lex_lt_trans(a.skip(1), b.skip(1), c.skip(1));
    }
}

/// Decides `lex_lt` on byte slices.
pub fn bytes_lt(a: &[u8], b: &[u8]) -> (r: bool)
    ensures
        r == lex_lt(a@, b@),
{
    let mut i: usize = 0;
    proof {
        assert(a@.skip(0) =~= a@);
        assert(b@.skip(0) =~= b@);
    }
    while i < a.len() && i < b.len()
        invariant
            i <= a@.len(),
            i <= b@.len(),
            lex_lt(a@, b@) == lex_lt(a@.skip(i as int), b@.skip(i as int)),
        decreases a@.len() - i,
    {
        let x = a[i];
        let y = b[i];
        proof {
            assert(a@.skip(i as int)[0] == a@[i as int]);
            assert(b@.skip(i as int)[0] == b@[i as int]);
        }
        if x < y {
            return true;
        }
        if y < x {
            return false;
        }
        proof {
            assert(a@.skip(i as int).skip(1) =~= a@.skip(i as int + 1));
            assert(b@.skip(i as int).skip(1) =~= b@.skip(i as int + 1));
        }
        i = i + 1;
    }
    proof {
        if i == b@.len() {
            assert(b@.skip(i as int).len() == 0);
        } else {
            assert(a@.skip(i as int).len() == 0);
            assert(b@.skip(i as int).len() > 0);
        }
    }
    i == a.len() && i < b.len()
}

/// Every element of `s` placed, in order, at the first position that the
/// strict ranking `lt` allows: the ranking this crate's ordered views obey.
pub open spec fn insert_by<T>(lt: spec_fn(T, T) -> bool, s: Seq<T>, x: T) -> Seq<T>
    decreases s.len(),
{
    if s.len() == 0 {
        seq![x]
    } else if lt(x, s[0]) {
        seq![x].add(s)
    } else {
        seq![s[0]].add(insert_by(lt, s.skip(1), x))
    }
}

pub open spec fn sort_by<T>(lt: spec_fn(T, T) -> bool, s: Seq<T>) -> Seq<T>
    decreases s.len(),
{
    if s.len() == 0 {
        Seq::<T>::empty()
    } else {
        insert_by(lt, sort_by(lt, s.drop_last()), s.last())
    }
}

/// No element is ranked strictly before an earlier one.
pub open spec fn sorted_by<T>(lt: spec_fn(T, T) -> bool, s: Seq<T>) -> bool {
    forall|i: int, j: int| 0 <= i < j < s.len() ==> !lt(#[trigger] s[j], #[trigger] s[i])
}

/// Inserting adds one element and keeps the others.
pub proof fn lemma_insert_by_elems<T>(lt: spec_fn(T, T) -> bool, s: Seq<T>, x: T)
    ensures
        insert_by(lt, s, x).len() == s.len() + 1,
        forall|k: int|
            0 <= k < insert_by(lt, s, x).len() ==> (#[trigger] insert_by(lt, s, x)[k] == x
                || exists|m: int| 0 <= m < s.len() && insert_by(lt, s, x)[k] == s[m]),
        insert_by(lt, s, x).to_multiset() == s.to_multiset().insert(x),
    decreases s.len(),
{
    broadcast use vstd::seq_lib::group_to_multiset_ensures;

    if s.len() == 0 {
        assert(seq![x] =~= Seq::<T>::empty().push(x));
        assert(s =~= Seq::<T>::empty());
        assert(seq![x].to_multiset() =~= s.to_multiset().insert(x));
    } else if lt(x, s[0]) {
        assert(seq![x].add(s) =~= s.insert(0, x));
        assert(s.insert(0, x).to_multiset() == s.to_multiset().insert(x));
        assert forall|k: int| 0 <= k < seq![x].add(s).len() implies (#[trigger] seq![x].add(s)[k]
            == x || exists|m: int| 0 <= m < s.len() && seq![x].add(s)[k] == s[m]) by {
            if k > 0 {
                assert(seq![x].add(s)[k] == s[k - 1]);
            }
        }
    } else {
        lemma_insert_by_elems(lt, s.skip(1), x);
        let t = insert_by(lt, s.skip(1), x);
        let r = seq![s[0]].add(t);
        assert(r.to_multiset() =~= s.to_multiset().insert(x)) by {
            assert(r =~= t.insert(0, s[0]));
            assert(t.insert(0, s[0]).to_multiset() == t.to_multiset().insert(s[0]));
            assert(s =~= s.skip(1).insert(0, s[0]));
            assert(s.skip(1).insert(0, s[0]).to_multiset() == s.skip(1).to_multiset().insert(
                s[0],
            ));
            broadcast use vstd::multiset::group_multiset_axioms;

        }
        assert forall|k: int| 0 <= k < r.len() implies (#[trigger] r[k] == x || exists|m: int|
            0 <= m < s.len() && r[k] == s[m]) by {
            if k == 0 {
                assert(r[k] == s[0]);
            } else {
                assert(r[k] == insert_by(lt, s.skip(1), x)[k - 1]);
                if r[k] != x {
                    let m = choose|m: int| 0 <= m < s.skip(1).len() && insert_by(
                        lt,
                        s.skip(1),
                        x,
                    )[k - 1] == s.skip(1)[m];
                    assert(r[k] == s[m + 1]);
                }
            }
        }
    }
}

/// Where the new element lands: directly before the first element it is
/// ranked ahead of. This ties the recursive definition to a position found
/// by a scan.
pub proof fn lemma_insert_by_at<T>(lt: spec_fn(T, T) -> bool, s: Seq<T>, x: T, p: int)
    requires
        0 <= p <= s.len(),
        forall|q: int| 0 <= q < p ==> !lt(x, #[trigger] s[q]),
        p < s.len() ==> lt(x, s[p]),
    ensures
        insert_by(lt, s, x) == s.insert(p, x),
    decreases s.len(),
{
    if s.len() == 0 {
        assert(s.insert(0, x) =~= seq![x]);
    } else if p == 0 {
        assert(seq![x].add(s) =~= s.insert(0, x));
    } else {
        assert(!lt(x, s[0]));
        let t = s.skip(1);
        assert forall|q: int| 0 <= q < p - 1 implies !lt(x, #[trigger] t[q]) by {
            assert(t[q] == s[q + 1]);
        }
        if p - 1 < t.len() {
            assert(t[p - 1] == s[p]);
        }
        lemma_insert_by_at(lt, t, x, p - 1);
        assert(seq![s[0]].add(t.insert(p - 1, x)) =~= s.insert(p, x));
    }
}

/// Inserting with a transitive, irreflexive ranking keeps the list sorted.
pub proof fn lemma_insert_by_sorted<T>(lt: spec_fn(T, T) -> bool, s: Seq<T>, x: T)
    requires
        sorted_by(lt, s),
        forall|a: T, b: T, c: T| #[trigger] lt(a, b) && #[trigger] lt(b, c) ==> lt(a, c),
        forall|a: T| !#[trigger] lt(a, a),
    ensures
        sorted_by(lt, insert_by(lt, s, x)),
    decreases s.len(),
{
    if s.len() == 0 {
    } else if lt(x, s[0]) {
        let r = seq![x].add(s);
        assert forall|i: int, j: int| 0 <= i < j < r.len() implies !lt(#[trigger] r[j], #[trigger] r[i]) by {
            if i == 0 {
                assert(r[j] == s[j - 1]);
                if lt(s[j - 1], x) {
                    assert(lt(s[j - 1], s[0]));
                }
            } else {
                assert(r[i] == s[i - 1]);
                assert(r[j] == s[j - 1]);
            }
        }
    } else {
        assert(sorted_by(lt, s.skip(1)));
        lemma_insert_by_sorted(lt, s.skip(1), x);
        lemma_insert_by_elems(lt, s.skip(1), x);
        let t = insert_by(lt, s.skip(1), x);
        let r = seq![s[0]].add(t);
        assert forall|i: int, j: int| 0 <= i < j < r.len() implies !lt(#[trigger] r[j], #[trigger] r[i]) by {
            if i == 0 {
                assert(r[j] == t[j - 1]);
                if t[j - 1] == x {
                    assert(!lt(x, s[0]));
                } else {
                    let m = choose|m: int| 0 <= m < s.skip(1).len() && t[j - 1] == s.skip(1)[m];
                    assert(s.skip(1)[m] == s[m + 1]);
                    assert(!lt(s[m + 1], s[0]));
                }
            } else {
                assert(r[i] == t[i - 1]);
                assert(r[j] == t[j - 1]);
            }
        }
    }
}

/// What sorting yields: the same elements, now obeying the ranking.
pub proof fn lemma_sort_by_sorted<T>(lt: spec_fn(T, T) -> bool, s: Seq<T>)
    requires
        forall|a: T, b: T, c: T| #[trigger] lt(a, b) && #[trigger] lt(b, c) ==> lt(a, c),
        forall|a: T| !#[trigger] lt(a, a),
    ensures
        sorted_by(lt, sort_by(lt, s)),
        sort_by(lt, s).to_multiset() == s.to_multiset(),
        sort_by(lt, s).len() == s.len(),
        forall|k: int|
            0 <= k < sort_by(lt, s).len() ==> exists|m: int|
                0 <= m < s.len() && #[trigger] sort_by(lt, s)[k] == s[m],
    decreases s.len(),
{
    broadcast use vstd::seq_lib::group_to_multiset_ensures;

    if s.len() == 0 {
        assert(sort_by(lt, s).to_multiset() =~= s.to_multiset());
    } else {
        let s0 = s.drop_last();
        lemma_sort_by_sorted(lt, s0);
        lemma_insert_by_sorted(lt, sort_by(lt, s0), s.last());
        lemma_insert_by_elems(lt, sort_by(lt, s0), s.last());
        assert(s =~= s0.push(s.last()));
        assert(s.to_multiset() =~= s0.to_multiset().insert(s.last()));
        let r = sort_by(lt, s);
        assert forall|k: int| 0 <= k < r.len() implies exists|m: int|
            0 <= m < s.len() && #[trigger] r[k] == s[m] by {
            if r[k] == s.last() {
                assert(r[k] == s[s.len() - 1]);
            } else {
                let m1 = choose|m1: int|
                    0 <= m1 < sort_by(lt, s0).len() && r[k] == sort_by(lt, s0)[m1];
                let m2 = choose|m2: int| 0 <= m2 < s0.len() && sort_by(lt, s0)[m1] == s0[m2];
                assert(r[k] == s[m2]);
            }
        }
    }
}

/// Sorting keeps elements pairwise distinct under `eqv` if they were.
pub proof fn lemma_sort_by_distinct<T>(
    lt: spec_fn(T, T) -> bool,
    eqv: spec_fn(T, T) -> bool,
    s: Seq<T>,
)
    requires
        forall|a: T, b: T, c: T| #[trigger] lt(a, b) && #[trigger] lt(b, c) ==> lt(a, c),
        forall|a: T| !#[trigger] lt(a, a),
        forall|a: T, b: T| #[trigger] eqv(a, b) ==> eqv(b, a),
        forall|i: int, j: int| 0 <= i < j < s.len() ==> !eqv(#[trigger] s[i], #[trigger] s[j]),
        forall|a: T| #[trigger] eqv(a, a),
    ensures
        forall|i: int, j: int|
            0 <= i < j < sort_by(lt, s).len() ==> !eqv(
                #[trigger] sort_by(lt, s)[i],
                #[trigger] sort_by(lt, s)[j],
            ),
{
    broadcast use vstd::seq_lib::group_to_multiset_ensures;

    lemma_sort_by_sorted(lt, s);
    let r = sort_by(lt, s);
    assert forall|i: int, j: int| 0 <= i < j < r.len() implies !eqv(
        #[trigger] r[i],
        #[trigger] r[j],
    ) by {
        let mi = choose|mi: int| 0 <= mi < s.len() && r[i] == s[mi];
        let mj = choose|mj: int| 0 <= mj < s.len() && r[j] == s[mj];
        if eqv(r[i], r[j]) {
            if mi == mj {
                // two positions of the sorted view hold one input position's
                // value, so that value occurs twice in the input
                assert(r[i] == r[j]);
                lemma_dup_positions(s, r, i, j);
            } else if mi < mj {
                assert(!eqv(s[mi], s[mj]));
            } else {
                assert(!eqv(s[mj], s[mi]));
                assert(eqv(r[j], r[i]));
            }
        }
    }
}

/// A value sitting at two positions of `r` occurs at two positions of any
/// `s` with the same multiset.
proof fn lemma_dup_positions<T>(s: Seq<T>, r: Seq<T>, i: int, j: int)
    requires
        r.to_multiset() == s.to_multiset(),
        0 <= i < j < r.len(),
        r[i] == r[j],
    ensures
        exists|m1: int, m2: int| 0 <= m1 < m2 < s.len() && s[m1] == r[i] && s[m2] == r[i],
{
    broadcast use vstd::seq_lib::group_to_multiset_ensures;

    let x = r[i];
    lemma_count_ge_two(r, i, j);
    assert(s.to_multiset().count(x) >= 2);
    lemma_two_positions_of_count(s, x);
}

/// An element at two distinct positions gives multiset count at least two.
proof fn lemma_count_ge_two<T>(r: Seq<T>, i: int, j: int)
    requires
        0 <= i < j < r.len(),
        r[i] == r[j],
    ensures
        r.to_multiset().count(r[i]) >= 2,
{
    broadcast use vstd::seq_lib::group_to_multiset_ensures;
    broadcast use vstd::multiset::group_multiset_axioms;

    let x = r[i];
    let r1 = r.remove(i);
    assert(r1.to_multiset() == r.to_multiset().remove(x));
    assert(r1[j - 1] == x);
    assert(r1.contains(x));
    assert(r1.to_multiset().count(x) > 0);
    assert(r.to_multiset().contains(x)) by {
        assert(r.contains(x));
    }
    assert(r.to_multiset().count(x) == r1.to_multiset().count(x) + 1);
}

/// Multiset count at least two gives two distinct positions.
proof fn lemma_two_positions_of_count<T>(s: Seq<T>, x: T)
    requires
        s.to_multiset().count(x) >= 2,
    ensures
        exists|m1: int, m2: int| 0 <= m1 < m2 < s.len() && s[m1] == x && s[m2] == x,
    decreases s.len(),
{
    broadcast use vstd::seq_lib::group_to_multiset_ensures;
    broadcast use vstd::multiset::group_multiset_axioms;

    assert(s.to_multiset().contains(x));
    assert(s.contains(x));
    let m1 = choose|m1: int| 0 <= m1 < s.len() && s[m1] == x;
    let s1 = s.remove(m1);
    assert(s1.to_multiset() == s.to_multiset().remove(x));
    assert(s1.to_multiset().count(x) >= 1);
    assert(s1.to_multiset().contains(x));
    assert(s1.contains(x));
    let k = choose|k: int| 0 <= k < s1.len() && s1[k] == x;
    if k < m1 {
        assert(s[k] == x);
    } else {
        assert(s[k + 1] == x);
    }
}

} // verus!
