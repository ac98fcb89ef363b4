//! A stable sort for values ordered by a rank: an integer, then two texts in
//! lexicographic order.

use vstd::prelude::*;
use crate::text::{
    chars_lt, lemma_chars_lt_asymmetric, lemma_chars_lt_irreflexive, lemma_chars_lt_total,
    lemma_chars_lt_transitive,
};

verus! {

broadcast use vstd::seq_lib::group_filter_ensures;

/// A rank: values are ordered by `.0`, then by `.1`, then by `.2`.
pub type RankKey = (int, Seq<char>, Seq<char>);

/// `a` ranks strictly before `b`.
pub open spec fn key_lt(a: RankKey, b: RankKey) -> bool {
    ||| a.0 < b.0
    ||| (a.0 == b.0 && chars_lt(a.1, b.1))
    ||| (a.0 == b.0 && a.1 == b.1 && chars_lt(a.2, b.2))
}

proof fn lemma_key_lt_irreflexive(a: RankKey)
    ensures
        !key_lt(a, a),
{
    lemma_chars_lt_irreflexive(a.1);
    lemma_chars_lt_irreflexive(a.2);
}

proof fn lemma_key_lt_asymmetric(a: RankKey, b: RankKey)
    requires
        key_lt(a, b),
    ensures
        !key_lt(b, a),
{
    if a.0 == b.0 {
        if chars_lt(a.1, b.1) {
            lemma_chars_lt_asymmetric(a.1, b.1);
            if a.1 == b.1 {
                lemma_chars_lt_irreflexive(a.1);
            }
        } else {
            lemma_chars_lt_asymmetric(a.2, b.2);
            lemma_chars_lt_irreflexive(a.1);
        }
    }
}

proof fn lemma_key_lt_total(a: RankKey, b: RankKey)
    ensures
        a == b || key_lt(a, b) || key_lt(b, a),
{
    lemma_chars_lt_total(a.1, b.1);
    lemma_chars_lt_total(a.2, b.2);
}

proof fn lemma_key_lt_transitive(a: RankKey, b: RankKey, c: RankKey)
    requires
        key_lt(a, b),
        key_lt(b, c),
    ensures
        key_lt(a, c),
{
    if a.0 == b.0 && b.0 == c.0 {
        if chars_lt(a.1, b.1) && chars_lt(b.1, c.1) {
            lemma_chars_lt_transitive(a.1, b.1, c.1);
        } else if a.1 == b.1 && b.1 == c.1 {
            lemma_chars_lt_transitive(a.2, b.2, c.2);
        }
    }
}

/// `!key_lt(b, a)` and `!key_lt(c, b)` give `!key_lt(c, a)`.
proof fn lemma_key_le_transitive(a: RankKey, b: RankKey, c: RankKey)
    requires
        !key_lt(b, a),
        !key_lt(c, b),
    ensures
        !key_lt(c, a),
{
    lemma_key_lt_total(a, b);
    lemma_key_lt_total(b, c);
    if key_lt(c, a) {
        if key_lt(a, b) {
            lemma_key_lt_transitive(c, a, b);
            if key_lt(b, c) {
                lemma_key_lt_transitive(c, b, c);
                lemma_key_lt_irreflexive(c);
            }
        }
    }
}

/// Values that carry a rank.
pub trait Ranked: Sized {
    spec fn rank(&self) -> RankKey;

    /// Whether `self` ranks strictly before `other`.
    fn ranks_before(&self, other: &Self) -> (r: bool)
        ensures
            r == key_lt(self.rank(), other.rank()),
    ;
}

/// No value of `s` ranks before a value that comes earlier in `s`.
pub open spec fn sorted_by_rank<T: Ranked>(s: Seq<T>) -> bool {
    forall|i: int, j: int| 0 <= i < j < s.len() ==> !key_lt(s[j].rank(), s[i].rank())
}

/// The values of `s` whose rank is `k`, in order.
pub open spec fn rank_class<T: Ranked>(s: Seq<T>, k: RankKey) -> Seq<T> {
    s.filter(rank_is::<T>(k))
}

/// The test "has rank `k`".
pub open spec fn rank_is<T: Ranked>(k: RankKey) -> spec_fn(T) -> bool {
    |x: T| x.rank() == k
}

/// `a` and `b` hold the same values of each rank in the same order, so that
/// a sorted `b` is the stable sort of `a`.
pub open spec fn same_rank_classes<T: Ranked>(a: Seq<T>, b: Seq<T>) -> bool {
    forall|k: RankKey| #[trigger] rank_class(a, k) == rank_class(b, k)
}

proof fn lemma_insert_keeps_classes<T: Ranked>(r: Seq<T>, p: int, x: T, k: RankKey)
    requires
        0 <= p <= r.len(),
        forall|i: int| p <= i < r.len() ==> key_lt(x.rank(), #[trigger] r[i].rank()),
    ensures
        rank_class(r.insert(p, x), k) == if x.rank() == k {
            rank_class(r, k).push(x)
        } else {
            rank_class(r, k)
        },
{
    let f = rank_is::<T>(k);
    let a = r.take(p);
    let b = r.skip(p);
    let one = seq![x];
    assert(r == a + b);
    assert(r.insert(p, x) == a + one + b);
    Seq::filter_distributes_over_add(a, b, f);
    Seq::filter_distributes_over_add(a + one, b, f);
    Seq::filter_distributes_over_add(a, one, f);
    lemma_filter_one(x, f);
    if x.rank() == k {
        assert forall|i: int| 0 <= i < b.len() implies !f(b[i]) by {
            assert(b[i] == r[p + i]);
            lemma_key_lt_irreflexive(x.rank());
        }
        b.lemma_all_neg_filter_empty(f);
        assert(b.filter(f) =~= Seq::<T>::empty());
        assert(a.filter(f) + one + b.filter(f) =~= (a.filter(f) + b.filter(f)).push(x));
    } else {
        assert(a.filter(f) + Seq::<T>::empty() + b.filter(f) =~= a.filter(f) + b.filter(f));
    }
}

proof fn lemma_filter_one<T>(x: T, f: spec_fn(T) -> bool)
    ensures
        seq![x].filter(f) == (if f(x) {
            seq![x]
        } else {
            Seq::<T>::empty()
        }),
{
    reveal_with_fuel(Seq::filter, 2);
    assert(seq![x].drop_last() =~= Seq::<T>::empty());
    assert(seq![x].last() == x);
    assert(Seq::<T>::empty().push(x) =~= seq![x]);
}

/// The rank of a value, as a function.
pub open spec fn rank_of<T: Ranked>() -> spec_fn(T) -> RankKey {
    |x: T| x.rank()
}

/// Where a stable insertion puts `x` into the sorted `r`: after every value
/// that does not rank after it.
pub open spec fn insert_pos<A>(r: Seq<A>, x: A, key: spec_fn(A) -> RankKey) -> int
    decreases r.len(),
{
    if r.len() == 0 {
        0
    } else if key_lt(key(x), key(r.last())) {
        insert_pos(r.drop_last(), x, key)
    } else {
        r.len() as int
    }
}

/// The stable sort of `s` by `key`: each value inserted, in order, after
/// the values that do not rank after it.
pub open spec fn sort_by_rank<A>(s: Seq<A>, key: spec_fn(A) -> RankKey) -> Seq<A>
    decreases s.len(),
{
    if s.len() == 0 {
        s
    } else {
        let r = sort_by_rank(s.drop_last(), key);
        r.insert(insert_pos(r, s.last(), key), s.last())
    }
}

proof fn lemma_insert_pos_bounds<A>(r: Seq<A>, x: A, key: spec_fn(A) -> RankKey)
    ensures
        0 <= insert_pos(r, x, key) <= r.len(),
    decreases r.len(),
{
    if r.len() > 0 {
        lemma_insert_pos_bounds(r.drop_last(), x, key);
    }
}

/// No value of `s` ranks, by `key`, before a value that comes earlier.
pub open spec fn sorted_by_key<A>(s: Seq<A>, key: spec_fn(A) -> RankKey) -> bool {
    forall|i: int, j: int| 0 <= i < j < s.len() ==> !key_lt(key(s[j]), key(s[i]))
}

proof fn lemma_lt_le(a: RankKey, b: RankKey, c: RankKey)
    requires
        key_lt(a, b),
        !key_lt(c, b),
    ensures
        key_lt(a, c),
{
    lemma_key_lt_total(b, c);
    if key_lt(b, c) {
        lemma_key_lt_transitive(a, b, c);
    }
}

proof fn lemma_insert_pos_split<A>(r: Seq<A>, x: A, key: spec_fn(A) -> RankKey)
    requires
        sorted_by_key(r, key),
    ensures
        forall|i: int| 0 <= i < insert_pos(r, x, key) ==> !key_lt(key(x), key(#[trigger] r[i])),
        forall|i: int| insert_pos(r, x, key) <= i < r.len() ==> key_lt(key(x), key(#[trigger] r[i])),
    decreases r.len(),
{
    lemma_insert_pos_bounds(r, x, key);
    if r.len() > 0 {
        let init = r.drop_last();
        assert(sorted_by_key(init, key)) by {
            assert forall|i: int, j: int| 0 <= i < j < init.len() implies !key_lt(
                key(init[j]),
                key(init[i]),
            ) by {
                assert(init[i] == r[i] && init[j] == r[j]);
            }
        }
        if key_lt(key(x), key(r.last())) {
            lemma_insert_pos_split(init, x, key);
            assert forall|i: int| 0 <= i < insert_pos(r, x, key) implies !key_lt(
                key(x),
                key(#[trigger] r[i]),
            ) by {
                assert(r[i] == init[i]);
            }
            assert forall|i: int| insert_pos(r, x, key) <= i < r.len() implies key_lt(
                key(x),
                key(#[trigger] r[i]),
            ) by {
                if i < r.len() - 1 {
                    assert(r[i] == init[i]);
                }
            }
        } else {
            assert forall|i: int| 0 <= i < insert_pos(r, x, key) implies !key_lt(
                key(x),
                key(#[trigger] r[i]),
            ) by {
                if i < r.len() - 1 && key_lt(key(x), key(r[i])) {
                    assert(!key_lt(key(r[r.len() - 1]), key(r[i])));
                    lemma_lt_le(key(x), key(r[i]), key(r[r.len() - 1]));
                }
            }
        }
    }
}

/// The stable sort is sorted: no value ranks before an earlier one.
pub proof fn lemma_sort_by_rank_sorted<A>(s: Seq<A>, key: spec_fn(A) -> RankKey)
    ensures
        sorted_by_key(sort_by_rank(s, key), key),
    decreases s.len(),
{
    if s.len() > 0 {
        lemma_sort_by_rank_sorted(s.drop_last(), key);
        let r = sort_by_rank(s.drop_last(), key);
        let x = s.last();
        lemma_insert_pos_split(r, x, key);
        lemma_insert_pos_bounds(r, x, key);
        let p = insert_pos(r, x, key);
        let t = r.insert(p, x);
        assert forall|i: int, j: int| 0 <= i < j < t.len() implies !key_lt(key(t[j]), key(t[i])) by {
            if j < p {
                assert(t[i] == r[i] && t[j] == r[j]);
            } else if j == p {
                assert(t[i] == r[i] && t[j] == x);
            } else if i == p {
                assert(t[i] == x && t[j] == r[j - 1]);
                lemma_key_lt_asymmetric(key(x), key(r[j - 1]));
            } else if i < p {
                assert(t[i] == r[i] && t[j] == r[j - 1]);
            } else {
                assert(t[i] == r[i - 1] && t[j] == r[j - 1]);
            }
        }
    }
}

/// Sorting keeps every value as often as it was there.
pub proof fn lemma_sort_by_rank_multiset<A>(s: Seq<A>, key: spec_fn(A) -> RankKey)
    ensures
        sort_by_rank(s, key).to_multiset() == s.to_multiset(),
    decreases s.len(),
{
    broadcast use vstd::seq_lib::group_to_multiset_ensures;

    if s.len() > 0 {
        lemma_sort_by_rank_multiset(s.drop_last(), key);
        let r = sort_by_rank(s.drop_last(), key);
        lemma_insert_pos_bounds(r, s.last(), key);
        vstd::seq_lib::to_multiset_insert(r, insert_pos(r, s.last(), key), s.last());
        assert(s.drop_last().push(s.last()) == s);
    }
}

/// Sorting commutes with a map that keeps ranks.
pub proof fn lemma_sort_by_rank_map<A, B>(
    s: Seq<A>,
    ka: spec_fn(A) -> RankKey,
    f: spec_fn(A) -> B,
    kb: spec_fn(B) -> RankKey,
)
    requires
        forall|x: A| #[trigger] kb(f(x)) == ka(x),
    ensures
        sort_by_rank(s.map_values(f), kb) == sort_by_rank(s, ka).map_values(f),
    decreases s.len(),
{
    if s.len() > 0 {
        lemma_sort_by_rank_map(s.drop_last(), ka, f, kb);
        assert(s.map_values(f).drop_last() == s.drop_last().map_values(f));
        let r = sort_by_rank(s.drop_last(), ka);
        lemma_insert_pos_map(r, s.last(), ka, f, kb);
        lemma_insert_pos_bounds(r, s.last(), ka);
        let p = insert_pos(r, s.last(), ka);
        assert(r.insert(p, s.last()).map_values(f) =~= r.map_values(f).insert(p, f(s.last())));
    } else {
        assert(s.map_values(f) =~= Seq::<B>::empty());
    }
}

proof fn lemma_insert_pos_map<A, B>(
    r: Seq<A>,
    x: A,
    ka: spec_fn(A) -> RankKey,
    f: spec_fn(A) -> B,
    kb: spec_fn(B) -> RankKey,
)
    requires
        forall|y: A| #[trigger] kb(f(y)) == ka(y),
    ensures
        insert_pos(r.map_values(f), f(x), kb) == insert_pos(r, x, ka),
    decreases r.len(),
{
    if r.len() > 0 {
        assert(r.map_values(f).drop_last() == r.drop_last().map_values(f));
        assert(r.map_values(f).last() == f(r.last()));
        assert(kb(f(r.last())) == ka(r.last()));
        assert(kb(f(x)) == ka(x));
        lemma_insert_pos_map(r.drop_last(), x, ka, f, kb);
    }
}

/// Sorts by rank, keeping values of equal rank in the order they came in.
pub fn stable_sort<T: Ranked>(v: Vec<T>) -> (r: Vec<T>)
    ensures
        r@ == sort_by_rank(v@, rank_of::<T>()),
        r@.len() == v@.len(),
        sorted_by_rank(r@),
        same_rank_classes(v@, r@),
        forall|i: int| 0 <= i < r@.len() ==> v@.contains(#[trigger] r@[i]),
{
    let ghost input = v@;
    let mut r: Vec<T> = Vec::new();
    let mut rest = v;
    let ghost mut done: int = 0;
    proof {
        assert forall|k: RankKey| #[trigger] rank_class(input.take(0), k) == rank_class(r@, k) by {
            assert(input.take(0) =~= r@);
        }
    }
    while rest.len() > 0
        invariant
            0 <= done <= input.len(),
            rest@ == input.skip(done),
            r@.len() == done,
            sorted_by_rank(r@),
            same_rank_classes(input.take(done), r@),
            r@ == sort_by_rank(input.take(done), rank_of::<T>()),
            forall|i: int| 0 <= i < r@.len() ==> input.contains(#[trigger] r@[i]),
        decreases rest@.len(),
    {
        let x = rest.remove(0);
        assert(x == input[done]);
        let mut p = r.len();
        assert(r@.take(p as int) == r@);
        while p > 0 && x.ranks_before(&r[p - 1])
            invariant
                p <= r@.len(),
                forall|i: int| p <= i < r@.len() ==> key_lt(x.rank(), #[trigger] r@[i].rank()),
                insert_pos(r@, x, rank_of::<T>()) == insert_pos(r@.take(p as int), x, rank_of::<T>()),
            decreases p,
        {
            assert(r@.take(p as int).drop_last() == r@.take(p - 1));
            assert(r@.take(p as int).last() == r@[p - 1]);
            p -= 1;
        }
        assert(insert_pos(r@.take(p as int), x, rank_of::<T>()) == p) by {
            if p > 0 {
                assert(r@.take(p as int).last() == r@[p - 1]);
            }
        }
        proof {
            if p > 0 {
                assert forall|i: int| 0 <= i < p implies !key_lt(x.rank(), #[trigger] r@[i].rank()) by {
                    if i < p - 1 {
                        lemma_key_le_transitive(r@[i].rank(), r@[p - 1].rank(), x.rank());
                    }
                }
            }
        }
        let ghost old_r = r@;
        r.insert(p, x);
        proof {
            assert(r@ == old_r.insert(p as int, x));
            assert forall|i: int, j: int| 0 <= i < j < r@.len() implies !key_lt(
                r@[j].rank(),
                r@[i].rank(),
            ) by {
                if j < p {
                    assert(r@[i] == old_r[i] && r@[j] == old_r[j]);
                } else if j == p {
                    assert(r@[i] == old_r[i]);
                } else if i == p {
                    assert(r@[j] == old_r[j - 1]);
                    lemma_key_lt_asymmetric(x.rank(), old_r[j - 1].rank());
                } else if i < p {
                    assert(r@[i] == old_r[i] && r@[j] == old_r[j - 1]);
                } else {
                    assert(r@[i] == old_r[i - 1] && r@[j] == old_r[j - 1]);
                }
            }
            assert forall|k: RankKey| #[trigger] rank_class(input.take(done + 1), k) == rank_class(
                r@,
                k,
            ) by {
                lemma_insert_keeps_classes(old_r, p as int, x, k);
                let f = rank_is::<T>(k);
                assert(input.take(done + 1) == input.take(done) + seq![x]);
                Seq::filter_distributes_over_add(input.take(done), seq![x], f);
                lemma_filter_one(x, f);
                assert(rank_class(input.take(done), k) == rank_class(old_r, k));
                if x.rank() == k {
                    assert(input.take(done).filter(f) + seq![x] =~= input.take(done).filter(f).push(x));
                } else {
                    assert(input.take(done).filter(f) + Seq::<T>::empty() =~= input.take(done).filter(f));
                }
            }
            assert forall|i: int| 0 <= i < r@.len() implies input.contains(#[trigger] r@[i]) by {
                if i < p {
                    assert(r@[i] == old_r[i]);
                } else if i == p {
                    assert(input[done] == x);
                } else {
                    assert(r@[i] == old_r[i - 1]);
                }
            }
            assert(input.take(done + 1).drop_last() == input.take(done));
            assert(input.take(done + 1).last() == x);
            done = done + 1;
            assert(input.skip(done - 1).remove(0) =~= input.skip(done));
        }
    }
    assert(input.take(done) == input);
    r
}

} // verus!
