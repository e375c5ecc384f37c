//! A stable sort for values with a rank.

use vstd::prelude::*;

verus! {

/// Values that can be told apart by rank. Two values of which neither comes before the other have
/// the same rank.
pub trait Rank: Sized {
    /// `self` has a lower rank than `other`.
    spec fn precedes(self, other: Self) -> bool;

    /// No two values come before each other.
    proof fn lemma_asymmetric(a: Self, b: Self)
        ensures
            a.precedes(b) ==> !b.precedes(a),
    ;

    /// What does not come after a value does not come after a value that itself does not come
    /// before it.
    proof fn lemma_transitive(a: Self, b: Self, c: Self)
        ensures
            !b.precedes(a) && !c.precedes(b) ==> !c.precedes(a),
    ;
}

/// Values whose ranks can be compared at run time.
pub trait Ranked: Rank {
    /// Tests whether `self` has a lower rank than `other`.
    fn comes_before(&self, other: &Self) -> (r: bool)
        ensures
            r == self.precedes(*other),
    ;
}

/// The two values have the same rank.
pub open spec fn same_rank<T: Rank>(a: T, b: T) -> bool {
    !a.precedes(b) && !b.precedes(a)
}

/// No value stands behind one of a higher rank.
pub open spec fn is_sorted<T: Rank>(s: Seq<T>) -> bool {
    forall|i: int, j: int| 0 <= i < j < s.len() ==> !(#[trigger] s[j]).precedes(#[trigger] s[i])
}

/// The values of the rank of `p`, in the order in which they stand in `s`.
pub open spec fn rank_class<T: Rank>(s: Seq<T>, p: T) -> Seq<T> {
    s.filter(|x: T| same_rank(p, x))
}

/// `r` holds the values of `s` by ascending rank, and those of one rank in the order of `s`.
pub open spec fn is_stable_sort<T: Rank>(r: Seq<T>, s: Seq<T>) -> bool {
    &&& is_sorted(r)
    &&& forall|p: T| #[trigger] rank_class(r, p) == rank_class(s, p)
}

/// The values of `s` by ascending rank, and those of one rank in the order of `s`.
pub open spec fn stable_sorted<T: Rank>(s: Seq<T>) -> Seq<T> {
    choose|r: Seq<T>| is_stable_sort(r, s)
}

proof fn lemma_class_add<T: Rank>(a: Seq<T>, b: Seq<T>, p: T)
    ensures
        rank_class(a + b, p) == rank_class(a, p) + rank_class(b, p),
{
    Seq::filter_distributes_over_add(a, b, |x: T| same_rank(p, x));
}

proof fn lemma_class_one<T: Rank>(x: T, p: T)
    ensures
        rank_class(seq![x], p) == (if same_rank(p, x) {
            seq![x]
        } else {
            Seq::empty()
        }),
{
    reveal_with_fuel(Seq::filter, 2);
    assert(seq![x].drop_last() =~= Seq::<T>::empty());
    assert(rank_class(seq![x], p) =~= (if same_rank(p, x) {
        seq![x]
    } else {
        Seq::empty()
    }));
}

proof fn lemma_class_none<T: Rank>(s: Seq<T>, p: T)
    requires
        forall|i: int| 0 <= i < s.len() ==> !same_rank(p, #[trigger] s[i]),
    ensures
        rank_class(s, p) == Seq::<T>::empty(),
    decreases s.len(),
{
    reveal(Seq::filter);
    if s.len() > 0 {
        lemma_class_none(s.drop_last(), p);
    }
}

proof fn lemma_rank_transfer<T: Rank>(p: T, a: T, b: T)
    requires
        same_rank(p, a),
    ensures
        a.precedes(b) == p.precedes(b),
        b.precedes(a) == b.precedes(p),
{
    T::lemma_transitive(p, b, a);
    T::lemma_transitive(a, b, p);
    T::lemma_transitive(b, a, p);
    T::lemma_transitive(b, p, a);
    T::lemma_transitive(a, p, b);
    T::lemma_transitive(p, a, b);
    T::lemma_asymmetric(a, b);
    T::lemma_asymmetric(p, b);
}

proof fn lemma_class_member<T: Rank>(s: Seq<T>, p: T, i: int)
    requires
        0 <= i < rank_class(s, p).len(),
    ensures
        s.contains(rank_class(s, p)[i]),
        same_rank(p, rank_class(s, p)[i]),
    decreases s.len(),
{
    reveal(Seq::filter);
    let rest = s.drop_last();
    assert(s.len() > 0);
    if i < rank_class(rest, p).len() {
        lemma_class_member(rest, p, i);
        let k = choose|k: int| 0 <= k < rest.len() && rest[k] == rank_class(rest, p)[i];
        assert(s[k] == rank_class(s, p)[i]);
    } else {
        assert(s[s.len() - 1] == rank_class(s, p)[i]);
    }
}

/// A sequence has one stable sort only.
pub proof fn lemma_stable_sort_unique<T: Rank>(a: Seq<T>, b: Seq<T>)
    requires
        is_sorted(a),
        is_sorted(b),
        forall|p: T| #[trigger] rank_class(a, p) == rank_class(b, p),
    ensures
        a == b,
    decreases a.len(),
{
    if a.len() == 0 {
        if b.len() > 0 {
            let x = b[0];
            lemma_first_in_class(b);
            assert(rank_class(a, x) == rank_class(b, x));
            lemma_class_none(a, x);
        }
        assert(a =~= b);
    } else {
        let x = a[0];
        lemma_first_in_class(a);
        assert(rank_class(a, x) == rank_class(b, x));
        lemma_class_member(b, x, 0);
        let y = b[0];
        lemma_first_in_class(b);
        assert(rank_class(a, y) == rank_class(b, y));
        lemma_class_member(a, y, 0);
        let k = choose|k: int| 0 <= k < b.len() && b[k] == x;
        let m = choose|m: int| 0 <= m < a.len() && a[m] == y;
        T::lemma_asymmetric(x, x);
        assert(!x.precedes(y)) by {
            if k > 0 {
                assert(!b[k].precedes(b[0]));
            }
        }
        assert(!y.precedes(x)) by {
            if m > 0 {
                assert(!a[m].precedes(a[0]));
            }
        }
        assert(same_rank(x, y));
        // The first value of the class of `x` is the first value of either sequence.
        lemma_class_split(b, x);
        lemma_class_split(a, x);
        assert(x == y);
        let a1 = a.drop_first();
        let b1 = b.drop_first();
        assert forall|p: T| #[trigger] rank_class(a1, p) == rank_class(b1, p) by {
            assert(rank_class(a, p) == rank_class(b, p));
            lemma_class_split(a, p);
            lemma_class_split(b, p);
            if same_rank(p, x) {
                assert(rank_class(a1, p) =~= rank_class(a, p).drop_first());
                assert(rank_class(b1, p) =~= rank_class(b, p).drop_first());
            } else {
                assert(rank_class(a1, p) =~= rank_class(a, p));
                assert(rank_class(b1, p) =~= rank_class(b, p));
            }
        }
        lemma_stable_sort_unique(a1, b1);
        assert(a =~= seq![x] + a1);
        assert(b =~= seq![x] + b1);
    }
}

proof fn lemma_class_split<T: Rank>(s: Seq<T>, p: T)
    requires
        s.len() > 0,
    ensures
        rank_class(s, p) == (if same_rank(p, s[0]) {
            seq![s[0]] + rank_class(s.drop_first(), p)
        } else {
            rank_class(s.drop_first(), p)
        }),
{
    assert(s =~= seq![s[0]] + s.drop_first());
    lemma_class_add(seq![s[0]], s.drop_first(), p);
    lemma_class_one(s[0], p);
    assert(Seq::<T>::empty() + rank_class(s.drop_first(), p) =~= rank_class(s.drop_first(), p));
}

proof fn lemma_first_in_class<T: Rank>(s: Seq<T>)
    requires
        s.len() > 0,
    ensures
        rank_class(s, s[0]).len() > 0,
        rank_class(s, s[0])[0] == s[0],
{
    lemma_class_split(s, s[0]);
    T::lemma_asymmetric(s[0], s[0]);
}

fn reversed<T>(values: Vec<T>) -> (r: Vec<T>)
    ensures
        r@ == values@.reverse(),
{
    let ghost all = values@;
    let mut from = values;
    let mut out: Vec<T> = Vec::new();
    while from.len() > 0
        invariant
            from@.len() + out@.len() == all.len(),
            from@ == all.take(from@.len() as int),
            forall|i: int| 0 <= i < out@.len() ==> out@[i] == all[all.len() - 1 - i],
        decreases from@.len(),
    {
        let ghost before = from@;
        match from.pop() {
            Some(x) => {
                out.push(x);
            },
            None => {},
        }
        assert(before.drop_last() =~= all.take(from@.len() as int));
    }
    assert(out@ =~= all.reverse());
    out
}

/// The values still to be merged stand below those already taken.
spec fn is_below<T: Rank>(rest: Seq<T>, taken: Seq<T>) -> bool {
    forall|i: int, j: int|
        0 <= i < rest.len() && 0 <= j < taken.len() ==> !(#[trigger] taken[j]).precedes(
            #[trigger] rest[i],
        )
}

proof fn lemma_take_last<T: Rank>(rest: Seq<T>, other: Seq<T>, taken: Seq<T>)
    requires
        rest.len() > 0,
        is_sorted(rest),
        is_sorted(taken),
        is_below(rest, taken),
        is_below(other, taken),
        forall|i: int| 0 <= i < other.len() ==> !rest.last().precedes(#[trigger] other[i]),
    ensures
        is_sorted(rest.drop_last()),
        is_sorted(seq![rest.last()] + taken),
        is_below(rest.drop_last(), seq![rest.last()] + taken),
        is_below(other, seq![rest.last()] + taken),
{
    let next = seq![rest.last()] + taken;
    assert forall|i: int, j: int| 0 <= i < j < next.len() implies !(#[trigger] next[j]).precedes(
        #[trigger] next[i],
    ) by {
        if i == 0 {
            assert(next[j] == taken[j - 1]);
            assert(rest[rest.len() - 1] == next[i]);
        } else {
            assert(next[j] == taken[j - 1]);
            assert(next[i] == taken[i - 1]);
        }
    }
    assert forall|i: int, j: int|
        0 <= i < rest.len() - 1 && 0 <= j < next.len() implies !(#[trigger] next[j]).precedes(
        #[trigger] rest.drop_last()[i],
    ) by {
        assert(rest.drop_last()[i] == rest[i]);
        if j > 0 {
            assert(next[j] == taken[j - 1]);
        }
    }
    assert forall|i: int, j: int|
        0 <= i < other.len() && 0 <= j < next.len() implies !(#[trigger] next[j]).precedes(
        #[trigger] other[i],
    ) by {
        if j > 0 {
            assert(next[j] == taken[j - 1]);
        }
    }
}

/// Merges two sorted vectors. Of two values of one rank, that of `left` comes first.
fn merge<T: Ranked>(left: Vec<T>, right: Vec<T>) -> (r: Vec<T>)
    requires
        is_sorted(left@),
        is_sorted(right@),
    ensures
        is_stable_sort(r@, left@ + right@),
{
    let ghost all = left@ + right@;
    let mut left = left;
    let mut right = right;
    let mut out: Vec<T> = Vec::new();
    proof {
        assert(out@.reverse() =~= Seq::<T>::empty());
        assert(left@ + right@ + out@.reverse() =~= all);
    }
    while left.len() > 0 || right.len() > 0
        invariant
            is_sorted(left@),
            is_sorted(right@),
            is_sorted(out@.reverse()),
            is_below(left@, out@.reverse()),
            is_below(right@, out@.reverse()),
            forall|p: T| #[trigger]
                rank_class(left@ + right@ + out@.reverse(), p) == rank_class(all, p),
        decreases left@.len() + right@.len(),
    {
        let ghost l = left@;
        let ghost r = right@;
        let ghost taken = out@.reverse();
        let from_left = if left.len() == 0 {
            false
        } else if right.len() == 0 {
            true
        } else {
            right[right.len() - 1].comes_before(&left[left.len() - 1])
        };
        if from_left {
            proof {
                T::lemma_asymmetric(l.last(), l.last());
                assert forall|i: int| 0 <= i < r.len() implies (#[trigger] r[i]).precedes(
                    l.last(),
                ) by {
                    if i < r.len() - 1 {
                        assert(!r[r.len() - 1].precedes(r[i]));
                        T::lemma_transitive(l.last(), r[i], r.last());
                    }
                }
                assert forall|i: int| 0 <= i < r.len() implies !l.last().precedes(
                    #[trigger] r[i],
                ) by {
                    T::lemma_asymmetric(r[i], l.last());
                }
                lemma_take_last(l, r, taken);
            }
            match left.pop() {
                Some(x) => {
                    out.push(x);
                },
                None => {},
            }
            proof {
                assert(out@.reverse() =~= seq![l.last()] + taken);
                assert(left@ == l.drop_last());
                assert forall|p: T| #[trigger]
                    rank_class(left@ + right@ + out@.reverse(), p) == rank_class(all, p) by {
                    assert(rank_class(l + r + taken, p) == rank_class(all, p));
                    let one = seq![l.last()];
                    assert(l =~= left@ + one);
                    lemma_class_add(left@, one, p);
                    lemma_class_add(l, r, p);
                    lemma_class_add(l + r, taken, p);
                    lemma_class_add(left@, r, p);
                    lemma_class_add(one, taken, p);
                    lemma_class_add(left@ + r, out@.reverse(), p);
                    lemma_class_one(l.last(), p);
                    if same_rank(p, l.last()) {
                        assert forall|i: int| 0 <= i < r.len() implies !same_rank(
                            p,
                            #[trigger] r[i],
                        ) by {
                            lemma_rank_transfer(p, l.last(), r[i]);
                        }
                        lemma_class_none(r, p);
                    }
                    assert(rank_class(left@, p) + rank_class(one, p) + rank_class(r, p)
                        + rank_class(taken, p) =~= rank_class(left@, p) + rank_class(r, p) + (
                    rank_class(one, p) + rank_class(taken, p)));
                }
            }
        } else {
            proof {
                assert forall|i: int| 0 <= i < l.len() implies !r.last().precedes(
                    #[trigger] l[i],
                ) by {
                    if i < l.len() - 1 {
                        assert(!l[l.len() - 1].precedes(l[i]));
                        T::lemma_transitive(l[i], l.last(), r.last());
                    }
                }
                lemma_take_last(r, l, taken);
            }
            match right.pop() {
                Some(x) => {
                    out.push(x);
                },
                None => {},
            }
            proof {
                assert(out@.reverse() =~= seq![r.last()] + taken);
                assert(right@ == r.drop_last());
                assert(left@ + right@ + out@.reverse() =~= l + r + taken);
            }
        }
    }
    let r = reversed(out);
    assert(left@ + right@ + out@.reverse() =~= r@);
    r
}

/// Sorts by ascending rank. Values of one rank keep their order.
pub fn sort<T: Ranked>(values: Vec<T>) -> (r: Vec<T>)
    ensures
        is_stable_sort(r@, values@),
        r@ == stable_sorted(values@),
    decreases values@.len(),
{
    if values.len() <= 1 {
        proof {
            assert(is_stable_sort(values@, values@));
            lemma_stable_sort_unique(values@, stable_sorted(values@));
        }
        return values;
    }
    let ghost all = values@;
    let mut left = values;
    let middle: usize = left.len() / 2;
    let right = left.split_off(middle);
    assert(left@ + right@ =~= all);
    let ghost l = left@;
    let ghost r = right@;
    let left = sort(left);
    let right = sort(right);
    let merged = merge(left, right);
    proof {
        assert forall|p: T| #[trigger] rank_class(merged@, p) == rank_class(all, p) by {
            assert(rank_class(merged@, p) == rank_class(left@ + right@, p));
            lemma_class_add(left@, right@, p);
            lemma_class_add(l, r, p);
            assert(rank_class(left@, p) == rank_class(l, p));
            assert(rank_class(right@, p) == rank_class(r, p));
        }
        assert(is_stable_sort(merged@, all));
        let chosen = stable_sorted(all);
        assert(is_stable_sort(chosen, all));
        assert forall|p: T| #[trigger] rank_class(merged@, p) == rank_class(chosen, p) by {
            assert(rank_class(chosen, p) == rank_class(all, p));
        }
        lemma_stable_sort_unique(merged@, chosen);
    }
    merged
}

proof fn lemma_insert_exists<T: Rank>(r: Seq<T>, s: Seq<T>, x: T) -> (t: Seq<T>)
    requires
        is_stable_sort(r, s),
    ensures
        is_stable_sort(t, s.push(x)),
    decreases r.len(),
{
    let k = insertion_index(r, x);
    lemma_insertion_index(r, x);
    let low = r.take(k);
    let high = r.skip(k);
    let t = low + seq![x] + high;
    T::lemma_asymmetric(x, x);
    assert forall|i: int, j: int| 0 <= i < j < t.len() implies !(#[trigger] t[j]).precedes(
        #[trigger] t[i],
    ) by {
        if i < k && j == k {
            assert(t[i] == r[i]);
            if k > 0 {
                T::lemma_transitive(r[i], r[k - 1], x);
                if i < k - 1 {
                    assert(!r[k - 1].precedes(r[i]));
                }
            }
        } else if i == k && j > k {
            assert(t[j] == r[j - 1]);
            assert(x.precedes(r[j - 1]));
            T::lemma_asymmetric(x, r[j - 1]);
        } else if i < k && j < k {
            assert(t[i] == r[i] && t[j] == r[j]);
        } else if i < k && j > k {
            assert(t[i] == r[i] && t[j] == r[j - 1]);
        } else if i > k {
            assert(t[i] == r[i - 1] && t[j] == r[j - 1]);
        }
    }
    assert forall|p: T| #[trigger] rank_class(t, p) == rank_class(s.push(x), p) by {
        assert(rank_class(r, p) == rank_class(s, p));
        assert(r =~= low + high);
        lemma_class_add(low, high, p);
        lemma_class_add(low, seq![x], p);
        lemma_class_add(low + seq![x], high, p);
        assert(s.push(x) =~= s + seq![x]);
        lemma_class_add(s, seq![x], p);
        lemma_class_one(x, p);
        if same_rank(p, x) {
            assert forall|i: int| 0 <= i < high.len() implies !same_rank(p, #[trigger] high[i]) by {
                assert(high[i] == r[k + i]);
                lemma_rank_transfer(p, x, high[i]);
            }
            lemma_class_none(high, p);
        }
        assert(rank_class(t, p) =~= rank_class(s.push(x), p));
    }
    t
}

/// The number of values of a sorted sequence that stay before a new value behind them.
spec fn insertion_index<T: Rank>(r: Seq<T>, x: T) -> int
    decreases r.len(),
{
    if r.len() > 0 && x.precedes(r.last()) {
        insertion_index(r.drop_last(), x)
    } else {
        r.len() as int
    }
}

proof fn lemma_insertion_index<T: Rank>(r: Seq<T>, x: T)
    ensures
        0 <= insertion_index(r, x) <= r.len(),
        insertion_index(r, x) > 0 ==> !x.precedes(r[insertion_index(r, x) - 1]),
        forall|i: int| insertion_index(r, x) <= i < r.len() ==> x.precedes(#[trigger] r[i]),
    decreases r.len(),
{
    if r.len() > 0 && x.precedes(r.last()) {
        lemma_insertion_index(r.drop_last(), x);
        assert forall|i: int| insertion_index(r, x) <= i < r.len() implies x.precedes(
            #[trigger] r[i],
        ) by {
            if i < r.len() - 1 {
                assert(r.drop_last()[i] == r[i]);
            }
        }
    }
}

/// Every sequence has a stable sort.
pub proof fn lemma_stable_sorted<T: Rank>(s: Seq<T>)
    ensures
        is_stable_sort(stable_sorted(s), s),
    decreases s.len(),
{
    if s.len() == 0 {
        assert(is_stable_sort(s, s));
    } else {
        lemma_stable_sorted(s.drop_last());
        let t = lemma_insert_exists(stable_sorted(s.drop_last()), s.drop_last(), s.last());
        assert(s.drop_last().push(s.last()) =~= s);
        assert(is_stable_sort(t, s));
    }
}

proof fn lemma_count_in_class<T: Rank>(s: Seq<T>, x: T)
    ensures
        rank_class(s, x).to_multiset().count(x) == s.to_multiset().count(x),
    decreases s.len(),
{
    reveal(Seq::filter);
    T::lemma_asymmetric(x, x);
    s.to_multiset_ensures();
    rank_class(s, x).to_multiset_ensures();
    if s.len() > 0 {
        let rest = s.drop_last();
        lemma_count_in_class(rest, x);
        rest.to_multiset_ensures();
        rank_class(rest, x).to_multiset_ensures();
        assert(s =~= rest.push(s.last()));
    }
}

/// A stable sort holds the same values as the sequence, each as many times.
pub proof fn lemma_stable_sort_permutes<T: Rank>(r: Seq<T>, s: Seq<T>)
    requires
        is_stable_sort(r, s),
    ensures
        r.to_multiset() == s.to_multiset(),
        r.len() == s.len(),
{
    assert forall|x: T| r.to_multiset().count(x) == s.to_multiset().count(x) by {
        assert(rank_class(r, x) == rank_class(s, x));
        lemma_count_in_class(r, x);
        lemma_count_in_class(s, x);
    }
    assert(r.to_multiset() =~= s.to_multiset());
    r.to_multiset_ensures();
    s.to_multiset_ensures();
}

proof fn lemma_class_map<A: Rank, B: Rank>(s: Seq<A>, f: spec_fn(A) -> B, p: A, q: B)
    requires
        forall|x: A, y: A| #[trigger] f(x).precedes(#[trigger] f(y)) == x.precedes(y),
        same_rank(q, f(p)),
    ensures
        rank_class(s.map_values(f), q) == rank_class(s, p).map_values(f),
    decreases s.len(),
{
    reveal(Seq::filter);
    if s.len() > 0 {
        let rest = s.drop_last();
        lemma_class_map(rest, f, p, q);
        assert(s.map_values(f).drop_last() =~= rest.map_values(f));
        assert(s.map_values(f).last() == f(s.last()));
        lemma_rank_transfer(q, f(p), f(s.last()));
        assert(same_rank(q, f(s.last())) == same_rank(p, s.last()));
    }
    assert(rank_class(s.map_values(f), q) =~= rank_class(s, p).map_values(f));
}

/// A map that keeps ranks apart and together takes the stable sort of a sequence to the stable
/// sort of its image.
pub proof fn lemma_stable_sort_map<A: Rank, B: Rank>(r: Seq<A>, s: Seq<A>, f: spec_fn(A) -> B)
    requires
        is_stable_sort(r, s),
        forall|x: A, y: A| #[trigger] f(x).precedes(#[trigger] f(y)) == x.precedes(y),
    ensures
        is_stable_sort(r.map_values(f), s.map_values(f)),
        r.map_values(f) == stable_sorted(s.map_values(f)),
{
    let rf = r.map_values(f);
    let sf = s.map_values(f);
    assert forall|i: int, j: int| 0 <= i < j < rf.len() implies !(#[trigger] rf[j]).precedes(
        #[trigger] rf[i],
    ) by {
        assert(rf[j] == f(r[j]) && rf[i] == f(r[i]));
        assert(!r[j].precedes(r[i]));
    }
    assert forall|q: B| #[trigger] rank_class(rf, q) == rank_class(sf, q) by {
        if exists|p: A| same_rank(q, #[trigger] f(p)) {
            let p = choose|p: A| same_rank(q, #[trigger] f(p));
            lemma_class_map(r, f, p, q);
            lemma_class_map(s, f, p, q);
            assert(rank_class(r, p) == rank_class(s, p));
        } else {
            assert forall|i: int| 0 <= i < rf.len() implies !same_rank(q, #[trigger] rf[i]) by {
                assert(rf[i] == f(r[i]));
            }
            assert forall|i: int| 0 <= i < sf.len() implies !same_rank(q, #[trigger] sf[i]) by {
                assert(sf[i] == f(s[i]));
            }
            lemma_class_none(rf, q);
            lemma_class_none(sf, q);
        }
    }
    lemma_stable_sorted(sf);
    assert forall|q: B| #[trigger] rank_class(rf, q) == rank_class(stable_sorted(sf), q) by {
        assert(rank_class(rf, q) == rank_class(sf, q));
        assert(rank_class(stable_sorted(sf), q) == rank_class(sf, q));
    }
    lemma_stable_sort_unique(rf, stable_sorted(sf));
}

proof fn lemma_class_of_one<T: Rank>(s: Seq<T>, x: T, p: T)
    requires
        s.no_duplicates(),
        s.contains(x),
        same_rank(p, x),
        forall|y: T| #[trigger] s.contains(y) && same_rank(p, y) ==> y == x,
    ensures
        rank_class(s, p) == seq![x],
    decreases s.len(),
{
    let rest = s.drop_last();
    let last = s.last();
    assert(s =~= rest + seq![last]);
    assert(s.contains(last));
    lemma_class_add(rest, seq![last], p);
    lemma_class_one(last, p);
    assert forall|y: T| #[trigger] rest.contains(y) implies s.contains(y) by {
        let k = choose|k: int| 0 <= k < rest.len() && rest[k] == y;
        assert(s[k] == y);
    }
    if last == x {
        assert forall|i: int| 0 <= i < rest.len() implies !same_rank(p, #[trigger] rest[i]) by {
            assert(rest.contains(rest[i]));
            assert(s[i] == rest[i]);
            assert(s[s.len() - 1] == x);
        }
        lemma_class_none(rest, p);
        assert(rank_class(s, p) =~= seq![x]);
    } else {
        let k = choose|k: int| 0 <= k < s.len() && s[k] == x;
        assert(rest[k] == x);
        assert(rest.contains(x));
        lemma_class_of_one(rest, x, p);
        assert(rank_class(s, p) =~= seq![x]);
    }
}

/// Of values of which no two have the same rank, it does not matter in which order they come to be
/// sorted.
pub proof fn lemma_order_of_values<T: Rank>(a: Seq<T>, b: Seq<T>)
    requires
        a.no_duplicates(),
        b.no_duplicates(),
        forall|x: T| #[trigger] a.contains(x) == b.contains(x),
        forall|x: T, y: T| #[trigger]
            a.contains(x) && #[trigger] a.contains(y) && same_rank(x, y) ==> x == y,
    ensures
        stable_sorted(a) == stable_sorted(b),
{
    lemma_stable_sorted(a);
    lemma_stable_sorted(b);
    assert forall|p: T| #[trigger] rank_class(stable_sorted(a), p) == rank_class(
        stable_sorted(b),
        p,
    ) by {
        assert(rank_class(stable_sorted(a), p) == rank_class(a, p));
        assert(rank_class(stable_sorted(b), p) == rank_class(b, p));
        if exists|x: T| #[trigger] a.contains(x) && same_rank(p, x) {
            let x = choose|x: T| #[trigger] a.contains(x) && same_rank(p, x);
            assert forall|y: T| #[trigger] a.contains(y) && same_rank(p, y) implies y == x by {
                lemma_rank_transfer(p, x, y);
            }
            assert forall|y: T| #[trigger] b.contains(y) && same_rank(p, y) implies y == x by {
                assert(a.contains(y));
            }
            lemma_class_of_one(a, x, p);
            lemma_class_of_one(b, x, p);
        } else {
            assert forall|i: int| 0 <= i < a.len() implies !same_rank(p, #[trigger] a[i]) by {
                assert(a.contains(a[i]));
            }
            assert forall|i: int| 0 <= i < b.len() implies !same_rank(p, #[trigger] b[i]) by {
                assert(b.contains(b[i]));
                assert(a.contains(b[i]));
            }
            lemma_class_none(a, p);
            lemma_class_none(b, p);
        }
    }
    lemma_stable_sort_unique(stable_sorted(a), stable_sorted(b));
}

/// What is sorted holds the same values as before.
pub proof fn lemma_stable_sorted_members<T: Rank>(s: Seq<T>)
    ensures
        stable_sorted(s).len() == s.len(),
        forall|x: T| #[trigger] stable_sorted(s).contains(x) == s.contains(x),
        s.no_duplicates() ==> stable_sorted(s).no_duplicates(),
{
    let r = stable_sorted(s);
    lemma_stable_sorted(s);
    lemma_stable_sort_permutes(r, s);
    r.to_multiset_ensures();
    s.to_multiset_ensures();
    assert forall|x: T| #[trigger] r.contains(x) == s.contains(x) by {
        assert(r.contains(x) == (r.to_multiset().count(x) > 0));
        assert(s.contains(x) == (s.to_multiset().count(x) > 0));
    }
    if s.no_duplicates() {
        s.lemma_multiset_has_no_duplicates();
        r.lemma_multiset_has_no_duplicates_conv();
    }
}

/// With one more value of another rank, the sorted values are the same but for that one.
pub proof fn lemma_one_more_value<T: Rank>(s: Seq<T>, x: T) -> (at: int)
    requires
        s.no_duplicates(),
        !s.contains(x),
        forall|y: T, z: T| #[trigger]
            s.push(x).contains(y) && #[trigger] s.push(x).contains(z) && same_rank(y, z) ==> y == z,
    ensures
        0 <= at <= s.len(),
        stable_sorted(s.push(x)) == stable_sorted(s).insert(at, x),
{
    let more = s.push(x);
    let r = stable_sorted(more);
    lemma_stable_sorted(more);
    assert forall|i: int, j: int| 0 <= i < more.len() && 0 <= j < more.len() && i != j implies more[i]
        != more[j] by {
        if i < s.len() {
            assert(s.contains(s[i]));
        }
        if j < s.len() {
            assert(s.contains(s[j]));
        }
    }
    lemma_stable_sorted_members(more);
    assert(more[s.len() as int] == x);
    assert(more.contains(x));
    assert(r.contains(x));
    let at = choose|at: int| 0 <= at < r.len() && r[at] == x;
    let rest = r.remove(at);
    assert(rest.insert(at, x) =~= r);
    assert forall|i: int, j: int| 0 <= i < j < rest.len() implies !(#[trigger] rest[j]).precedes(
        #[trigger] rest[i],
    ) by {
        let m = if i < at {
            i
        } else {
            i + 1
        };
        let n = if j < at {
            j
        } else {
            j + 1
        };
        assert(!r[n].precedes(r[m]));
    }
    assert(is_stable_sort(rest, rest));
    lemma_stable_sorted(rest);
    lemma_stable_sort_unique(stable_sorted(rest), rest);
    assert forall|y: T| #[trigger] rest.contains(y) == s.contains(y) by {
        if rest.contains(y) {
            let k = choose|k: int| 0 <= k < rest.len() && rest[k] == y;
            let n = if k < at {
                k
            } else {
                k + 1
            };
            assert(r[n] == y);
            assert(y != x);
            assert(r.contains(y));
            assert(more.contains(y));
            let m = choose|m: int| 0 <= m < more.len() && more[m] == y;
            assert(s[m] == y);
        }
        if s.contains(y) {
            let m = choose|m: int| 0 <= m < s.len() && s[m] == y;
            assert(more[m] == y);
            assert(more.contains(y));
            assert(r.contains(y));
            let n = choose|n: int| 0 <= n < r.len() && r[n] == y;
            assert(n != at);
            if n < at {
                assert(rest[n] == y);
            } else {
                assert(rest[n - 1] == y);
            }
        }
    }
    assert forall|y: T| #[trigger] s.contains(y) implies more.contains(y) by {
        let m = choose|m: int| 0 <= m < s.len() && s[m] == y;
        assert(more[m] == y);
    }
    assert(rest.no_duplicates());
    assert forall|y: T, z: T| #[trigger]
        rest.contains(y) && #[trigger] rest.contains(z) && same_rank(y, z) implies y == z by {
        assert(more.contains(y) && more.contains(z));
    }
    lemma_order_of_values(rest, s);
    at
}

/// A stable sort keeps every value as often as it is there, puts none behind one of a higher rank,
/// and leaves those of one rank in their order.
pub proof fn lemma_sort_is_stable<T: Rank>(s: Seq<T>, p: T)
    ensures
        stable_sorted(s).to_multiset() == s.to_multiset(),
        forall|i: int, j: int|
            0 <= i < j < s.len() ==> !(#[trigger] stable_sorted(s)[j]).precedes(
                #[trigger] stable_sorted(s)[i],
            ),
        stable_sorted(s).filter(|x: T| !p.precedes(x) && !x.precedes(p)) == s.filter(
            |x: T| !p.precedes(x) && !x.precedes(p),
        ),
{
    lemma_stable_sorted(s);
    lemma_stable_sort_permutes(stable_sorted(s), s);
    let r = stable_sorted(s);
    assert(rank_class(r, p) == rank_class(s, p));
    assert((|x: T| same_rank(p, x)) =~= (|x: T| !p.precedes(x) && !x.precedes(p)));
}

} // verus!
