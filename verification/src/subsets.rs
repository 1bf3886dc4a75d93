//! What the list of combinations amounts to: it is determined by the number
//! of cells and the sum, and it shows every set of digits that fits, in every
//! order.

use crate::area::{
    colex_less, colex_sorted, digit_sum, digits_present, digits_present_sum, is_combination,
    lemma_distinct_digits, lists_combinations,
};
use vstd::prelude::*;

verus! {

/// How many of the digits 1 to `k` belong to `digits`.
pub open spec fn size_upto(digits: Set<i32>, k: int) -> int
    decreases k,
{
    if k <= 0 {
        0
    } else {
        size_upto(digits, k - 1) + if digits.contains(k as i32) {
            1int
        } else {
            0
        }
    }
}

/// The sum of those of the digits 1 to `k` that belong to `digits`.
pub open spec fn sum_upto(digits: Set<i32>, k: int) -> int
    decreases k,
{
    if k <= 0 {
        0
    } else {
        sum_upto(digits, k - 1) + if digits.contains(k as i32) {
            k
        } else {
            0
        }
    }
}

/// `digits` is a set of `n` of the digits 1 to 9 that add up to `s`.
pub open spec fn is_digit_subset(digits: Set<i32>, n: nat, s: int) -> bool {
    &&& forall|d: i32| digits.contains(d) ==> 1 <= d <= 9
    &&& digits.finite()
    &&& digits.len() == n
    &&& sum_upto(digits, 9) == s
}

/// The members of `digits` that are at most `k`.
spec fn members_upto(digits: Set<i32>, k: int) -> Set<i32> {
    Set::new(|d: i32| digits.contains(d) && 1 <= d <= k)
}

/// The members of `digits` from 1 to `k`, in ascending order.
spec fn ascending(digits: Set<i32>, k: int) -> Seq<i32>
    decreases k,
{
    if k <= 0 {
        Seq::empty()
    } else if digits.contains(k as i32) {
        ascending(digits, k - 1).push(k as i32)
    } else {
        ascending(digits, k - 1)
    }
}

/// A set of digits has as many members up to `k` as `size_upto` counts.
proof fn lemma_members_upto(digits: Set<i32>, k: int)
    requires
        0 <= k <= 9,
    ensures
        members_upto(digits, k).finite(),
        members_upto(digits, k).len() == size_upto(digits, k),
    decreases k,
{
    if k == 0 {
        assert(members_upto(digits, k) =~= Set::<i32>::empty());
    } else {
        lemma_members_upto(digits, k - 1);
        let before = members_upto(digits, k - 1);
        if digits.contains(k as i32) {
            assert(members_upto(digits, k) =~= before.insert(k as i32));
            vstd::set::axiom_set_insert_finite(before, k as i32);
            vstd::set::axiom_set_insert_len(before, k as i32);
        } else {
            assert(members_upto(digits, k) =~= before);
        }
    }
}

/// What the ascending sequence of the members up to `k` is like.
proof fn lemma_ascending(digits: Set<i32>, k: int)
    requires
        0 <= k <= 9,
    ensures
        ({
            let c = ascending(digits, k);
            &&& forall|i: int|
                0 <= i < c.len() ==> 1 <= #[trigger] c[i] <= k && digits.contains(c[i])
            &&& forall|i: int, j: int| 0 <= i < j < c.len() ==> c[i] < c[j]
            &&& forall|d: i32| c.contains(d) <==> (digits.contains(d) && 1 <= d <= k)
            &&& c.len() == size_upto(digits, k)
            &&& digit_sum(c) == sum_upto(digits, k)
        }),
    decreases k,
{
    let c = ascending(digits, k);
    if k == 0 {
        assert forall|d: i32| c.contains(d) <==> (digits.contains(d) && 1 <= d <= k) by {}
    } else {
        lemma_ascending(digits, k - 1);
        let h = ascending(digits, k - 1);
        if digits.contains(k as i32) {
            assert(c == h.push(k as i32));
            assert(c.drop_last() =~= h);
            assert forall|d: i32| c.contains(d) <==> (digits.contains(d) && 1 <= d <= k) by {
                if c.contains(d) {
                    let i = choose|i: int| 0 <= i < c.len() && c[i] == d;
                    if i < h.len() {
                        assert(h[i] == d);
                        assert(h.contains(d));
                    }
                }
                if digits.contains(d) && 1 <= d <= k {
                    if d == k {
                        assert(c[h.len() as int] == d);
                    } else {
                        assert(h.contains(d));
                        let i = choose|i: int| 0 <= i < h.len() && h[i] == d;
                        assert(c[i] == d);
                    }
                }
            }
        } else {
            assert forall|d: i32| c.contains(d) <==> (digits.contains(d) && 1 <= d <= k) by {}
        }
    }
}

/// The digits of a combination are a set of `n` digits that add up to `s`.
pub proof fn lemma_combination_to_subset(c: Seq<i32>, n: nat, s: int)
    requires
        is_combination(c, n, s),
    ensures
        is_digit_subset(c.to_set(), n, s),
{
    let digits = c.to_set();
    lemma_distinct_digits(c);
    reveal_with_fuel(size_upto, 10);
    reveal_with_fuel(sum_upto, 10);
    assert(size_upto(digits, 9) == digits_present(c));
    assert(sum_upto(digits, 9) == digits_present_sum(c));
    lemma_members_upto(digits, 9);
    assert forall|d: i32| digits.contains(d) implies 1 <= d <= 9 by {
        let i = choose|i: int| 0 <= i < c.len() && c[i] == d;
    }
    assert(members_upto(digits, 9) =~= digits);
}

/// Every set of `n` digits that add up to `s` is the set of the digits of a
/// combination: of the one that holds them in ascending order.
pub proof fn lemma_subset_to_combination(digits: Set<i32>, n: nat, s: int) -> (c: Seq<i32>)
    requires
        is_digit_subset(digits, n, s),
    ensures
        is_combination(c, n, s),
        c.to_set() == digits,
{
    let c = ascending(digits, 9);
    lemma_ascending(digits, 9);
    lemma_members_upto(digits, 9);
    assert(members_upto(digits, 9) =~= digits);
    assert(c.to_set() =~= digits);
    c
}

/// The list of the combinations shows exactly the sets of `n` digits from 1
/// to 9 that add up to `s`: the digits of every entry are such a set, and
/// every such set is the set of the digits of an entry.
pub proof fn lemma_combinations_are_the_subsets(l: Seq<Seq<i32>>, n: nat, s: int)
    requires
        lists_combinations(l, n, s),
    ensures
        forall|k: int| 0 <= k < l.len() ==> is_digit_subset((#[trigger] l[k]).to_set(), n, s),
        forall|digits: Set<i32>| #[trigger]
            is_digit_subset(digits, n, s) ==> exists|k: int|
                0 <= k < l.len() && (#[trigger] l[k]).to_set() == digits,
{
    assert forall|k: int| 0 <= k < l.len() implies is_digit_subset(
        (#[trigger] l[k]).to_set(),
        n,
        s,
    ) by {
        lemma_combination_to_subset(l[k], n, s);
    }
    assert forall|digits: Set<i32>| #[trigger] is_digit_subset(digits, n, s) implies exists|k: int|
        0 <= k < l.len() && (#[trigger] l[k]).to_set() == digits by {
        let c = lemma_subset_to_combination(digits, n, s);
        assert(l.contains(c));
        let k = choose|k: int| 0 <= k < l.len() && l[k] == c;
        assert(l[k].to_set() == digits);
    }
}

/// Of two sequences neither stands before the other both ways round, and
/// none stands before itself.
proof fn lemma_colex_asymmetric(a: Seq<i32>, b: Seq<i32>)
    requires
        colex_less(a, b),
    ensures
        !colex_less(b, a),
        a != b,
{
    let p = choose|p: int|
        0 <= p < a.len() && a[p] < b[p] && forall|q: int| p < q < a.len() ==> a[q] == b[q];
    if colex_less(b, a) {
        let r = choose|r: int|
            0 <= r < b.len() && b[r] < a[r] && forall|q: int| r < q < b.len() ==> b[q] == a[q];
        if p < r {
            assert(a[r] == b[r]);
        } else if r < p {
            assert(b[p] == a[p]);
        }
    }
}

/// Two ascending lists with the same entries are the same list.
proof fn lemma_sorted_same_entries(a: Seq<Seq<i32>>, b: Seq<Seq<i32>>)
    requires
        colex_sorted(a),
        colex_sorted(b),
        forall|x: Seq<i32>| a.contains(x) <==> b.contains(x),
    ensures
        a == b,
    decreases a.len(),
{
    if a.len() == 0 {
        if b.len() > 0 {
            assert(b.contains(b[0]));
        }
        assert(a =~= b);
    } else {
        let top = a.last();
        assert(a.contains(top)) by {
            assert(a[a.len() - 1] == top);
        }
        assert(b.contains(top));
        let j = choose|j: int| 0 <= j < b.len() && b[j] == top;
        let other = b.last();
        assert(b.contains(other)) by {
            assert(b[b.len() - 1] == other);
        }
        let i = choose|i: int| 0 <= i < a.len() && a[i] == other;
        if j < b.len() - 1 {
            assert(colex_less(b[j], b[b.len() - 1]));
            lemma_colex_asymmetric(top, other);
            if i < a.len() - 1 {
                assert(colex_less(a[i], a[a.len() - 1]));
            }
        }
        assert(top == other);
        let ha = a.drop_last();
        let hb = b.drop_last();
        assert forall|x: Seq<i32>| ha.contains(x) <==> hb.contains(x) by {
            if ha.contains(x) {
                let k = choose|k: int| 0 <= k < ha.len() && ha[k] == x;
                assert(a[k] == x);
                assert(colex_less(a[k], a[a.len() - 1]));
                lemma_colex_asymmetric(x, top);
                assert(b.contains(x));
                let m = choose|m: int| 0 <= m < b.len() && b[m] == x;
                assert(hb[m] == x);
            }
            if hb.contains(x) {
                let k = choose|k: int| 0 <= k < hb.len() && hb[k] == x;
                assert(b[k] == x);
                assert(colex_less(b[k], b[b.len() - 1]));
                lemma_colex_asymmetric(x, other);
                assert(a.contains(x));
                let m = choose|m: int| 0 <= m < a.len() && a[m] == x;
                assert(ha[m] == x);
            }
        }
        assert forall|x: int, y: int| 0 <= x < y < ha.len() implies colex_less(
            #[trigger] ha[x],
            #[trigger] ha[y],
        ) by {
            assert(ha[x] == a[x] && ha[y] == a[y]);
        }
        assert forall|x: int, y: int| 0 <= x < y < hb.len() implies colex_less(
            #[trigger] hb[x],
            #[trigger] hb[y],
        ) by {
            assert(hb[x] == b[x] && hb[y] == b[y]);
        }
        lemma_sorted_same_entries(ha, hb);
        assert(a =~= ha.push(top));
        assert(b =~= hb.push(other));
    }
}

/// The list of the combinations is determined by the number of cells and the
/// sum: any two lists of the combinations for the same cells and the same
/// sum are equal, entry by entry.
pub proof fn lemma_combinations_determined(l1: Seq<Seq<i32>>, l2: Seq<Seq<i32>>, n: nat, s: int)
    requires
        lists_combinations(l1, n, s),
        lists_combinations(l2, n, s),
    ensures
        l1 == l2,
{
    assert forall|x: Seq<i32>| l1.contains(x) <==> l2.contains(x) by {
        if l1.contains(x) {
            let k = choose|k: int| 0 <= k < l1.len() && l1[k] == x;
            assert(is_combination(l1[k], n, s));
        }
        if l2.contains(x) {
            let k = choose|k: int| 0 <= k < l2.len() && l2[k] == x;
            assert(is_combination(l2[k], n, s));
        }
    }
    lemma_sorted_same_entries(l1, l2);
}

} // verus!
