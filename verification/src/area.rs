//! Areas and the digit combinations that can fill them.

use std::collections::HashSet;
use vstd::prelude::*;

verus! {

/// A group of cells whose digits must add up to `value`, with the
/// combinations that are still candidates for its blank cells.
#[derive(Clone, Debug, PartialEq, Eq)]
pub struct Area {
    /// The cells, each as a `[row, column]` pair.
    pub fields: Vec<Vec<i32>>,
    /// The sum that the cells must reach.
    pub value: i32,
    /// The candidate combinations. A combination is used up from its end.
    pub combinations: Vec<Vec<i32>>,
}

/// The mathematical model of an [`Area`].
pub struct AreaView {
    pub fields: Seq<Seq<i32>>,
    pub value: i32,
    pub combinations: Seq<Seq<i32>>,
}

/// A vector of vectors as a sequence of sequences.
pub open spec fn nested(v: Seq<Vec<i32>>) -> Seq<Seq<i32>> {
    Seq::new(v.len(), |k: int| v[k]@)
}

impl View for Area {
    type V = AreaView;

    open spec fn view(&self) -> AreaView {
        AreaView {
            fields: nested(self.fields@),
            value: self.value,
            combinations: nested(self.combinations@),
        }
    }
}

/// The areas of a vector, each by its model.
pub open spec fn area_views(areas: Seq<Area>) -> Seq<AreaView> {
    Seq::new(areas.len(), |k: int| areas[k]@)
}

impl Area {
    /// Does nothing: an area's candidates are made when the board is prepared.
    pub fn combinations_all_fileds(&self) {
    }
}

/// The sum of the entries of `c`.
pub open spec fn digit_sum(c: Seq<i32>) -> int
    decreases c.len(),
{
    if c.len() == 0 {
        0
    } else {
        digit_sum(c.drop_last()) + c.last()
    }
}

/// Every entry of `c` is a digit from 1 to 9.
pub open spec fn all_digits(c: Seq<i32>) -> bool {
    forall|i: int| 0 <= i < c.len() ==> 1 <= #[trigger] c[i] <= 9
}

/// `c` is a combination for `n` cells and the sum `s`: `n` digits from 1 to 9,
/// no two of them equal, that add up to `s`.
pub open spec fn is_combination(c: Seq<i32>, n: nat, s: int) -> bool {
    &&& c.len() == n
    &&& all_digits(c)
    &&& c.no_duplicates()
    &&& digit_sum(c) == s
}

/// `a` stands before `b` when the two are compared from their last entry
/// backwards: they agree behind some place, and there `a` is smaller.
pub open spec fn colex_less(a: Seq<i32>, b: Seq<i32>) -> bool {
    &&& a.len() == b.len()
    &&& exists|p: int|
        0 <= p < a.len() && a[p] < b[p] && forall|q: int| p < q < a.len() ==> a[q] == b[q]
}

/// The entries of `l` stand in strictly ascending order, compared from the
/// last digit backwards.
pub open spec fn colex_sorted(l: Seq<Seq<i32>>) -> bool {
    forall|i: int, j: int| 0 <= i < j < l.len() ==> colex_less(#[trigger] l[i], #[trigger] l[j])
}

/// `l` is the list of the combinations for `n` cells and the sum `s`: it
/// holds nothing else, it holds each of them, and it holds them in ascending
/// order from the last digit backwards, so none of them twice.
///
/// For no cells and the sum 0 this is the list of one entry, the combination
/// without digits: there is one way to fill no cells. For no cells and
/// another sum it is empty.
pub open spec fn lists_combinations(l: Seq<Seq<i32>>, n: nat, s: int) -> bool {
    &&& forall|k: int| 0 <= k < l.len() ==> is_combination(#[trigger] l[k], n, s)
    &&& forall|c: Seq<i32>| #[trigger] is_combination(c, n, s) ==> l.contains(c)
    &&& colex_sorted(l)
}

/// The least sum of `m` different digits: `1 + 2 + ... + m`.
pub open spec fn min_sum(m: int) -> int {
    m * (m + 1) / 2
}

/// The greatest sum of `m` different digits: `9 + 8 + ... + (10 - m)`.
pub open spec fn max_sum(m: int) -> int {
    m * (19 - m) / 2
}

/// The least last digit worth trying for `n` cells and the sum `s`: the other
/// `n - 1` digits cannot add more than their greatest sum.
pub open spec fn lower_bound(n: int, s: int) -> int {
    if s - max_sum(n - 1) > 1 {
        s - max_sum(n - 1)
    } else {
        1
    }
}

/// The greatest last digit worth trying for `n` cells and the sum `s`: the
/// other `n - 1` digits add their least sum at least. Where that leaves less
/// than nothing the bound is 0, and no digit is tried.
pub open spec fn upper_bound(n: int, s: int) -> int {
    if s - min_sum(n - 1) < 0 {
        0
    } else if s - min_sum(n - 1) < 9 {
        s - min_sum(n - 1)
    } else {
        9
    }
}

/// 1 if `d` occurs in `c`, else 0.
pub open spec fn occurs(c: Seq<i32>, d: i32) -> int {
    if c.contains(d) {
        1
    } else {
        0
    }
}

/// How many of the digits 1 to 9 occur in `c`.
pub open spec fn digits_present(c: Seq<i32>) -> int {
    occurs(c, 1) + occurs(c, 2) + occurs(c, 3) + occurs(c, 4) + occurs(c, 5) + occurs(c, 6)
        + occurs(c, 7) + occurs(c, 8) + occurs(c, 9)
}

/// The sum of those of the digits 1 to 9 that occur in `c`.
pub open spec fn digits_present_sum(c: Seq<i32>) -> int {
    occurs(c, 1) + 2 * occurs(c, 2) + 3 * occurs(c, 3) + 4 * occurs(c, 4) + 5 * occurs(c, 5) + 6
        * occurs(c, 6) + 7 * occurs(c, 7) + 8 * occurs(c, 8) + 9 * occurs(c, 9)
}

/// What one more entry does to whether `d` occurs.
proof fn lemma_occurs_push(h: Seq<i32>, x: i32, d: i32)
    requires
        !h.contains(x),
    ensures
        occurs(h.push(x), d) == occurs(h, d) + (if d == x { 1int } else { 0 }),
{
    let c = h.push(x);
    if c.contains(d) {
        let i = choose|i: int| 0 <= i < c.len() && c[i] == d;
        if i < h.len() {
            assert(h[i] == d);
        }
    }
    if h.contains(d) {
        let i = choose|i: int| 0 <= i < h.len() && h[i] == d;
        assert(c[i] == d);
    }
    if d == x {
        assert(c[h.len() as int] == d);
    }
}

/// A sequence of different digits is as long as the number of digits that
/// occur in it, and its sum is the sum of those digits.
pub proof fn lemma_distinct_digits(c: Seq<i32>)
    requires
        all_digits(c),
        c.no_duplicates(),
    ensures
        c.len() == digits_present(c),
        digit_sum(c) == digits_present_sum(c),
    decreases c.len(),
{
    if c.len() == 0 {
        assert forall|d: i32| !c.contains(d) by {}
    } else {
        let h = c.drop_last();
        let x = c.last();
        lemma_distinct_digits(h);
        assert(1 <= x <= 9);
        assert(!h.contains(x)) by {
            if h.contains(x) {
                let i = choose|i: int| 0 <= i < h.len() && h[i] == x;
                assert(c[i] == c[c.len() - 1]);
            }
        }
        assert(h.push(x) =~= c);
        lemma_occurs_push(h, x, 1);
        lemma_occurs_push(h, x, 2);
        lemma_occurs_push(h, x, 3);
        lemma_occurs_push(h, x, 4);
        lemma_occurs_push(h, x, 5);
        lemma_occurs_push(h, x, 6);
        lemma_occurs_push(h, x, 7);
        lemma_occurs_push(h, x, 8);
        lemma_occurs_push(h, x, 9);
    }
}

/// A combination has at most nine digits, and its sum lies between the least
/// and the greatest sum of that many different digits.
pub proof fn lemma_combination_bounds(c: Seq<i32>, n: nat, s: int)
    requires
        is_combination(c, n, s),
    ensures
        n <= 9,
        min_sum(n as int) <= s <= max_sum(n as int),
{
    lemma_distinct_digits(c);
    let b1 = occurs(c, 1);
    let b2 = occurs(c, 2);
    let b3 = occurs(c, 3);
    let b4 = occurs(c, 4);
    let b5 = occurs(c, 5);
    let b6 = occurs(c, 6);
    let b7 = occurs(c, 7);
    let b8 = occurs(c, 8);
    let b9 = occurs(c, 9);
    assert(n == b1 + b2 + b3 + b4 + b5 + b6 + b7 + b8 + b9);
    assert(s == b1 + 2 * b2 + 3 * b3 + 4 * b4 + 5 * b5 + 6 * b6 + 7 * b7 + 8 * b8 + 9 * b9);
    lemma_sum_table(n as int);
    lemma_indicator_bounds(b1, b2, b3, b4, b5, b6, b7, b8, b9);
}

/// The sum of up to nine different digits lies between 0 and 45.
pub proof fn lemma_sum_range(m: int)
    requires
        0 <= m <= 9,
    ensures
        0 <= min_sum(m),
        max_sum(m) <= 45,
{
    lemma_sum_table(m);
}

/// The least and greatest sums for each number of digits from 0 to 9.
proof fn lemma_sum_table(m: int)
    requires
        0 <= m <= 9,
    ensures
        m == 0 ==> min_sum(m) == 0 && max_sum(m) == 0,
        m == 1 ==> min_sum(m) == 1 && max_sum(m) == 9,
        m == 2 ==> min_sum(m) == 3 && max_sum(m) == 17,
        m == 3 ==> min_sum(m) == 6 && max_sum(m) == 24,
        m == 4 ==> min_sum(m) == 10 && max_sum(m) == 30,
        m == 5 ==> min_sum(m) == 15 && max_sum(m) == 35,
        m == 6 ==> min_sum(m) == 21 && max_sum(m) == 39,
        m == 7 ==> min_sum(m) == 28 && max_sum(m) == 42,
        m == 8 ==> min_sum(m) == 36 && max_sum(m) == 44,
        m == 9 ==> min_sum(m) == 45 && max_sum(m) == 45,
{
    assert(m * (m + 1) == m * m + m && m * (19 - m) == 19 * m - m * m) by (nonlinear_arith);
    assert(m == 0 ==> m * m == 0) by (nonlinear_arith);
    assert(m == 1 ==> m * m == 1) by (nonlinear_arith);
    assert(m == 2 ==> m * m == 4) by (nonlinear_arith);
    assert(m == 3 ==> m * m == 9) by (nonlinear_arith);
    assert(m == 4 ==> m * m == 16) by (nonlinear_arith);
    assert(m == 5 ==> m * m == 25) by (nonlinear_arith);
    assert(m == 6 ==> m * m == 36) by (nonlinear_arith);
    assert(m == 7 ==> m * m == 49) by (nonlinear_arith);
    assert(m == 8 ==> m * m == 64) by (nonlinear_arith);
    assert(m == 9 ==> m * m == 81) by (nonlinear_arith);
}

/// The table of least and greatest sums, as a bound on nine digits of which
/// each is taken or left out.
proof fn lemma_indicator_bounds(
    b1: int,
    b2: int,
    b3: int,
    b4: int,
    b5: int,
    b6: int,
    b7: int,
    b8: int,
    b9: int,
)
    requires
        0 <= b1 <= 1,
        0 <= b2 <= 1,
        0 <= b3 <= 1,
        0 <= b4 <= 1,
        0 <= b5 <= 1,
        0 <= b6 <= 1,
        0 <= b7 <= 1,
        0 <= b8 <= 1,
        0 <= b9 <= 1,
    ensures
        ({
            let n = b1 + b2 + b3 + b4 + b5 + b6 + b7 + b8 + b9;
            let s = b1 + 2 * b2 + 3 * b3 + 4 * b4 + 5 * b5 + 6 * b6 + 7 * b7 + 8 * b8 + 9 * b9;
            &&& n == 0 ==> s == 0
            &&& n == 1 ==> 1 <= s <= 9
            &&& n == 2 ==> 3 <= s <= 17
            &&& n == 3 ==> 6 <= s <= 24
            &&& n == 4 ==> 10 <= s <= 30
            &&& n == 5 ==> 15 <= s <= 35
            &&& n == 6 ==> 21 <= s <= 39
            &&& n == 7 ==> 28 <= s <= 42
            &&& n == 8 ==> 36 <= s <= 44
            &&& n == 9 ==> s == 45
        }),
{
}

/// The test that keeps the sequences in which no entry stands twice.
pub open spec fn without_repeats() -> spec_fn(Seq<i32>) -> bool {
    |c: Seq<i32>| c.no_duplicates()
}

/// Whether no value stands twice in `items`.
fn all_distinct(items: &Vec<i32>) -> (distinct: bool)
    ensures
        distinct == items@.no_duplicates(),
{
    broadcast use vstd::std_specs::hash::group_hash_axioms;

    let mut seen: HashSet<i32> = HashSet::new();
    let mut idx: usize = 0;
    while idx < items.len()
        invariant
            idx <= items@.len(),
            items@.take(idx as int).no_duplicates(),
            forall|x: i32| seen@.contains(x) <==> items@.take(idx as int).contains(x),
        decreases items@.len() - idx,
    {
        let item = items[idx];
        let ghost head = items@.take(idx as int);
        if !seen.insert(item) {
            proof {
                let i = choose|i: int| 0 <= i < head.len() && head[i] == item;
                assert(items@[i] == items@[idx as int]);
            }
            return false;
        }
        proof {
            let next = items@.take(idx + 1);
            assert(next =~= head.push(item));
            assert forall|x: i32| seen@.contains(x) <==> next.contains(x) by {
                if next.contains(x) {
                    let i = choose|i: int| 0 <= i < next.len() && next[i] == x;
                    if i < head.len() {
                        assert(head[i] == x);
                    }
                }
                if head.contains(x) {
                    let i = choose|i: int| 0 <= i < head.len() && head[i] == x;
                    assert(next[i] == x);
                }
                assert(next[idx as int] == item);
            }
            assert forall|i: int, j: int| 0 <= i < next.len() && 0 <= j < next.len() && i
                != j implies next[i] != next[j] by {
                if i < idx && j < idx {
                    assert(head[i] != head[j]);
                } else if i < idx {
                    assert(head[i] == next[i]);
                } else {
                    assert(head[j] == next[j]);
                }
            }
        }
        idx += 1;
    }
    assert(items@.take(idx as int) =~= items@);
    true
}

/// Keeps, in their order, the vectors in which no value stands twice.
pub fn remove_duplicates(a: Vec<Vec<i32>>) -> (kept: Vec<Vec<i32>>)
    ensures
        nested(kept@) == nested(a@).filter(without_repeats()),
{
    let mut kept: Vec<Vec<i32>> = Vec::new();
    proof {
        reveal(Seq::filter);
        assert(nested(a@.take(0)) =~= Seq::<Seq<i32>>::empty());
        assert(nested(kept@) =~= Seq::<Seq<i32>>::empty());
    }
    for inner_vec in it: a
        invariant
            it.seq() == a@,
            nested(kept@) == nested(a@.take(it.index() as int)).filter(without_repeats()),
    {
        let ghost done = nested(a@.take(it.index() as int));
        let ghost more = nested(a@.take(it.index() + 1));
        let ghost before = nested(kept@);
        proof {
            reveal(Seq::filter);
            assert(more.drop_last() =~= done);
            assert(more.last() == inner_vec@);
        }
        if all_distinct(&inner_vec) {
            kept.push(inner_vec);
            assert(nested(kept@) =~= before.push(inner_vec@));
        }
    }
    assert(a@.take(a@.len() as int) =~= a@);
    kept
}

/// `c` is a combination for `n - 1` cells with one more digit behind it, and
/// with that digit it adds up to `s`. The last digit may repeat an earlier one.
pub open spec fn is_candidate(c: Seq<i32>, n: nat, s: int) -> bool {
    &&& n > 0
    &&& c.len() == n
    &&& 1 <= c.last() <= 9
    &&& is_combination(c.drop_last(), (n - 1) as nat, s - c.last())
}

/// `l` lists, in ascending order from the last digit backwards, the
/// candidates whose last digit is at least `lo` and less than `hi`.
pub open spec fn gathered(l: Seq<Seq<i32>>, n: nat, s: int, lo: int, hi: int) -> bool {
    &&& forall|k: int|
        0 <= k < l.len() ==> is_candidate(#[trigger] l[k], n, s) && lo <= l[k].last() < hi
    &&& forall|c: Seq<i32>|
        #[trigger] is_candidate(c, n, s) && lo <= c.last() < hi ==> l.contains(c)
    &&& colex_sorted(l)
}

/// A candidate in which no digit repeats is a combination.
proof fn lemma_candidate_is_combination(c: Seq<i32>, n: nat, s: int)
    requires
        is_candidate(c, n, s),
        c.no_duplicates(),
    ensures
        is_combination(c, n, s),
{
    let h = c.drop_last();
    assert forall|i: int| 0 <= i < c.len() implies 1 <= #[trigger] c[i] <= 9 by {
        if i < h.len() {
            assert(h[i] == c[i]);
        }
    }
}

/// A combination is a candidate, and its last digit lies within the bounds.
proof fn lemma_combination_is_candidate(c: Seq<i32>, n: nat, s: int)
    requires
        n > 0,
        is_combination(c, n, s),
    ensures
        is_candidate(c, n, s),
        lower_bound(n as int, s) <= c.last() <= upper_bound(n as int, s),
{
    let h = c.drop_last();
    assert forall|i: int| 0 <= i < h.len() implies 1 <= #[trigger] h[i] <= 9 by {
        assert(h[i] == c[i]);
    }
    assert forall|i: int, j: int| 0 <= i < h.len() && 0 <= j < h.len() && i != j implies h[i]
        != h[j] by {
        assert(h[i] == c[i] && h[j] == c[j]);
    }
    assert(1 <= c[c.len() - 1] <= 9);
    lemma_combination_bounds(h, (n - 1) as nat, s - c.last());
}

/// No combination has more than nine digits.
proof fn lemma_no_long_combination(n: nat, s: int)
    requires
        n > 9,
    ensures
        lists_combinations(Seq::<Seq<i32>>::empty(), n, s),
{
    assert forall|c: Seq<i32>| #[trigger] is_combination(c, n, s) implies Seq::<
        Seq<i32>,
    >::empty().contains(c) by {
        lemma_combination_bounds(c, n, s);
    }
}

/// Where the digit `i` has no combination to stand behind, the list stays as it is.
proof fn lemma_gather_none(l: Seq<Seq<i32>>, n: nat, s: int, lo: int, i: int)
    requires
        n >= 2,
        gathered(l, n, s, lo, i),
        lists_combinations(Seq::<Seq<i32>>::empty(), (n - 1) as nat, s - i),
    ensures
        gathered(l, n, s, lo, i + 1),
{
    let none = Seq::<Seq<i32>>::empty();
    assert forall|c: Seq<i32>| #[trigger]
        is_candidate(c, n, s) && lo <= c.last() < i + 1 implies l.contains(c) by {
        if c.last() == i {
            assert(is_combination(c.drop_last(), (n - 1) as nat, s - i));
            assert(none.contains(c.drop_last()));
        }
    }
}

/// One digit alone, for one cell, goes behind the list.
proof fn lemma_gather_single(l: Seq<Seq<i32>>, q: Seq<Seq<i32>>, s: int, lo: int, i: int)
    requires
        gathered(l, 1, s, lo, i),
        lo <= i,
        1 <= i <= 9,
        s == i,
        q.len() == 1,
        q[0] == seq![i as i32],
    ensures
        gathered(l + q, 1, s, lo, i + 1),
{
    let all = l + q;
    let one = seq![i as i32];
    assert(one.drop_last() =~= Seq::<i32>::empty());
    assert(one.last() == i);
    assert(is_candidate(one, 1, s));
    assert forall|k: int| 0 <= k < all.len() implies is_candidate(#[trigger] all[k], 1, s) && lo
        <= all[k].last() < i + 1 by {
        if k < l.len() {
            assert(all[k] == l[k]);
        } else {
            assert(all[k] == q[0]);
        }
    }
    assert forall|c: Seq<i32>| #[trigger]
        is_candidate(c, 1, s) && lo <= c.last() < i + 1 implies all.contains(c) by {
        if c.last() == i {
            assert(c =~= one);
            assert(all[l.len() as int] == c);
        } else {
            assert(l.contains(c));
            let k = choose|k: int| 0 <= k < l.len() && l[k] == c;
            assert(all[k] == c);
        }
    }
    assert forall|a: int, b: int| 0 <= a < b < all.len() implies colex_less(
        #[trigger] all[a],
        #[trigger] all[b],
    ) by {
        if b < l.len() {
            assert(all[a] == l[a] && all[b] == l[b]);
        } else {
            assert(all[a] == l[a] && all[b] == one);
            assert(is_candidate(l[a], 1, s));
            assert(l[a][0] < one[0]);
        }
    }
}

/// The combinations for `n - 1` cells, each with the digit `i` put behind it,
/// go behind the list.
proof fn lemma_gather_block(
    l: Seq<Seq<i32>>,
    p: Seq<Seq<i32>>,
    q: Seq<Seq<i32>>,
    n: nat,
    s: int,
    lo: int,
    i: int,
)
    requires
        n >= 2,
        gathered(l, n, s, lo, i),
        lo <= i,
        1 <= i <= 9,
        lists_combinations(p, (n - 1) as nat, s - i),
        q.len() == p.len(),
        forall|k: int| 0 <= k < p.len() ==> #[trigger] q[k] == p[k].push(i as i32),
    ensures
        gathered(l + q, n, s, lo, i + 1),
{
    let all = l + q;
    assert forall|k: int| 0 <= k < q.len() implies is_candidate(#[trigger] q[k], n, s)
        && q[k].last() == i by {
        assert(q[k] == p[k].push(i as i32));
        assert(q[k].drop_last() =~= p[k]);
        assert(is_combination(p[k], (n - 1) as nat, s - i));
    }
    assert forall|k: int| 0 <= k < all.len() implies is_candidate(#[trigger] all[k], n, s) && lo
        <= all[k].last() < i + 1 by {
        if k < l.len() {
            assert(all[k] == l[k]);
        } else {
            assert(all[k] == q[k - l.len()]);
        }
    }
    assert forall|c: Seq<i32>| #[trigger]
        is_candidate(c, n, s) && lo <= c.last() < i + 1 implies all.contains(c) by {
        if c.last() == i {
            let h = c.drop_last();
            assert(is_combination(h, (n - 1) as nat, s - i));
            assert(p.contains(h));
            let k = choose|k: int| 0 <= k < p.len() && p[k] == h;
            assert(q[k] == p[k].push(i as i32));
            assert(q[k] =~= c);
            assert(all[l.len() + k] == c);
        } else {
            assert(l.contains(c));
            let k = choose|k: int| 0 <= k < l.len() && l[k] == c;
            assert(all[k] == c);
        }
    }
    assert forall|a: int, b: int| 0 <= a < b < all.len() implies colex_less(
        #[trigger] all[a],
        #[trigger] all[b],
    ) by {
        if b < l.len() {
            assert(all[a] == l[a] && all[b] == l[b]);
        } else if a < l.len() {
            let kb = b - l.len();
            assert(all[a] == l[a] && all[b] == q[kb]);
            assert(is_candidate(l[a], n, s) && is_candidate(q[kb], n, s));
            assert(l[a][n - 1] < q[kb][n - 1]);
        } else {
            let ka = a - l.len();
            let kb = b - l.len();
            assert(all[a] == q[ka] && all[b] == q[kb]);
            assert(q[ka] == p[ka].push(i as i32) && q[kb] == p[kb].push(i as i32));
            assert(colex_less(p[ka], p[kb]));
            let w = choose|w: int|
                0 <= w < p[ka].len() && p[ka][w] < p[kb][w] && forall|x: int|
                    w < x < p[ka].len() ==> p[ka][x] == p[kb][x];
            assert(q[ka][w] < q[kb][w]);
            assert forall|x: int| w < x < q[ka].len() implies q[ka][x] == q[kb][x] by {
                if x < p[ka].len() {
                    assert(p[ka][x] == p[kb][x]);
                }
            }
        }
    }
}

/// A test keeps the order of the entries that pass it.
proof fn lemma_filter_keeps_order(l: Seq<Seq<i32>>, pred: spec_fn(Seq<i32>) -> bool)
    requires
        colex_sorted(l),
    ensures
        colex_sorted(l.filter(pred)),
    decreases l.len(),
{
    reveal(Seq::filter);
    if l.len() > 0 {
        let head = l.drop_last();
        let sub = head.filter(pred);
        assert forall|i: int, j: int| 0 <= i < j < head.len() implies colex_less(
            #[trigger] head[i],
            #[trigger] head[j],
        ) by {
            assert(head[i] == l[i] && head[j] == l[j]);
        }
        lemma_filter_keeps_order(head, pred);
        if pred(l.last()) {
            let kept = sub.push(l.last());
            assert forall|i: int, j: int| 0 <= i < j < kept.len() implies colex_less(
                #[trigger] kept[i],
                #[trigger] kept[j],
            ) by {
                if j < sub.len() {
                    assert(kept[i] == sub[i] && kept[j] == sub[j]);
                } else {
                    assert(kept[i] == sub[i]);
                    assert(sub.contains(sub[i]));
                    head.lemma_filter_contains_rev(pred, sub[i]);
                    let k = choose|k: int| 0 <= k < head.len() && head[k] == sub[i];
                    assert(l[k] == sub[i]);
                    assert(colex_less(l[k], l[l.len() - 1]));
                }
            }
        }
    }
}

/// Once every last digit within the bounds has been tried, the candidates
/// without a repeated digit are the combinations.
proof fn lemma_gathered_filtered(l: Seq<Seq<i32>>, n: nat, s: int, hi: int)
    requires
        n > 0,
        hi > upper_bound(n as int, s),
        gathered(l, n, s, lower_bound(n as int, s), hi),
    ensures
        lists_combinations(l.filter(without_repeats()), n, s),
{
    let pred = without_repeats();
    let kept = l.filter(pred);
    assert forall|k: int| 0 <= k < kept.len() implies is_combination(#[trigger] kept[k], n, s) by {
        l.lemma_filter_pred(pred, k);
        assert(kept.contains(kept[k]));
        l.lemma_filter_contains_rev(pred, kept[k]);
        let i = choose|i: int| 0 <= i < l.len() && l[i] == kept[k];
        assert(is_candidate(l[i], n, s));
        lemma_candidate_is_combination(kept[k], n, s);
    }
    assert forall|c: Seq<i32>| #[trigger] is_combination(c, n, s) implies kept.contains(c) by {
        lemma_combination_is_candidate(c, n, s);
        assert(l.contains(c));
        let i = choose|i: int| 0 <= i < l.len() && l[i] == c;
        l.lemma_filter_contains(pred, i);
    }
    lemma_filter_keeps_order(l, pred);
}

/// The bounds between which the last digit of a combination for `n` cells
/// and the sum `s` must lie.
fn digit_bounds(n: usize, s: i32) -> (bounds: (i32, i32))
    requires
        1 <= n <= 9,
    ensures
        bounds.0 == lower_bound(n as int, s as int),
        bounds.1 == upper_bound(n as int, s as int),
{
    let others: i64 = (n - 1) as i64;
    proof {
        lemma_sum_table(others as int);
    }
    assert(0 <= others * (19 - others) <= 90 && 0 <= others * (others + 1) <= 90)
        by (nonlinear_arith)
        requires
            0 <= others <= 8,
    ;
    let most: i64 = others * (19 - others) / 2;
    let least: i64 = others * (others + 1) / 2;
    let lower_raw: i64 = s as i64 - most;
    let upper_raw: i64 = s as i64 - least;
    let lower: i64 = if lower_raw > 1 {
        lower_raw
    } else {
        1
    };
    let upper: i64 = if upper_raw < 0 {
        0
    } else if upper_raw < 9 {
        upper_raw
    } else {
        9
    };
    (lower as i32, upper as i32)
}

/// Lists the combinations for `n` cells and the sum `s`: every way to write
/// `s` as `n` different digits from 1 to 9, one after the other.
///
/// The last digit is chosen first, between the bounds that the least and the
/// greatest sum of the other `n - 1` digits leave for it, and the
/// combinations for the rest go before it. The list is in ascending order
/// when its entries are compared from the last digit backwards.
///
/// For no cells the list is empty, whatever the sum: this ends the descent
/// from `n` to `n - 1`. It is not the list of the ways to fill no cells, of
/// which there is one for the sum 0; who asks for an area without blank cells
/// has to see to that case.
pub fn combinations(n: usize, s: i32) -> (found: Vec<Vec<i32>>)
    ensures
        n > 0 || s != 0 ==> lists_combinations(nested(found@), n as nat, s as int),
        n == 0 ==> found@.len() == 0,
    decreases n,
{
    let mut combin_area: Vec<Vec<i32>> = Vec::new();
    if n == 0 {
        assert(nested(combin_area@) =~= Seq::<Seq<i32>>::empty());
        return combin_area;
    }
    // There are no more than nine different digits.
    if n > 9 {
        proof {
            assert(nested(combin_area@) =~= Seq::<Seq<i32>>::empty());
            lemma_no_long_combination(n as nat, s as int);
        }
        return combin_area;
    }
    let (lower, upper) = digit_bounds(n, s);
    proof {
        lemma_sum_table(n - 1);
        assert(nested(combin_area@) =~= Seq::<Seq<i32>>::empty());
    }
    let mut i: i32 = lower;
    while i <= upper
        invariant
            1 <= n <= 9,
            lower == lower_bound(n as int, s as int),
            upper == upper_bound(n as int, s as int),
            lower <= i,
            i <= upper + 1 || i == lower,
            gathered(nested(combin_area@), n as nat, s as int, lower as int, i as int),
        decreases upper + 1 - i,
    {
        proof {
            lemma_sum_table(n - 1);
        }
        let ghost before = nested(combin_area@);
        let mut combin_part = combinations(n - 1, s - i);
        let ghost part = nested(combin_part@);
        if n == 1 {
            let mut combin: Vec<i32> = Vec::new();
            combin.push(i);
            combin_part.push(combin);
            let ghost single = nested(combin_part@);
            proof {
                assert(combin@ =~= seq![i]);
                lemma_gather_single(before, single, s as int, lower as int, i as int);
            }
            combin_area.append(&mut combin_part);
            assert(nested(combin_area@) =~= before + single);
        } else if combin_part.is_empty() {
            proof {
                assert(part =~= Seq::<Seq<i32>>::empty());
                lemma_gather_none(before, n as nat, s as int, lower as int, i as int);
            }
        } else {
            let mut j: usize = 0;
            while j < combin_part.len()
                invariant
                    j <= combin_part@.len(),
                    combin_part@.len() == part.len(),
                    forall|k: int| 0 <= k < j ==> (#[trigger] combin_part@[k])@ == part[k].push(i),
                    forall|k: int|
                        j <= k < part.len() ==> (#[trigger] combin_part@[k])@ == part[k],
                decreases combin_part@.len() - j,
            {
                combin_part[j].push(i);
                j += 1;
            }
            let ghost grown = nested(combin_part@);
            proof {
                lemma_gather_block(
                    before,
                    part,
                    grown,
                    n as nat,
                    s as int,
                    lower as int,
                    i as int,
                );
            }
            combin_area.append(&mut combin_part);
            assert(nested(combin_area@) =~= before + grown);
        }
        i += 1;
    }
    proof {
        lemma_gathered_filtered(nested(combin_area@), n as nat, s as int, i as int);
    }
    remove_duplicates(combin_area)
}

} // verus!
