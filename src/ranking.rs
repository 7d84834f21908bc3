use std::collections::VecDeque;
use std::time::Instant;
use vstd::prelude::*;

verus! {

broadcast use vstd::seq_lib::group_to_multiset_ensures;

/// One point to be ranked: an opaque identifier and its (squared) distance to
/// the reference point. Distances are compared as unsigned integers.
#[derive(Clone, Copy, Debug, PartialEq, Eq, Structural)]
pub struct RankedPoint {
    pub id: u64,
    pub distance: u64,
}

/// Distances never decrease along `s`.
pub open spec fn sorted_by_distance(s: Seq<RankedPoint>) -> bool {
    forall|i: int, j: int| 0 <= i <= j < s.len() ==> #[trigger] s[i].distance <= #[trigger] s[j].distance
}

/// `a` and `b` hold the same points, each as often.
pub open spec fn is_permutation(a: Seq<RankedPoint>, b: Seq<RankedPoint>) -> bool {
    a.to_multiset() == b.to_multiset()
}

/// Takes the point of smaller distance from the front of the two queues; on a
/// tie the first queue gives it.
pub fn get_smallest(half1: &mut VecDeque<RankedPoint>, half2: &mut VecDeque<RankedPoint>) -> (r: RankedPoint)
    requires
        old(half1)@.len() > 0 || old(half2)@.len() > 0,
    ensures
        if old(half1)@.len() > 0 && (old(half2)@.len() == 0 || old(half1)@[0].distance <= old(half2)@[0].distance) {
            &&& r == old(half1)@[0]
            &&& final(half1)@ == old(half1)@.drop_first()
            &&& final(half2)@ == old(half2)@
        } else {
            &&& r == old(half2)@[0]
            &&& final(half2)@ == old(half2)@.drop_first()
            &&& final(half1)@ == old(half1)@
        },
{
    if half1.len() == 0 {
        half2.pop_front().unwrap()
    } else if half2.len() == 0 {
        half1.pop_front().unwrap()
    } else if half1[0].distance <= half2[0].distance {
        half1.pop_front().unwrap()
    } else {
        half2.pop_front().unwrap()
    }
}


/// The points of `s` at distance `d`, in their order in `s`.
pub open spec fn at_distance(s: Seq<RankedPoint>, d: u64) -> Seq<RankedPoint>
    decreases s.len(),
{
    if s.len() == 0 {
        Seq::empty()
    } else if s.last().distance == d {
        at_distance(s.drop_last(), d).push(s.last())
    } else {
        at_distance(s.drop_last(), d)
    }
}

/// `b` lists the points of each distance in the order in which `a` lists
/// them: what a stable sort keeps.
pub open spec fn keeps_tie_order(b: Seq<RankedPoint>, a: Seq<RankedPoint>) -> bool {
    forall|d: u64| #[trigger] at_distance(b, d) == at_distance(a, d)
}

proof fn lemma_at_distance_concat(a: Seq<RankedPoint>, b: Seq<RankedPoint>, d: u64)
    ensures
        at_distance(a + b, d) == at_distance(a, d) + at_distance(b, d),
    decreases b.len(),
{
    if b.len() == 0 {
        assert(a + b =~= a);
        assert(at_distance(a, d) + at_distance(b, d) =~= at_distance(a, d));
    } else {
        lemma_at_distance_concat(a, b.drop_last(), d);
        assert((a + b).drop_last() =~= a + b.drop_last());
        assert((a + b).last() == b.last());
        if b.last().distance == d {
            assert(at_distance(a, d) + at_distance(b, d) =~= (at_distance(a, d) + at_distance(b.drop_last(), d)).push(b.last()));
        }
    }
}

proof fn lemma_at_distance_none(s: Seq<RankedPoint>, d: u64)
    requires
        forall|k: int| 0 <= k < s.len() ==> #[trigger] s[k].distance != d,
    ensures
        at_distance(s, d) == Seq::<RankedPoint>::empty(),
    decreases s.len(),
{
    if s.len() > 0 {
        lemma_at_distance_none(s.drop_last(), d);
    }
}

proof fn lemma_at_distance_push(s: Seq<RankedPoint>, x: RankedPoint, d: u64)
    ensures
        at_distance(s.push(x), d) == if x.distance == d { at_distance(s, d).push(x) } else { at_distance(s, d) },
{
    assert(s.push(x).drop_last() =~= s);
}

proof fn lemma_at_distance_found(s: Seq<RankedPoint>, d: u64)
    requires
        at_distance(s, d).len() > 0,
    ensures
        exists|k: int| 0 <= k < s.len() && #[trigger] s[k].distance == d,
    decreases s.len(),
{
    if s.last().distance != d {
        lemma_at_distance_found(s.drop_last(), d);
        let k = choose|k: int| 0 <= k < s.drop_last().len() && #[trigger] s.drop_last()[k].distance == d;
        assert(s[k] == s.drop_last()[k]);
    } else {
        assert(s[s.len() - 1].distance == d);
    }
}

/// An order sorted by distance is fixed by the order in which it lists the
/// points of each distance: two sorted orders that list them alike are equal.
/// So each variant's contract, which gives both, names exactly one answer.
pub proof fn lemma_sorted_order_unique(a: Seq<RankedPoint>, b: Seq<RankedPoint>)
    requires
        sorted_by_distance(a),
        sorted_by_distance(b),
        keeps_tie_order(a, b),
    ensures
        a == b,
    decreases a.len() + b.len(),
{
    if a.len() == 0 || b.len() == 0 {
        if a.len() > 0 {
            assert(at_distance(a, a.last().distance).len() > 0);
            assert(at_distance(b, a.last().distance).len() > 0);
        } else if b.len() > 0 {
            assert(at_distance(b, b.last().distance).len() > 0);
            assert(at_distance(a, b.last().distance).len() > 0);
        }
        assert(a =~= b);
    } else {
        let m = a.last().distance;
        let n = b.last().distance;
        assert(at_distance(a, m).len() > 0);
        lemma_at_distance_found(b, m);
        let kb = choose|k: int| 0 <= k < b.len() && #[trigger] b[k].distance == m;
        assert(b[kb].distance <= b[b.len() - 1].distance);
        assert(at_distance(b, n).len() > 0);
        lemma_at_distance_found(a, n);
        let ka = choose|k: int| 0 <= k < a.len() && #[trigger] a[k].distance == n;
        assert(a[ka].distance <= a[a.len() - 1].distance);
        assert(m == n);
        assert(at_distance(a, m) == at_distance(a.drop_last(), m).push(a.last()));
        assert(at_distance(b, m) == at_distance(b.drop_last(), m).push(b.last()));
        assert(a.last() == at_distance(a, m).last());
        assert(b.last() == at_distance(b, m).last());
        let a2 = a.drop_last();
        let b2 = b.drop_last();
        assert forall|d: u64| #[trigger] at_distance(a2, d) == at_distance(b2, d) by {
            if d == m {
                assert(at_distance(a2, d) =~= at_distance(a, d).drop_last());
                assert(at_distance(b2, d) =~= at_distance(b, d).drop_last());
            }
        }
        assert(keeps_tie_order(a2, b2));
        assert(sorted_by_distance(a2));
        assert(sorted_by_distance(b2));
        lemma_sorted_order_unique(a2, b2);
        assert(a =~= a2.push(a.last()));
        assert(b =~= b2.push(b.last()));
    }
}

/// The distances of the points of `s`, in order.
pub open spec fn distances_of(s: Seq<RankedPoint>) -> Seq<u64> {
    s.map_values(|p: RankedPoint| p.distance)
}

/// Two orders sorted by distance that hold as many points of each distance
/// have the same sequence of distances.
pub proof fn lemma_sorted_distances_unique(a: Seq<RankedPoint>, b: Seq<RankedPoint>)
    requires
        sorted_by_distance(a),
        sorted_by_distance(b),
        forall|d: u64| #[trigger] at_distance(a, d).len() == at_distance(b, d).len(),
    ensures
        distances_of(a) == distances_of(b),
    decreases a.len() + b.len(),
{
    if a.len() == 0 || b.len() == 0 {
        if a.len() > 0 {
            assert(at_distance(a, a.last().distance).len() > 0);
            assert(at_distance(b, a.last().distance).len() > 0);
        } else if b.len() > 0 {
            assert(at_distance(b, b.last().distance).len() > 0);
            assert(at_distance(a, b.last().distance).len() > 0);
        }
        assert(distances_of(a) =~= distances_of(b));
    } else {
        let m = a.last().distance;
        let n = b.last().distance;
        assert(at_distance(a, m).len() > 0);
        lemma_at_distance_found(b, m);
        let kb = choose|k: int| 0 <= k < b.len() && #[trigger] b[k].distance == m;
        assert(b[kb].distance <= b[b.len() - 1].distance);
        assert(at_distance(b, n).len() > 0);
        lemma_at_distance_found(a, n);
        let ka = choose|k: int| 0 <= k < a.len() && #[trigger] a[k].distance == n;
        assert(a[ka].distance <= a[a.len() - 1].distance);
        assert(m == n);
        let a2 = a.drop_last();
        let b2 = b.drop_last();
        assert forall|d: u64| #[trigger] at_distance(a2, d).len() == at_distance(b2, d).len() by {
            assert(at_distance(a, d).len() == at_distance(b, d).len());
        }
        assert(sorted_by_distance(a2));
        assert(sorted_by_distance(b2));
        lemma_sorted_distances_unique(a2, b2);
        assert(distances_of(a) =~= distances_of(a2).push(m));
        assert(distances_of(b) =~= distances_of(b2).push(n));
    }
}

/// A stable sort has one answer: two orders that are both sorted by distance
/// and both keep the order of equal-distance points of `x` are the same
/// order. So the top-down and bottom-up variants agree on every input.
pub proof fn lemma_stable_order_unique(x: Seq<RankedPoint>, a: Seq<RankedPoint>, b: Seq<RankedPoint>)
    requires
        sorted_by_distance(a),
        sorted_by_distance(b),
        keeps_tie_order(a, x),
        keeps_tie_order(b, x),
    ensures
        a == b,
{
    assert forall|d: u64| #[trigger] at_distance(a, d) == at_distance(b, d) by {
        assert(at_distance(a, d) == at_distance(x, d));
        assert(at_distance(b, d) == at_distance(x, d));
    }
    lemma_sorted_order_unique(a, b);
}

/// Every point of `a` is at most as far as every point of `b`.
pub open spec fn all_before(a: Seq<RankedPoint>, b: Seq<RankedPoint>) -> bool {
    forall|x: int, y: int| 0 <= x < a.len() && 0 <= y < b.len() ==> #[trigger] a[x].distance <= #[trigger] b[y].distance
}

/// Splits a queue in two: the first `len / 2` points, then the rest.
pub fn split_queue_alloc(queue: VecDeque<RankedPoint>) -> (r: (VecDeque<RankedPoint>, VecDeque<RankedPoint>))
    ensures
        r.0@ == queue@.subrange(0, (queue@.len() / 2) as int),
        r.1@ == queue@.subrange((queue@.len() / 2) as int, queue@.len() as int),
{
    let mut queue = queue;
    let ghost whole = queue@;
    let len = queue.len();
    let half_len = len / 2;
    let mut half1: VecDeque<RankedPoint> = VecDeque::with_capacity(half_len);
    let mut half2: VecDeque<RankedPoint> = VecDeque::with_capacity(half_len);
    let mut i: usize = 0;
    while i < half_len
        invariant
            len == whole.len(),
            half_len == len / 2,
            i <= half_len,
            half1@ == whole.subrange(0, i as int),
            queue@ == whole.subrange(i as int, len as int),
        decreases half_len - i,
    {
        let p = queue.pop_front().unwrap();
        half1.push_back(p);
        i = i + 1;
        assert(half1@ =~= whole.subrange(0, i as int));
        assert(queue@ =~= whole.subrange(i as int, len as int));
    }
    while i < len
        invariant
            len == whole.len(),
            half_len == len / 2,
            half_len <= i <= len,
            half1@ == whole.subrange(0, half_len as int),
            half2@ == whole.subrange(half_len as int, i as int),
            queue@ == whole.subrange(i as int, len as int),
        decreases len - i,
    {
        let p = queue.pop_front().unwrap();
        half2.push_back(p);
        i = i + 1;
        assert(half2@ =~= whole.subrange(half_len as int, i as int));
        assert(queue@ =~= whole.subrange(i as int, len as int));
    }
    (half1, half2)
}

/// Top-down merge sort that allocates fresh queues at every level. Stable:
/// on equal distance the point of the left half comes first.
pub fn merge_top(unsorted: VecDeque<RankedPoint>) -> (r: VecDeque<RankedPoint>)
    ensures
        sorted_by_distance(r@),
        is_permutation(r@, unsorted@),
        keeps_tie_order(r@, unsorted@),
        sorted_by_distance(unsorted@) ==> r@ == unsorted@,
    decreases unsorted@.len(),
{
    let length = unsorted.len();
    if length <= 1 {
        return unsorted;
    }
    let ghost whole = unsorted@;
    let (half1, half2) = split_queue_alloc(unsorted);
    assert(whole =~= half1@ + half2@);
    let ghost in1 = half1@;
    let ghost in2 = half2@;
    let mut half1 = merge_top(half1);
    let mut half2 = merge_top(half2);
    let ghost s1 = half1@;
    let ghost s2 = half2@;
    proof {
        assert(s1.to_multiset().len() == s1.len() && in1.to_multiset().len() == in1.len());
        assert(s2.to_multiset().len() == s2.len() && in2.to_multiset().len() == in2.len());
        if sorted_by_distance(whole) {
            assert(s1 == in1 && s2 == in2);
            assert forall|x: int, y: int| 0 <= x < s1.len() && 0 <= y < s2.len()
                implies #[trigger] s1[x].distance <= #[trigger] s2[y].distance by {
                assert(s1[x] == whole[x]);
                assert(s2[y] == whole[s1.len() + y]);
            }
        }
    }
    let ghost mut i: int = 0;
    let ghost mut j: int = 0;
    let mut merged: VecDeque<RankedPoint> = VecDeque::with_capacity(length);
    let mut k: usize = 0;
    while k < length
        invariant
            length == s1.len() + s2.len(),
            sorted_by_distance(s1),
            sorted_by_distance(s2),
            0 <= i <= s1.len(),
            0 <= j <= s2.len(),
            k == i + j,
            half1@ == s1.subrange(i, s1.len() as int),
            half2@ == s2.subrange(j, s2.len() as int),
            merged@.len() == k,
            merged@.to_multiset() == s1.subrange(0, i).to_multiset().add(s2.subrange(0, j).to_multiset()),
            sorted_by_distance(merged@),
            k > 0 && i < s1.len() ==> merged@[k - 1].distance <= s1[i].distance,
            k > 0 && j < s2.len() ==> merged@[k - 1].distance <= s2[j].distance,
            all_before(s1, s2) ==> (j == 0 || i == s1.len()),
            all_before(s1, s2) ==> merged@ == s1.subrange(0, i) + s2.subrange(0, j),
            i < s1.len() ==> forall|y: int| 0 <= y < j ==> #[trigger] s2[y].distance < s1[i].distance,
            forall|d: u64| #[trigger] at_distance(merged@, d) == at_distance(s1.subrange(0, i), d) + at_distance(s2.subrange(0, j), d),
        decreases length - k,
    {
        let ghost take_left = half1@.len() > 0 && (half2@.len() == 0 || half1@[0].distance <= half2@[0].distance);
        let p = get_smallest(&mut half1, &mut half2);
        let ghost prev = merged@;
        merged.push_back(p);
        proof {
            if take_left {
                assert(s1.subrange(0, i + 1) =~= s1.subrange(0, i).push(s1[i]));
                assert forall|d: u64| #[trigger] at_distance(merged@, d)
                    == at_distance(s1.subrange(0, i + 1), d) + at_distance(s2.subrange(0, j), d) by {
                    lemma_at_distance_push(prev, p, d);
                    lemma_at_distance_push(s1.subrange(0, i), p, d);
                    if p.distance == d {
                        assert forall|k: int| 0 <= k < s2.subrange(0, j).len() implies #[trigger] s2.subrange(0, j)[k].distance != d by {
                            assert(s2.subrange(0, j)[k] == s2[k]);
                        }
                        lemma_at_distance_none(s2.subrange(0, j), d);
                        assert(at_distance(s1.subrange(0, i), d).push(p) + at_distance(s2.subrange(0, j), d)
                            =~= (at_distance(s1.subrange(0, i), d) + at_distance(s2.subrange(0, j), d)).push(p));
                    }
                }
                i = i + 1;
            } else {
                assert(s2.subrange(0, j + 1) =~= s2.subrange(0, j).push(s2[j]));
                assert forall|d: u64| #[trigger] at_distance(merged@, d)
                    == at_distance(s1.subrange(0, i), d) + at_distance(s2.subrange(0, j + 1), d) by {
                    lemma_at_distance_push(prev, p, d);
                    lemma_at_distance_push(s2.subrange(0, j), p, d);
                    if p.distance == d {
                        assert(at_distance(s1.subrange(0, i), d) + at_distance(s2.subrange(0, j), d).push(p)
                            =~= (at_distance(s1.subrange(0, i), d) + at_distance(s2.subrange(0, j), d)).push(p));
                    }
                }
                j = j + 1;
            }
            assert(half1@ =~= s1.subrange(i, s1.len() as int));
            assert(half2@ =~= s2.subrange(j, s2.len() as int));
            if all_before(s1, s2) {
                assert(merged@ =~= s1.subrange(0, i) + s2.subrange(0, j));
            }
        }
        k = k + 1;
    }
    proof {
        assert(s1.subrange(0, i) =~= s1);
        assert(s2.subrange(0, j) =~= s2);
        vstd::seq_lib::lemma_multiset_commutative(in1, in2);
        assert forall|d: u64| #[trigger] at_distance(merged@, d) == at_distance(whole, d) by {
            lemma_at_distance_concat(in1, in2, d);
        }
        if sorted_by_distance(whole) {
            assert(merged@ =~= whole);
        }
    }
    merged
}


/// Distances never decrease along `s` between positions `lo` (inclusive) and
/// `hi` (exclusive).
pub open spec fn sorted_range(s: Seq<RankedPoint>, lo: int, hi: int) -> bool {
    forall|i: int, j: int| lo <= i <= j < hi ==> #[trigger] s[i].distance <= #[trigger] s[j].distance
}

/// Where the first half of the run that starts at `start` ends, cut at `len`.
pub open spec fn run_mid(len: int, start: int, run_size: int) -> int {
    if start + run_size / 2 <= len { start + run_size / 2 } else { len }
}

/// Where the run that starts at `start` ends, cut at `len`.
pub open spec fn run_end(len: int, start: int, run_size: int) -> int {
    if start + run_size <= len { start + run_size } else { len }
}

proof fn lemma_multiset_three(s: Seq<RankedPoint>, lo: int, hi: int)
    requires
        0 <= lo <= hi <= s.len(),
    ensures
        s.to_multiset() == s.subrange(0, lo).to_multiset().add(s.subrange(lo, hi).to_multiset()).add(
            s.subrange(hi, s.len() as int).to_multiset(),
        ),
{
    let a = s.subrange(0, lo);
    let b = s.subrange(lo, hi);
    let c = s.subrange(hi, s.len() as int);
    assert(s =~= a + b + c);
    vstd::seq_lib::lemma_multiset_commutative(a + b, c);
    vstd::seq_lib::lemma_multiset_commutative(a, b);
}

proof fn lemma_merge_take_left(merged: Seq<RankedPoint>, l: Seq<RankedPoint>, r: Seq<RankedPoint>, p: RankedPoint)
    requires
        forall|d: u64| #[trigger] at_distance(merged, d) == at_distance(l, d) + at_distance(r, d),
        forall|x: int| 0 <= x < r.len() ==> #[trigger] r[x].distance < p.distance,
    ensures
        forall|d: u64| #[trigger] at_distance(merged.push(p), d) == at_distance(l.push(p), d) + at_distance(r, d),
{
    assert forall|d: u64| #[trigger] at_distance(merged.push(p), d) == at_distance(l.push(p), d) + at_distance(r, d) by {
        lemma_at_distance_push(merged, p, d);
        lemma_at_distance_push(l, p, d);
        if p.distance == d {
            lemma_at_distance_none(r, d);
            assert(at_distance(l, d).push(p) + at_distance(r, d) =~= (at_distance(l, d) + at_distance(r, d)).push(p));
        }
    }
}

proof fn lemma_merge_take_right(merged: Seq<RankedPoint>, l: Seq<RankedPoint>, r: Seq<RankedPoint>, p: RankedPoint)
    requires
        forall|d: u64| #[trigger] at_distance(merged, d) == at_distance(l, d) + at_distance(r, d),
    ensures
        forall|d: u64| #[trigger] at_distance(merged.push(p), d) == at_distance(l, d) + at_distance(r.push(p), d),
{
    assert forall|d: u64| #[trigger] at_distance(merged.push(p), d) == at_distance(l, d) + at_distance(r.push(p), d) by {
        lemma_at_distance_push(merged, p, d);
        lemma_at_distance_push(r, p, d);
        if p.distance == d {
            assert(at_distance(l, d) + at_distance(r, d).push(p) =~= (at_distance(l, d) + at_distance(r, d)).push(p));
        }
    }
}

proof fn lemma_splice_keeps_tie_order(s: Seq<RankedPoint>, f: Seq<RankedPoint>, merged: Seq<RankedPoint>, lo: int, mid: int, hi: int)
    requires
        0 <= lo <= mid <= hi <= s.len(),
        f == s.subrange(0, lo) + merged + s.subrange(hi, s.len() as int),
        forall|d: u64| #[trigger] at_distance(merged, d) == at_distance(s.subrange(lo, mid), d) + at_distance(s.subrange(mid, hi), d),
    ensures
        keeps_tie_order(f, s),
{
    let pre = s.subrange(0, lo);
    let a = s.subrange(lo, mid);
    let b = s.subrange(mid, hi);
    let post = s.subrange(hi, s.len() as int);
    assert(s =~= pre + a + b + post);
    assert forall|d: u64| #[trigger] at_distance(f, d) == at_distance(s, d) by {
        lemma_at_distance_concat(pre + merged, post, d);
        lemma_at_distance_concat(pre, merged, d);
        lemma_at_distance_concat(pre + a + b, post, d);
        lemma_at_distance_concat(pre + a, b, d);
        lemma_at_distance_concat(pre, a, d);
        assert(at_distance(pre, d) + (at_distance(a, d) + at_distance(b, d)) =~= at_distance(pre, d) + at_distance(a, d) + at_distance(b, d));
    }
}

/// Merges the sorted neighbours `start..half_way` and `half_way..end`
/// through `temp` and copies the merged span back. On equal distance the
/// left one wins.
pub fn merge_span(unsorted: &mut Vec<RankedPoint>, temp: &mut Vec<RankedPoint>, start: usize, half_way: usize, end: usize)
    requires
        start <= half_way <= end <= old(unsorted)@.len(),
        old(temp)@.len() >= old(unsorted)@.len(),
    ensures
        final(unsorted)@.len() == old(unsorted)@.len(),
        final(temp)@.len() == old(temp)@.len(),
        final(unsorted)@.to_multiset() == old(unsorted)@.to_multiset(),
        forall|k: int| 0 <= k < old(unsorted)@.len() && !(start <= k < end) ==> #[trigger] final(unsorted)@[k] == old(unsorted)@[k],
        sorted_range(old(unsorted)@, start as int, half_way as int) && sorted_range(old(unsorted)@, half_way as int, end as int)
            ==> sorted_range(final(unsorted)@, start as int, end as int),
        sorted_range(old(unsorted)@, start as int, half_way as int) && sorted_range(old(unsorted)@, half_way as int, end as int)
            ==> keeps_tie_order(final(unsorted)@, old(unsorted)@),
        sorted_range(old(unsorted)@, start as int, end as int) ==> final(unsorted)@ == old(unsorted)@,
{
    let ghost s = unsorted@;
    let ghost tlen = temp@.len();
    let len = unsorted.len();
    let n = end - start;
    let ghost both_sorted = sorted_range(s, start as int, half_way as int) && sorted_range(s, half_way as int, end as int);
    let ghost whole_sorted = sorted_range(s, start as int, end as int);
    let mut i: usize = start;
    let mut j: usize = half_way;
    let mut k: usize = 0;
    while k < n
        invariant
            unsorted@ == s,
            len == s.len(),
            temp@.len() == tlen,
            tlen >= len,
            start <= i <= half_way <= j <= end <= len,
            n == end - start,
            k == (i - start) + (j - half_way),
            both_sorted == (sorted_range(s, start as int, half_way as int) && sorted_range(s, half_way as int, end as int)),
            whole_sorted == sorted_range(s, start as int, end as int),
            temp@.subrange(0, k as int).to_multiset()
                == s.subrange(start as int, i as int).to_multiset().add(s.subrange(half_way as int, j as int).to_multiset()),
            both_sorted ==> sorted_range(temp@, 0, k as int),
            both_sorted && k > 0 && i < half_way ==> temp@[k - 1].distance <= s[i as int].distance,
            both_sorted && k > 0 && j < end ==> temp@[k - 1].distance <= s[j as int].distance,
            whole_sorted ==> (j == half_way || i == half_way),
            whole_sorted ==> temp@.subrange(0, k as int) == s.subrange(start as int, start + k),
            both_sorted && i < half_way ==> forall|y: int| half_way <= y < j ==> #[trigger] s[y].distance < s[i as int].distance,
            both_sorted ==> forall|d: u64| #[trigger] at_distance(temp@.subrange(0, k as int), d)
                == at_distance(s.subrange(start as int, i as int), d) + at_distance(s.subrange(half_way as int, j as int), d),
        decreases n - k,
    {
        let ghost before = temp@;
        let take_left = if i == half_way {
            false
        } else if j == end {
            true
        } else {
            unsorted[i].distance <= unsorted[j].distance
        };
        if take_left {
            temp[k] = unsorted[i];
            proof {
                let l = s.subrange(start as int, i as int);
                let r = s.subrange(half_way as int, j as int);
                let p = s[i as int];
                assert(s.subrange(start as int, i + 1) =~= l.push(p));
                assert(temp@.subrange(0, k + 1) =~= before.subrange(0, k as int).push(p));
                if both_sorted {
                    assert forall|x: int| 0 <= x < r.len() implies #[trigger] r[x].distance < p.distance by {
                        assert(r[x] == s[half_way + x]);
                    }
                    lemma_merge_take_left(before.subrange(0, k as int), l, r, p);
                }
            }
            i = i + 1;
        } else {
            temp[k] = unsorted[j];
            proof {
                let l = s.subrange(start as int, i as int);
                let r = s.subrange(half_way as int, j as int);
                let p = s[j as int];
                assert(s.subrange(half_way as int, j + 1) =~= r.push(p));
                assert(temp@.subrange(0, k + 1) =~= before.subrange(0, k as int).push(p));
                if both_sorted {
                    lemma_merge_take_right(before.subrange(0, k as int), l, r, p);
                }
            }
            j = j + 1;
        }
        k = k + 1;
        proof {
            if whole_sorted {
                assert(temp@.subrange(0, k as int) =~= s.subrange(start as int, start + k));
            }
        }
    }
    let ghost merged = temp@.subrange(0, n as int);
    proof {
        assert(s.subrange(start as int, i as int) =~= s.subrange(start as int, half_way as int));
        assert(s.subrange(half_way as int, j as int) =~= s.subrange(half_way as int, end as int));
        assert(s.subrange(start as int, end as int) =~= s.subrange(start as int, half_way as int) + s.subrange(half_way as int, end as int));
        vstd::seq_lib::lemma_multiset_commutative(s.subrange(start as int, half_way as int), s.subrange(half_way as int, end as int));
    }
    let mut c: usize = 0;
    while c < n
        invariant
            len == s.len(),
            start <= end <= len,
            n == end - start,
            c <= n,
            temp@.len() == tlen,
            tlen >= len,
            temp@.subrange(0, n as int) == merged,
            unsorted@.len() == len,
            forall|x: int| 0 <= x < len && !(start <= x < start + c) ==> #[trigger] unsorted@[x] == s[x],
            forall|x: int| start <= x < start + c ==> #[trigger] unsorted@[x] == merged[x - start],
        decreases n - c,
    {
        unsorted[start + c] = temp[c];
        c = c + 1;
    }
    proof {
        let f = unsorted@;
        assert(f.subrange(start as int, end as int) =~= merged);
        assert(f.subrange(0, start as int) =~= s.subrange(0, start as int));
        assert(f.subrange(end as int, len as int) =~= s.subrange(end as int, len as int));
        lemma_multiset_three(s, start as int, end as int);
        lemma_multiset_three(f, start as int, end as int);
        if both_sorted {
            assert forall|x: int, y: int| start <= x <= y < end implies #[trigger] f[x].distance <= #[trigger] f[y].distance by {
                assert(f[x] == merged[x - start]);
                assert(f[y] == merged[y - start]);
            }
        }
        if both_sorted {
            assert(f =~= s.subrange(0, start as int) + merged + s.subrange(end as int, len as int));
            lemma_splice_keeps_tie_order(s, f, merged, start as int, half_way as int, end as int);
        }
        if whole_sorted {
            assert(f =~= s);
        }
    }
}


/// Merges the two halves of the run of `run_size` points that starts at
/// `start` (each half cut at the end of the array) through `temp`, then copies
/// the merged run back. On equal distance the left half wins.
pub fn merge_run(unsorted: &mut Vec<RankedPoint>, temp: &mut Vec<RankedPoint>, start: usize, run_size: usize)
    requires
        start <= old(unsorted)@.len(),
        old(temp)@.len() >= old(unsorted)@.len(),
    ensures
        final(unsorted)@.len() == old(unsorted)@.len(),
        final(temp)@.len() == old(temp)@.len(),
        final(unsorted)@.to_multiset() == old(unsorted)@.to_multiset(),
        forall|k: int|
            0 <= k < old(unsorted)@.len() && !(start <= k < run_end(old(unsorted)@.len() as int, start as int, run_size as int))
                ==> #[trigger] final(unsorted)@[k] == old(unsorted)@[k],
        sorted_range(old(unsorted)@, start as int, run_mid(old(unsorted)@.len() as int, start as int, run_size as int))
            && sorted_range(old(unsorted)@, run_mid(old(unsorted)@.len() as int, start as int, run_size as int),
                run_end(old(unsorted)@.len() as int, start as int, run_size as int))
            ==> sorted_range(final(unsorted)@, start as int, run_end(old(unsorted)@.len() as int, start as int, run_size as int)),
        sorted_range(old(unsorted)@, start as int, run_mid(old(unsorted)@.len() as int, start as int, run_size as int))
            && sorted_range(old(unsorted)@, run_mid(old(unsorted)@.len() as int, start as int, run_size as int),
                run_end(old(unsorted)@.len() as int, start as int, run_size as int))
            ==> keeps_tie_order(final(unsorted)@, old(unsorted)@),
        sorted_range(old(unsorted)@, start as int, run_end(old(unsorted)@.len() as int, start as int, run_size as int))
            ==> final(unsorted)@ == old(unsorted)@,
{
    let len = unsorted.len();
    let half = run_size / 2;
    let half_way = if half <= len - start { start + half } else { len };
    let end = if run_size <= len - start { start + run_size } else { len };
    merge_span(unsorted, temp, start, half_way, end);
}

/// The `b`-th block of width `w` of `s` (cut at the end of `s`) is sorted.
pub open spec fn block_sorted(s: Seq<RankedPoint>, w: int, b: int) -> bool {
    sorted_range(s, b * w, if b * w + w <= s.len() { b * w + w } else { s.len() as int })
}

proof fn lemma_sorted_range_kept(s: Seq<RankedPoint>, f: Seq<RankedPoint>, lo: int, hi: int)
    requires
        sorted_range(s, lo, hi),
        forall|k: int| lo <= k < hi ==> #[trigger] f[k] == s[k],
    ensures
        sorted_range(f, lo, hi),
{
    assert forall|i: int, j: int| lo <= i <= j < hi implies #[trigger] f[i].distance <= #[trigger] f[j].distance by {
        assert(f[i] == s[i] && f[j] == s[j]);
    }
}

proof fn lemma_block_bounds(q: int, h: int, b: int)
    requires
        q >= 0,
        h >= 1,
        b >= 0,
    ensures
        (2 * q) * h == q * (2 * h),
        (2 * q + 1) * h == q * (2 * h) + h,
        b < q ==> b * (2 * h) + 2 * h <= q * (2 * h),
        b >= 2 * q + 2 ==> b * h >= q * (2 * h) + 2 * h,
        b >= q ==> b * (2 * h) >= q * (2 * h),
{
    assert((2 * q) * h == q * (2 * h)) by (nonlinear_arith);
    assert((2 * q + 1) * h == q * (2 * h) + h) by (nonlinear_arith);
    assert(b < q ==> b * (2 * h) + 2 * h <= q * (2 * h)) by (nonlinear_arith)
        requires h >= 1;
    assert(b >= 2 * q + 2 ==> b * h >= q * (2 * h) + 2 * h) by (nonlinear_arith)
        requires h >= 1;
    assert(b >= q ==> b * (2 * h) >= q * (2 * h)) by (nonlinear_arith)
        requires h >= 1;
}

/// A vector of `length` points, each with id 0 and distance 0.
pub fn allocate_vec_with_placeholders(length: usize) -> (r: Vec<RankedPoint>)
    ensures
        r@.len() == length,
        forall|i: int| 0 <= i < length ==> #[trigger] r@[i] == (RankedPoint { id: 0, distance: 0 }),
{
    vec![RankedPoint { id: 0, distance: 0 }; length]
}

/// Iterative bottom-up merge sort in place, with one scratch buffer the size
/// of the input. Stable: on equal distance the left run wins.
pub fn merge_bottom(unsorted: &mut Vec<RankedPoint>)
    ensures
        sorted_by_distance(final(unsorted)@),
        is_permutation(final(unsorted)@, old(unsorted)@),
        keeps_tie_order(final(unsorted)@, old(unsorted)@),
        sorted_by_distance(old(unsorted)@) ==> final(unsorted)@ == old(unsorted)@,
{
    let ghost orig = unsorted@;
    let length = unsorted.len();
    let mut temp = allocate_vec_with_placeholders(length);
    let mut width: usize = 1;
    while width <= length / 2
        invariant
            length == orig.len(),
            unsorted@.len() == length,
            temp@.len() == length,
            width >= 1,
            width == 1 || width <= length,
            unsorted@.to_multiset() == orig.to_multiset(),
            keeps_tie_order(unsorted@, orig),
            sorted_by_distance(orig) ==> unsorted@ == orig,
            forall|b: int| b >= 0 ==> #[trigger] block_sorted(unsorted@, width as int, b),
        decreases length - width,
    {
        let run_size = width * 2;
        let ghost h = width as int;
        let mut run_start_index: usize = 0;
        let ghost mut q: int = 0;
        while run_start_index < length
            invariant
                length == orig.len(),
                unsorted@.len() == length,
                temp@.len() == length,
                run_size == 2 * h,
                h >= 1,
                run_size <= length,
                q >= 0,
                q * run_size <= length ==> run_start_index == q * run_size,
                q * run_size > length ==> run_start_index == length,
                unsorted@.to_multiset() == orig.to_multiset(),
                keeps_tie_order(unsorted@, orig),
                sorted_by_distance(orig) ==> unsorted@ == orig,
                forall|b: int| 0 <= b < q ==> #[trigger] block_sorted(unsorted@, run_size as int, b),
                forall|b: int| b >= 2 * q ==> #[trigger] block_sorted(unsorted@, h, b),
            decreases length - run_start_index,
        {
            let ghost s = unsorted@;
            let ghost start = run_start_index as int;
            let ghost w = run_size as int;
            proof {
                assert(start == q * w);
                lemma_block_bounds(q, h, 0);
                assert(block_sorted(s, h, 2 * q));
                assert(block_sorted(s, h, 2 * q + 1));
                if sorted_by_distance(orig) {
                    assert(sorted_range(s, start, run_end(length as int, start, w)));
                }
            }
            merge_run(unsorted, &mut temp, run_start_index, run_size);
            proof {
                let f = unsorted@;
                let e = run_end(length as int, start, w);
                assert(keeps_tie_order(f, s));
                assert forall|d: u64| #[trigger] at_distance(f, d) == at_distance(orig, d) by {
                    assert(at_distance(f, d) == at_distance(s, d));
                }
                assert forall|b: int| 0 <= b < q + 1 implies #[trigger] block_sorted(f, w, b) by {
                    lemma_block_bounds(q, h, b);
                    if b < q {
                        assert(block_sorted(s, w, b));
                        let lo = b * w;
                        let hi = if b * w + w <= length { b * w + w } else { length as int };
                        assert forall|k: int| lo <= k < hi implies #[trigger] f[k] == s[k] by {
                            assert(!(start <= k < e));
                        }
                        lemma_sorted_range_kept(s, f, lo, hi);
                    }
                }
                assert forall|b: int| b >= 2 * (q + 1) implies #[trigger] block_sorted(f, h, b) by {
                    lemma_block_bounds(q, h, b);
                    assert(block_sorted(s, h, b));
                    let lo = b * h;
                    let hi = if b * h + h <= length { b * h + h } else { length as int };
                    assert forall|k: int| lo <= k < hi implies #[trigger] f[k] == s[k] by {
                        assert(!(start <= k < e));
                    }
                    lemma_sorted_range_kept(s, f, lo, hi);
                }
                assert((q + 1) * w == q * w + w) by (nonlinear_arith);
                q = q + 1;
            }
            run_start_index = if run_size < length - run_start_index { run_start_index + run_size } else { length };
        }
        proof {
            let s = unsorted@;
            assert(q * run_size >= length);
            assert forall|b: int| b >= 0 implies #[trigger] block_sorted(s, run_size as int, b) by {
                lemma_block_bounds(q, h, b);
            }
        }
        width = run_size;
    }
    let ghost s = unsorted@;
    let mid = if width <= length { width } else { length };
    proof {
        assert(block_sorted(s, width as int, 0));
        assert(block_sorted(s, width as int, 1));
        assert(sorted_range(s, 0, mid as int));
        assert(sorted_range(s, mid as int, length as int));
        if sorted_by_distance(orig) {
            assert(sorted_range(s, 0, length as int));
        }
    }
    merge_span(unsorted, &mut temp, 0, mid, length);
    proof {
        let f = unsorted@;
        assert(sorted_range(f, 0, length as int));
        assert(keeps_tie_order(f, s));
        assert forall|d: u64| #[trigger] at_distance(f, d) == at_distance(orig, d) by {
            assert(at_distance(f, d) == at_distance(s, d));
        }
    }
}

/// Distances strictly increase along `s` between positions `lo` (inclusive)
/// and `hi` (exclusive).
pub open spec fn strictly_sorted_range(s: Seq<RankedPoint>, lo: int, hi: int) -> bool {
    forall|i: int, j: int| lo <= i < j < hi ==> #[trigger] s[i].distance < #[trigger] s[j].distance
}

proof fn lemma_reverse_concat(a: Seq<RankedPoint>, b: Seq<RankedPoint>)
    ensures
        (a + b).reverse() == b.reverse() + a.reverse(),
{
    assert((a + b).reverse() =~= b.reverse() + a.reverse());
}

proof fn lemma_at_distance_len(s: Seq<RankedPoint>, d: u64)
    ensures
        at_distance(s, d).len() <= s.len(),
    decreases s.len(),
{
    if s.len() > 0 {
        lemma_at_distance_len(s.drop_last(), d);
    }
}

/// Merges the sorted neighbours `lo..half_way` and `half_way..hi` through
/// `temp` and copies the result back. On equal distance the right half wins.
pub fn merge(unsorted: &mut Vec<RankedPoint>, temp: &mut Vec<RankedPoint>, lo: usize, half_way: usize, hi: usize)
    requires
        lo <= half_way <= hi <= old(unsorted)@.len(),
        old(temp)@.len() >= old(unsorted)@.len(),
    ensures
        final(unsorted)@.len() == old(unsorted)@.len(),
        final(temp)@.len() == old(temp)@.len(),
        final(unsorted)@.to_multiset() == old(unsorted)@.to_multiset(),
        forall|k: int| 0 <= k < old(unsorted)@.len() && !(lo <= k < hi) ==> #[trigger] final(unsorted)@[k] == old(unsorted)@[k],
        sorted_range(old(unsorted)@, lo as int, half_way as int) && sorted_range(old(unsorted)@, half_way as int, hi as int)
            ==> sorted_range(final(unsorted)@, lo as int, hi as int),
        sorted_range(old(unsorted)@, lo as int, half_way as int) && sorted_range(old(unsorted)@, half_way as int, hi as int)
            ==> forall|d: u64| #[trigger] at_distance(final(unsorted)@.subrange(lo as int, hi as int), d)
                == at_distance(old(unsorted)@.subrange(half_way as int, hi as int), d) + at_distance(old(unsorted)@.subrange(lo as int, half_way as int), d),
        strictly_sorted_range(old(unsorted)@, lo as int, hi as int) ==> final(unsorted)@ == old(unsorted)@,
{
    let ghost s = unsorted@;
    let ghost tlen = temp@.len();
    let len = unsorted.len();
    let n = hi - lo;
    let ghost both_sorted = sorted_range(s, lo as int, half_way as int) && sorted_range(s, half_way as int, hi as int);
    let ghost whole_sorted = strictly_sorted_range(s, lo as int, hi as int);
    let mut i: usize = lo;
    let mut j: usize = half_way;
    let mut k: usize = 0;
    while k < n
        invariant
            unsorted@ == s,
            len == s.len(),
            temp@.len() == tlen,
            tlen >= len,
            lo <= i <= half_way <= j <= hi <= len,
            n == hi - lo,
            k == (i - lo) + (j - half_way),
            both_sorted == (sorted_range(s, lo as int, half_way as int) && sorted_range(s, half_way as int, hi as int)),
            whole_sorted == strictly_sorted_range(s, lo as int, hi as int),
            temp@.subrange(0, k as int).to_multiset()
                == s.subrange(lo as int, i as int).to_multiset().add(s.subrange(half_way as int, j as int).to_multiset()),
            both_sorted ==> sorted_range(temp@, 0, k as int),
            both_sorted && k > 0 && i < half_way ==> temp@[k - 1].distance <= s[i as int].distance,
            both_sorted && k > 0 && j < hi ==> temp@[k - 1].distance <= s[j as int].distance,
            whole_sorted ==> (j == half_way || i == half_way),
            whole_sorted ==> temp@.subrange(0, k as int) == s.subrange(lo as int, lo + k),
            both_sorted && j < hi ==> forall|x: int| lo <= x < i ==> #[trigger] s[x].distance < s[j as int].distance,
            both_sorted ==> forall|d: u64| #[trigger] at_distance(temp@.subrange(0, k as int), d)
                == at_distance(s.subrange(half_way as int, j as int), d) + at_distance(s.subrange(lo as int, i as int), d),
        decreases n - k,
    {
        let ghost before = temp@;
        let take_left = if i == half_way {
            false
        } else if j == hi {
            true
        } else {
            unsorted[i].distance < unsorted[j].distance
        };
        if take_left {
            temp[k] = unsorted[i];
            proof {
                let l = s.subrange(lo as int, i as int);
                let r = s.subrange(half_way as int, j as int);
                let p = s[i as int];
                assert(s.subrange(lo as int, i + 1) =~= l.push(p));
                assert(temp@.subrange(0, k + 1) =~= before.subrange(0, k as int).push(p));
                if both_sorted {
                    lemma_merge_take_right(before.subrange(0, k as int), r, l, p);
                }
            }
            i = i + 1;
        } else {
            temp[k] = unsorted[j];
            proof {
                let l = s.subrange(lo as int, i as int);
                let r = s.subrange(half_way as int, j as int);
                let p = s[j as int];
                assert(s.subrange(half_way as int, j + 1) =~= r.push(p));
                assert(temp@.subrange(0, k + 1) =~= before.subrange(0, k as int).push(p));
                if both_sorted {
                    assert forall|x: int| 0 <= x < l.len() implies #[trigger] l[x].distance < p.distance by {
                        assert(l[x] == s[lo + x]);
                    }
                    lemma_merge_take_left(before.subrange(0, k as int), r, l, p);
                }
            }
            j = j + 1;
        }
        k = k + 1;
        proof {
            if whole_sorted {
                assert(temp@.subrange(0, k as int) =~= s.subrange(lo as int, lo + k));
            }
        }
    }
    let ghost merged = temp@.subrange(0, n as int);
    proof {
        assert(s.subrange(lo as int, i as int) =~= s.subrange(lo as int, half_way as int));
        assert(s.subrange(half_way as int, j as int) =~= s.subrange(half_way as int, hi as int));
        assert(s.subrange(lo as int, hi as int) =~= s.subrange(lo as int, half_way as int) + s.subrange(half_way as int, hi as int));
        vstd::seq_lib::lemma_multiset_commutative(s.subrange(lo as int, half_way as int), s.subrange(half_way as int, hi as int));
    }
    let mut c: usize = 0;
    while c < n
        invariant
            len == s.len(),
            lo <= hi <= len,
            n == hi - lo,
            c <= n,
            temp@.len() == tlen,
            tlen >= len,
            temp@.subrange(0, n as int) == merged,
            unsorted@.len() == len,
            forall|x: int| 0 <= x < len && !(lo <= x < lo + c) ==> #[trigger] unsorted@[x] == s[x],
            forall|x: int| lo <= x < lo + c ==> #[trigger] unsorted@[x] == merged[x - lo],
        decreases n - c,
    {
        unsorted[lo + c] = temp[c];
        c = c + 1;
    }
    proof {
        let f = unsorted@;
        assert(f.subrange(lo as int, hi as int) =~= merged);
        assert(f.subrange(0, lo as int) =~= s.subrange(0, lo as int));
        assert(f.subrange(hi as int, len as int) =~= s.subrange(hi as int, len as int));
        lemma_multiset_three(s, lo as int, hi as int);
        lemma_multiset_three(f, lo as int, hi as int);
        if both_sorted {
            assert forall|x: int, y: int| lo <= x <= y < hi implies #[trigger] f[x].distance <= #[trigger] f[y].distance by {
                assert(f[x] == merged[x - lo]);
                assert(f[y] == merged[y - lo]);
            }
        }
        if whole_sorted {
            assert(f =~= s);
        }
    }
}

/// Recursive merge sort of `lo..hi` in place, sharing `temp` across all
/// levels. The split point is the middle of the range.
pub fn merge_sort_range(unsorted: &mut Vec<RankedPoint>, temp: &mut Vec<RankedPoint>, lo: usize, hi: usize)
    requires
        lo <= hi <= old(unsorted)@.len(),
        old(temp)@.len() >= old(unsorted)@.len(),
    ensures
        final(unsorted)@.len() == old(unsorted)@.len(),
        final(temp)@.len() == old(temp)@.len(),
        final(unsorted)@.to_multiset() == old(unsorted)@.to_multiset(),
        forall|k: int| 0 <= k < old(unsorted)@.len() && !(lo <= k < hi) ==> #[trigger] final(unsorted)@[k] == old(unsorted)@[k],
        sorted_range(final(unsorted)@, lo as int, hi as int),
        forall|d: u64| #[trigger] at_distance(final(unsorted)@.subrange(lo as int, hi as int), d)
            == at_distance(old(unsorted)@.subrange(lo as int, hi as int), d).reverse(),
        strictly_sorted_range(old(unsorted)@, lo as int, hi as int) ==> final(unsorted)@ == old(unsorted)@,
        hi - lo <= 1 ==> final(temp)@ == old(temp)@,
    decreases hi - lo,
{
    if hi - lo > 1 {
        let half_way = lo + (hi - lo) / 2;
        let ghost s0 = unsorted@;
        merge_sort_range(unsorted, temp, lo, half_way);
        let ghost s1 = unsorted@;
        merge_sort_range(unsorted, temp, half_way, hi);
        let ghost s2 = unsorted@;
        proof {
            assert forall|k: int| lo <= k < half_way implies #[trigger] s2[k] == s1[k] by {}
            lemma_sorted_range_kept(s1, s2, lo as int, half_way as int);
            if strictly_sorted_range(s0, lo as int, hi as int) {
                assert(s1 == s0);
                assert(strictly_sorted_range(s1, half_way as int, hi as int));
                assert(s2 == s0);
            }
        }
        merge(unsorted, temp, lo, half_way, hi);
        proof {
            let f = unsorted@;
            let t = s0.subrange(lo as int, hi as int);
            let l = s0.subrange(lo as int, half_way as int);
            let r = s0.subrange(half_way as int, hi as int);
            assert(s1.subrange(half_way as int, hi as int) =~= r);
            assert(s2.subrange(lo as int, half_way as int) =~= s1.subrange(lo as int, half_way as int));
            assert(t =~= l + r);
            assert forall|d: u64| #[trigger] at_distance(f.subrange(lo as int, hi as int), d) == at_distance(t, d).reverse() by {
                assert(at_distance(s2.subrange(half_way as int, hi as int), d) == at_distance(s1.subrange(half_way as int, hi as int), d).reverse());
                assert(at_distance(s1.subrange(lo as int, half_way as int), d) == at_distance(l, d).reverse());
                lemma_at_distance_concat(l, r, d);
                lemma_reverse_concat(at_distance(l, d), at_distance(r, d));
            }
        }
    } else {
        proof {
            let t = old(unsorted)@.subrange(lo as int, hi as int);
            assert forall|d: u64| #[trigger] at_distance(unsorted@.subrange(lo as int, hi as int), d) == at_distance(t, d).reverse() by {
                lemma_at_distance_len(t, d);
                assert(at_distance(t, d).reverse() =~= at_distance(t, d));
            }
        }
    }
}

/// Sorts the whole vector with `merge_sort_range`, sharing one scratch buffer
/// (at least as long as the vector) across the recursion. Points of equal
/// distance come out in the reverse of their input order.
pub fn merge_sort(unsorted: &mut Vec<RankedPoint>, temp: &mut Vec<RankedPoint>)
    requires
        old(temp)@.len() >= old(unsorted)@.len(),
    ensures
        final(temp)@.len() == old(temp)@.len(),
        sorted_by_distance(final(unsorted)@),
        is_permutation(final(unsorted)@, old(unsorted)@),
        forall|d: u64| #[trigger] at_distance(final(unsorted)@, d) == at_distance(old(unsorted)@, d).reverse(),
        strictly_sorted_range(old(unsorted)@, 0, old(unsorted)@.len() as int) ==> final(unsorted)@ == old(unsorted)@,
        old(unsorted)@.len() <= 1 ==> final(unsorted)@ == old(unsorted)@ && final(temp)@ == old(temp)@,
        sorted_by_distance(old(unsorted)@) ==> distances_of(final(unsorted)@) == distances_of(old(unsorted)@),
{
    let ghost s = unsorted@;
    let len = unsorted.len();
    merge_sort_range(unsorted, temp, 0, len);
    assert(unsorted@.subrange(0, len as int) =~= unsorted@);
    assert(s.subrange(0, len as int) =~= s);
    proof {
        if sorted_by_distance(s) {
            assert forall|d: u64| #[trigger] at_distance(unsorted@, d).len() == at_distance(s, d).len() by {
                assert(at_distance(unsorted@, d) == at_distance(s, d).reverse());
            }
            lemma_sorted_distances_unique(unsorted@, s);
        }
    }
}


/// The identifiers of the points of `s`, in order.
pub open spec fn ids_of(s: Seq<RankedPoint>) -> Seq<u64> {
    s.map_values(|p: RankedPoint| p.id)
}

/// What one ranking run hands back: the points in ascending order of
/// distance, the identifiers of the nearest ones, and the time the sort took.
pub struct Ranking {
    pub ordered: Vec<RankedPoint>,
    pub nearest: Vec<u64>,
    pub elapsed_nanos: u128,
}

/// Why a ranking run could not answer.
#[derive(Clone, Copy, Debug, PartialEq, Eq, Structural)]
pub enum RankError {
    /// More nearest points were asked for than there are points.
    OutOfRange,
}

/// What every variant promises of its answer to `points` and `pick_number`:
/// the order is sorted by distance and holds the same points, and `nearest`
/// holds the identifiers of its first `pick_number` points.
pub open spec fn ranking_answers(r: Result<Ranking, RankError>, points: Seq<RankedPoint>, pick_number: int) -> bool {
    &&& (r is Err <==> pick_number > points.len())
    &&& (r is Err ==> r == Err::<Ranking, RankError>(RankError::OutOfRange))
    &&& (r matches Ok(rk) ==> {
        &&& sorted_by_distance(rk.ordered@)
        &&& rk.ordered@.len() == points.len()
        &&& is_permutation(rk.ordered@, points)
        &&& rk.nearest@ == ids_of(rk.ordered@.take(pick_number))
    })
}

/// The identifiers of the first `k` points of `ordered`.
pub fn nearest_ids(ordered: &Vec<RankedPoint>, k: usize) -> (r: Vec<u64>)
    requires
        k <= ordered@.len(),
    ensures
        r@ == ids_of(ordered@.take(k as int)),
{
    let mut r: Vec<u64> = Vec::with_capacity(k);
    let mut i: usize = 0;
    while i < k
        invariant
            k <= ordered@.len(),
            i <= k,
            r@ == ids_of(ordered@.take(i as int)),
        decreases k - i,
    {
        r.push(ordered[i].id);
        i = i + 1;
        assert(r@ =~= ids_of(ordered@.take(i as int)));
    }
    r
}

/// Ranks `points` with the allocating top-down merge sort. The clock brackets
/// the sort alone.
pub fn top_down(points: Vec<RankedPoint>, pick_number: usize) -> (r: Result<Ranking, RankError>)
    ensures
        ranking_answers(r, points@, pick_number as int),
        r matches Ok(rk) ==> keeps_tie_order(rk.ordered@, points@),
        sorted_by_distance(points@) && r is Ok ==> r->Ok_0.ordered@ == points@,
        points@.len() <= 1 && r is Ok ==> r->Ok_0.ordered@ == points@,
{
    if pick_number > points.len() {
        return Err(RankError::OutOfRange);
    }
    let mut queue: VecDeque<RankedPoint> = VecDeque::with_capacity(points.len());
    let mut i: usize = 0;
    while i < points.len()
        invariant
            i <= points@.len(),
            queue@ == points@.take(i as int),
        decreases points@.len() - i,
    {
        queue.push_back(points[i]);
        i = i + 1;
        assert(queue@ =~= points@.take(i as int));
    }
    assert(queue@ =~= points@);
    let start = Instant::now();
    let sorted = merge_top(queue);
    let elapsed_nanos = start.elapsed().as_nanos();
    let mut ordered: Vec<RankedPoint> = Vec::with_capacity(sorted.len());
    let mut j: usize = 0;
    while j < sorted.len()
        invariant
            j <= sorted@.len(),
            ordered@ == sorted@.take(j as int),
        decreases sorted@.len() - j,
    {
        ordered.push(sorted[j]);
        j = j + 1;
        assert(ordered@ =~= sorted@.take(j as int));
    }
    assert(ordered@ =~= sorted@);
    proof {
        assert(ordered@.to_multiset().len() == ordered@.len() && points@.to_multiset().len() == points@.len());
    }
    let nearest = nearest_ids(&ordered, pick_number);
    Ok(Ranking { ordered, nearest, elapsed_nanos })
}

/// Ranks `points` with the iterative bottom-up merge sort. The clock brackets
/// the sort alone.
pub fn bottom_up(points: Vec<RankedPoint>, pick_number: usize) -> (r: Result<Ranking, RankError>)
    ensures
        ranking_answers(r, points@, pick_number as int),
        r matches Ok(rk) ==> keeps_tie_order(rk.ordered@, points@),
        sorted_by_distance(points@) && r is Ok ==> r->Ok_0.ordered@ == points@,
        points@.len() <= 1 && r is Ok ==> r->Ok_0.ordered@ == points@,
{
    if pick_number > points.len() {
        return Err(RankError::OutOfRange);
    }
    let mut ordered = points;
    let start = Instant::now();
    merge_bottom(&mut ordered);
    let elapsed_nanos = start.elapsed().as_nanos();
    proof {
        assert(ordered@.to_multiset().len() == ordered@.len() && points@.to_multiset().len() == points@.len());
    }
    let nearest = nearest_ids(&ordered, pick_number);
    Ok(Ranking { ordered, nearest, elapsed_nanos })
}

/// Ranks `points` with the in-place recursive merge sort and its shared
/// scratch buffer, allocated before the clock starts. On equal distance the
/// right half wins, so points of equal distance come out in the reverse of
/// their input order, and only a strictly increasing input is sure to come
/// back as it was.
pub fn memory_efficient(points: Vec<RankedPoint>, pick_number: usize) -> (r: Result<Ranking, RankError>)
    ensures
        ranking_answers(r, points@, pick_number as int),
        r matches Ok(rk) ==> forall|d: u64| #[trigger] at_distance(rk.ordered@, d) == at_distance(points@, d).reverse(),
        strictly_sorted_range(points@, 0, points@.len() as int) && r is Ok ==> r->Ok_0.ordered@ == points@,
        sorted_by_distance(points@) && r is Ok ==> distances_of(r->Ok_0.ordered@) == distances_of(points@),
        points@.len() <= 1 && r is Ok ==> r->Ok_0.ordered@ == points@,
{
    if pick_number > points.len() {
        return Err(RankError::OutOfRange);
    }
    let mut ordered = points;
    let mut temp = allocate_vec_with_placeholders(ordered.len());
    let start = Instant::now();
    merge_sort(&mut ordered, &mut temp);
    let elapsed_nanos = start.elapsed().as_nanos();
    proof {
        assert(ordered@.to_multiset().len() == ordered@.len() && points@.to_multiset().len() == points@.len());
    }
    let nearest = nearest_ids(&ordered, pick_number);
    Ok(Ranking { ordered, nearest, elapsed_nanos })
}

} // verus!
