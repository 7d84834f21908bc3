use std::collections::VecDeque;

use sort_bench::ranking::{
    bottom_up, get_smallest, memory_efficient, merge, merge_bottom, merge_run, merge_sort, merge_span, merge_top,
    nearest_ids, split_queue_alloc, top_down, RankError, RankedPoint,
};

fn pts(v: &[(u64, u64)]) -> Vec<RankedPoint> {
    v.iter().map(|&(id, distance)| RankedPoint { id, distance }).collect()
}

fn ids(v: &[RankedPoint]) -> Vec<u64> {
    v.iter().map(|p| p.id).collect()
}

fn is_sorted(v: &[RankedPoint]) -> bool {
    v.windows(2).all(|w| w[0].distance <= w[1].distance)
}

fn same_points(a: &[RankedPoint], b: &[RankedPoint]) -> bool {
    let mut x: Vec<(u64, u64)> = a.iter().map(|p| (p.id, p.distance)).collect();
    let mut y: Vec<(u64, u64)> = b.iter().map(|p| (p.id, p.distance)).collect();
    x.sort();
    y.sort();
    x == y
}

fn sample() -> Vec<RankedPoint> {
    pts(&[(1, 50), (2, 10), (3, 40), (4, 10), (5, 30), (6, 0), (7, 70)])
}

#[test]
fn every_variant_sorts_and_keeps_the_points() {
    let input = sample();
    for r in [
        top_down(input.clone(), 3).unwrap(),
        bottom_up(input.clone(), 3).unwrap(),
        memory_efficient(input.clone(), 3).unwrap(),
    ] {
        assert!(is_sorted(&r.ordered));
        assert!(same_points(&r.ordered, &input));
        assert_eq!(r.nearest.len(), 3);
        assert_eq!(r.nearest[0], 6);
    }
}

#[test]
fn stable_variants_keep_equal_distances_in_order() {
    let input = sample();
    let expected = vec![6, 2, 4, 5, 3, 1, 7];
    assert_eq!(ids(&top_down(input.clone(), 7).unwrap().ordered), expected);
    assert_eq!(ids(&bottom_up(input.clone(), 7).unwrap().ordered), expected);
    assert_eq!(top_down(input.clone(), 3).unwrap().nearest, vec![6, 2, 4]);
    assert_eq!(bottom_up(input, 3).unwrap().nearest, vec![6, 2, 4]);
}

#[test]
fn in_place_variant_lets_the_right_half_win_ties() {
    let input = pts(&[(1, 5), (2, 5)]);
    let r = memory_efficient(input, 2).unwrap();
    assert_eq!(r.nearest, vec![2, 1]);
}

#[test]
fn sorted_input_comes_back_unchanged() {
    let input = pts(&[(1, 1), (2, 2), (3, 2), (4, 5), (5, 9)]);
    assert_eq!(top_down(input.clone(), 0).unwrap().ordered, input);
    assert_eq!(bottom_up(input.clone(), 0).unwrap().ordered, input);
    let strict = pts(&[(1, 1), (2, 2), (3, 3), (4, 5), (5, 9)]);
    assert_eq!(memory_efficient(strict.clone(), 0).unwrap().ordered, strict);
}

#[test]
fn empty_and_single_inputs_come_back_unchanged() {
    for input in [Vec::new(), pts(&[(9, 4)])] {
        assert_eq!(top_down(input.clone(), input.len()).unwrap().ordered, input);
        assert_eq!(bottom_up(input.clone(), input.len()).unwrap().ordered, input);
        assert_eq!(memory_efficient(input.clone(), input.len()).unwrap().ordered, input);
    }
}

#[test]
fn asking_for_more_than_there_is_fails() {
    let input = pts(&[(1, 3), (2, 1)]);
    assert_eq!(top_down(input.clone(), 3).err(), Some(RankError::OutOfRange));
    assert_eq!(bottom_up(input.clone(), 3).err(), Some(RankError::OutOfRange));
    assert_eq!(memory_efficient(input, 3).err(), Some(RankError::OutOfRange));
}

#[test]
fn reversed_input_is_sorted() {
    let input: Vec<RankedPoint> = (0..37u64).map(|i| RankedPoint { id: i, distance: 100 - i }).collect();
    let expected: Vec<u64> = (0..37u64).rev().collect();
    assert_eq!(ids(&top_down(input.clone(), 0).unwrap().ordered), expected);
    assert_eq!(ids(&bottom_up(input.clone(), 0).unwrap().ordered), expected);
    assert_eq!(ids(&memory_efficient(input, 0).unwrap().ordered), expected);
}

#[test]
fn get_smallest_prefers_the_left_queue_on_ties() {
    let mut a: VecDeque<RankedPoint> = pts(&[(1, 4), (2, 8)]).into_iter().collect();
    let mut b: VecDeque<RankedPoint> = pts(&[(3, 4)]).into_iter().collect();
    assert_eq!(get_smallest(&mut a, &mut b).id, 1);
    assert_eq!(get_smallest(&mut a, &mut b).id, 3);
    assert_eq!(get_smallest(&mut a, &mut b).id, 2);
    assert!(a.is_empty() && b.is_empty());
}

#[test]
fn split_puts_the_extra_point_on_the_right() {
    let q: VecDeque<RankedPoint> = pts(&[(1, 1), (2, 2), (3, 3)]).into_iter().collect();
    let (l, r) = split_queue_alloc(q);
    assert_eq!(l.iter().map(|p| p.id).collect::<Vec<_>>(), vec![1]);
    assert_eq!(r.iter().map(|p| p.id).collect::<Vec<_>>(), vec![2, 3]);
}

#[test]
fn merge_top_sorts_a_queue() {
    let q: VecDeque<RankedPoint> = sample().into_iter().collect();
    let r: Vec<RankedPoint> = merge_top(q).into_iter().collect();
    assert_eq!(ids(&r), vec![6, 2, 4, 5, 3, 1, 7]);
}

#[test]
fn merge_run_merges_one_run_and_leaves_the_rest() {
    let mut v = pts(&[(1, 3), (2, 9), (3, 1), (4, 7), (5, 0)]);
    let mut temp = pts(&[(0, 0); 5]);
    merge_run(&mut v, &mut temp, 0, 4);
    assert_eq!(ids(&v), vec![3, 1, 4, 2, 5]);
    let mut w = pts(&[(1, 2), (2, 6), (3, 1), (4, 5), (5, 0)]);
    merge_run(&mut w, &mut temp, 0, 4);
    assert_eq!(ids(&w), vec![3, 1, 4, 2, 5]);
    merge_run(&mut w, &mut temp, 4, 4);
    assert_eq!(ids(&w), vec![3, 1, 4, 2, 5]);
}

#[test]
fn merge_bottom_handles_a_dangling_run() {
    let mut v = pts(&[(1, 5), (2, 4), (3, 3), (4, 2), (5, 1), (6, 0)]);
    merge_bottom(&mut v);
    assert_eq!(ids(&v), vec![6, 5, 4, 3, 2, 1]);
}

#[test]
fn merge_takes_the_right_point_on_ties() {
    let mut v = pts(&[(1, 2), (2, 5), (3, 2), (4, 9)]);
    let mut temp = pts(&[(0, 0); 4]);
    merge(&mut v, &mut temp, 0, 2, 4);
    assert_eq!(ids(&v), vec![3, 1, 2, 4]);
}

#[test]
fn merge_sort_sorts_with_a_shared_buffer() {
    let mut v = sample();
    let mut temp = pts(&[(0, 0); 7]);
    merge_sort(&mut v, &mut temp);
    assert!(is_sorted(&v));
    assert!(same_points(&v, &sample()));
    assert_eq!(temp.len(), 7);
}

#[test]
fn nearest_ids_takes_the_first_ones() {
    let v = pts(&[(4, 1), (8, 2), (2, 3)]);
    assert_eq!(nearest_ids(&v, 2), vec![4, 8]);
    assert_eq!(nearest_ids(&v, 0), Vec::<u64>::new());
}

#[test]
fn stable_variants_agree() {
    let input: Vec<RankedPoint> = (0..53u64).map(|i| RankedPoint { id: i, distance: (i * 7919) % 13 }).collect();
    let a = top_down(input.clone(), 10).unwrap();
    let b = bottom_up(input.clone(), 10).unwrap();
    assert_eq!(a.ordered, b.ordered);
    assert_eq!(a.nearest, b.nearest);
    let c = memory_efficient(input, 10).unwrap();
    assert!(is_sorted(&c.ordered));
}

#[test]
fn in_place_variant_reverses_equal_distances() {
    let input = pts(&[(1, 5), (2, 5), (3, 5)]);
    assert_eq!(memory_efficient(input, 3).unwrap().nearest, vec![3, 2, 1]);
    let mixed = pts(&[(1, 5), (2, 1), (3, 5), (4, 5)]);
    assert_eq!(ids(&memory_efficient(mixed, 0).unwrap().ordered), vec![2, 4, 3, 1]);
}

#[test]
fn merge_sort_leaves_the_buffer_of_a_short_input() {
    let mut v = pts(&[(4, 2)]);
    let mut temp = pts(&[(8, 9), (7, 6)]);
    merge_sort(&mut v, &mut temp);
    assert_eq!(v, pts(&[(4, 2)]));
    assert_eq!(temp, pts(&[(8, 9), (7, 6)]));
}

#[test]
fn merge_span_merges_the_given_neighbours() {
    let mut v = pts(&[(1, 9), (2, 4), (3, 6), (4, 4), (5, 5), (6, 0)]);
    let mut temp = pts(&[(0, 0); 6]);
    merge_span(&mut v, &mut temp, 1, 3, 5);
    assert_eq!(ids(&v), vec![1, 2, 4, 5, 3, 6]);
}

#[test]
fn in_place_variant_keeps_the_distances_of_sorted_input() {
    let input = pts(&[(1, 2), (2, 2), (3, 3), (4, 3), (5, 3)]);
    let r = memory_efficient(input.clone(), 0).unwrap();
    let d: Vec<u64> = r.ordered.iter().map(|p| p.distance).collect();
    assert_eq!(d, vec![2, 2, 3, 3, 3]);
    assert_eq!(ids(&r.ordered), vec![2, 1, 5, 4, 3]);
}
