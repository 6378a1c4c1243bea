use flatten_adapter::iterators::Flatten;

#[test]
fn iterate_over_empty() {
    let outer: Vec<Vec<()>> = Vec::new();
    assert_eq!(Flatten::new(outer).count(), 0);
}

#[test]
fn iterate_over_single_inner_element() {
    assert_eq!(Flatten::new(vec![vec![1]]).count(), 1);
}

#[test]
fn iterate_over_two_outer_elements() {
    assert_eq!(Flatten::new(vec![vec![1], vec![2]]).count(), 2);
}

#[test]
fn iterate_over_two_inner_elements() {
    assert_eq!(Flatten::new(vec![vec![1, 2]]).count(), 2);
}

#[test]
fn iterate_over_two_inner_elements_from_back() {
    assert_eq!(Flatten::new(vec![vec![1, 2]]).collect_backward(), vec![2, 1]);
}

#[test]
fn iterate_over_two_outer_elements_from_back() {
    assert_eq!(Flatten::new(vec![vec![1], vec![2]]).collect_backward(), vec![2, 1]);
}

#[test]
fn handles_middle_element_edge_case() {
    let mut v = Flatten::new(vec![vec![1, 2, 3], vec![4, 5, 6]]);

    assert_eq!(v.next(), Some(1));
    assert_eq!(v.next_back(), Some(6));
}

#[test]
fn forward_yields_concatenation() {
    assert_eq!(Flatten::new(vec![vec![1], vec![2]]).collect_forward(), vec![1, 2]);
    assert_eq!(Flatten::new(vec![vec![1, 2]]).collect_forward(), vec![1, 2]);
}

#[test]
fn single_element_comes_out_unchanged() {
    assert_eq!(Flatten::new(vec![vec![7]]).collect_forward(), vec![7]);
}

#[test]
fn skips_empty_inner_sequences() {
    let outer: Vec<Vec<i32>> = vec![vec![], vec![1], vec![], vec![2]];
    assert_eq!(Flatten::new(outer).collect_forward(), vec![1, 2]);
}

#[test]
fn exhaustion_is_idempotent() {
    let mut v = Flatten::new(vec![vec![1], vec![2]]);
    assert_eq!(v.next(), Some(1));
    assert_eq!(v.next(), Some(2));
    assert_eq!(v.next(), None);
    assert_eq!(v.next(), None);
    assert_eq!(v.next_back(), None);
    assert_eq!(v.next(), None);
}

#[test]
fn mixed_end_draws_partition_the_elements() {
    let mut v = Flatten::new(vec![vec![1, 2, 3], vec![4, 5, 6]]);

    let mut front = Vec::new();
    let mut back = Vec::new();
    front.push(v.next().unwrap());
    back.push(v.next_back().unwrap());
    assert_eq!(front, vec![1]);
    assert_eq!(back, vec![6]);

    while let Some(x) = v.next() {
        front.push(x);
    }
    assert_eq!(v.next_back(), None);

    back.reverse();
    front.extend(back);
    assert_eq!(front, vec![1, 2, 3, 4, 5, 6]);
}

#[test]
fn interleaved_draws_meet_in_one_inner_sequence() {
    let mut v = Flatten::new(vec![vec![1, 2], vec![3, 4]]);
    assert_eq!(v.next_back(), Some(4));
    assert_eq!(v.next(), Some(1));
    assert_eq!(v.next_back(), Some(3));
    assert_eq!(v.next_back(), Some(2));
    assert_eq!(v.next_back(), None);
    assert_eq!(v.next(), None);
}
