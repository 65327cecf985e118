use stress_test::{aggregate, fan_out, matches_expected, Device, Request, Sample};

#[test]
fn aggregate_sorts_by_index() {
    let arrived: Vec<Sample> =
        vec![(3, vec![4]), (1, vec![4]), (4, vec![4]), (2, vec![4]), (5, vec![4])];
    let expected: Vec<Sample> =
        vec![(1, vec![4]), (2, vec![4]), (3, vec![4]), (4, vec![4]), (5, vec![4])];
    assert_eq!(aggregate(arrived), expected);
}

#[test]
fn aggregate_reverses_a_descending_arrival() {
    let arrived: Vec<Sample> = (1..=200usize).rev().map(|i| (i, vec![201i64])).collect();
    let expected: Vec<Sample> = (1..=200usize).map(|i| (i, vec![201i64])).collect();
    assert_eq!(aggregate(arrived), expected);
}

#[test]
fn aggregate_leaves_an_ascending_arrival() {
    let arrived: Vec<Sample> = (1..=50usize).map(|i| (i, vec![51i64])).collect();
    assert_eq!(aggregate(arrived.clone()), arrived);
}

#[test]
fn aggregate_of_nothing_is_nothing() {
    assert_eq!(aggregate(Vec::new()), Vec::<Sample>::new());
    assert_eq!(aggregate(vec![(9, vec![1, 2])]), vec![(9usize, vec![1i64, 2])]);
}

#[test]
fn aggregate_keeps_equal_indices_in_arrival_order() {
    let arrived: Vec<Sample> =
        vec![(2, vec![10]), (1, vec![20]), (2, vec![30]), (1, vec![40]), (2, vec![50])];
    let expected: Vec<Sample> =
        vec![(1, vec![20]), (1, vec![40]), (2, vec![10]), (2, vec![30]), (2, vec![50])];
    assert_eq!(aggregate(arrived), expected);
}

#[test]
fn aggregate_agrees_with_a_stable_sort() {
    let mut arrived: Vec<Sample> = Vec::new();
    let mut state: usize = 12345;
    for n in 0..300usize {
        state = (state * 1103515245 + 12345) % 2147483648;
        arrived.push((state % 40, vec![n as i64]));
    }
    let mut expected = arrived.clone();
    expected.sort_by_key(|sample| sample.0);
    assert_eq!(aggregate(arrived), expected);
}

#[test]
fn fan_out_lists_every_index_once() {
    assert_eq!(
        fan_out(4, Device::Cpu),
        vec![
            Request { index: 1, len: 4, device: Device::Cpu },
            Request { index: 2, len: 4, device: Device::Cpu },
            Request { index: 3, len: 4, device: Device::Cpu },
        ]
    );
    assert_eq!(
        fan_out(2, Device::Cuda(1)),
        vec![Request { index: 1, len: 2, device: Device::Cuda(1) }]
    );
    assert!(fan_out(1, Device::Cpu).is_empty());
    assert!(fan_out(0, Device::Cuda(0)).is_empty());
    assert_eq!(fan_out(1000, Device::Cpu).len(), 999);
}

#[test]
fn matches_expected_accepts_the_undisturbed_run() {
    let results: Vec<Sample> = (1..1000usize).map(|i| (i, vec![1000i64])).collect();
    assert!(matches_expected(1000, &results));
    assert!(matches_expected(0, &Vec::new()));
    assert!(matches_expected(1, &Vec::new()));
    assert!(matches_expected(2, &vec![(1usize, vec![2i64])]));
}

#[test]
fn matches_expected_rejects_anything_else() {
    let good: Vec<Sample> = (1..10usize).map(|i| (i, vec![10i64])).collect();
    assert!(matches_expected(10, &good));

    let mut short = good.clone();
    short.pop();
    assert!(!matches_expected(10, &short));

    let mut long = good.clone();
    long.push((10, vec![10]));
    assert!(!matches_expected(10, &long));

    let mut swapped = good.clone();
    swapped.swap(2, 3);
    assert!(!matches_expected(10, &swapped));

    let mut wrong_dim = good.clone();
    wrong_dim[4].1 = vec![11];
    assert!(!matches_expected(10, &wrong_dim));

    let mut wrong_rank = good.clone();
    wrong_rank[8].1 = vec![10, 1];
    assert!(!matches_expected(10, &wrong_rank));

    let mut no_dims = good.clone();
    no_dims[0].1 = Vec::new();
    assert!(!matches_expected(10, &no_dims));

    assert!(!matches_expected(2, &Vec::new()));
    assert!(!matches_expected(0, &vec![(1usize, vec![0i64])]));
    assert!(!matches_expected(11, &good));
}

#[test]
fn matches_expected_rejects_a_length_beyond_any_dimension() {
    assert!(!matches_expected(usize::MAX, &Vec::new()));
}
