use kdtree::Error;
use kdtree::utils::kth_smallest;
use rand::Rng;

// check if element with index < @idx is less than @data[idx]
//      and element with index > @idx is greater or equal than @data[idx]
fn check(data: &[Vec<i32>], idx: usize, cut_axis: usize) {
    for i in 0..idx {
        assert!(data[i][cut_axis] < data[idx][cut_axis]);
    }
    for i in idx..data.len() {
        assert!(data[i][cut_axis] >= data[idx][cut_axis]);
    }
}

#[test]
fn utils_basic() {
    let mut a = vec![
        vec![10],
        vec![8],
        vec![4],
        vec![3],
        vec![1],
        vec![9],
        vec![2],
        vec![7],
        vec![5],
        vec![6],
    ];

    let cut_axis = 0;
    let idx = kth_smallest(&mut a, 3, cut_axis).unwrap();
    assert_eq!(a[idx][cut_axis], 3);
    check(&a, idx, cut_axis);
}

#[test]
fn duplicate_elemnts() {
    let mut a = vec![vec![2], vec![2], vec![2]];

    let cut_axis = 0;
    let idx = kth_smallest(&mut a, 3, cut_axis).unwrap();
    assert_eq!(idx, 0);
    check(&a, idx, cut_axis);
}

#[test]
fn single_element() {
    let mut a = vec![vec![2]];

    let cut_axis = 0;
    let idx = kth_smallest(&mut a, 1, cut_axis).unwrap();
    assert_eq!(a[idx][cut_axis], 2);
    check(&a, idx, cut_axis);
}

#[test]
fn presorted() {
    let mut a = vec![vec![1], vec![2], vec![3], vec![8]];

    let cut_axis = 0;
    let idx = kth_smallest(&mut a, 4, cut_axis).unwrap();
    assert_eq!(a[idx][cut_axis], 8);
    check(&a, idx, cut_axis);
}

#[test]
fn error() {
    // list size is less than k
    let mut a: Vec<Vec<i32>> = vec![];
    assert!(kth_smallest(&mut a, 3, 1).is_err());

    let mut a = vec![vec![1]];
    assert!(kth_smallest(&mut a, 10, 1).is_err());

    // k = 0
    assert!(kth_smallest(&mut a, 10, 0).is_err());
}

#[test]
fn rank_zero_is_invalid() {
    let mut a = vec![vec![1], vec![2]];
    assert!(matches!(kth_smallest(&mut a, 0, 0), Err(Error::InvalidRank)));
    assert!(matches!(kth_smallest(&mut a, 3, 0), Err(Error::InvalidRank)));
    // a failed call leaves the data as it was
    assert_eq!(a, vec![vec![1], vec![2]]);
}

#[test]
fn duplicates_collapse_to_leftmost() {
    // the returned index is the leftmost position of the selected value
    let mut a = vec![vec![5], vec![2], vec![5], vec![1], vec![5]];
    let idx = kth_smallest(&mut a, 5, 0).unwrap();
    assert_eq!(a[idx][0], 5);
    assert_eq!(idx, 2);
    check(&a, idx, 0);
}

#[test]
fn random_generate_list() {
    let mut rng = rand::thread_rng();

    let size: usize = 100;
    let test_iter: usize = 10;

    for _ in 0..test_iter {
        let mut random_data: Vec<Vec<i32>> = (0..size)
            .map(|_| vec![rng.gen_range(-1_000_000..1_000_000)])
            .collect();
        let k = rng.gen_range(1..size + 1);

        // kth_smallest result
        let cut_axis = 0;
        let res_idx = kth_smallest(&mut random_data, k, cut_axis).unwrap();
        check(&random_data, res_idx, cut_axis);

        // sort results
        random_data.sort_by(|a, b| a.partial_cmp(b).unwrap());
        assert_eq!(random_data[res_idx], random_data[k - 1]);
    }
}
