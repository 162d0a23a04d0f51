use kdtree::Error;
use kdtree::KDTree;

#[test]
fn kdtree_basic() {
    let points = [vec![1], vec![2], vec![2], vec![3]];
    let tree = KDTree::new(&points).unwrap();

    let left = KDTree {
        data: vec![1],
        cut_axis: 0,
        left: None,
        right: None,
    };
    let right = KDTree {
        data: vec![3],
        cut_axis: 0,
        left: Some(Box::new(KDTree {
            data: vec![2],
            cut_axis: 0,
            left: None,
            right: None,
        })),
        right: None,
    };

    let ans = KDTree {
        data: vec![2],
        cut_axis: 0,
        left: Some(Box::new(left)),
        right: Some(Box::new(right)),
    };

    assert_eq!(tree, ans);

    // add
    let points = [vec![2], vec![2], vec![3]];
    let mut tree = KDTree::new(&points).unwrap();
    tree.add(&vec![1]).unwrap();

    assert_eq!(tree, ans);

    // search
    let query_point = vec![4];
    let res = tree.search_knn(&query_point, 2).unwrap();
    let ans = vec![vec![3], vec![2]];
    assert_eq!(res, ans);
}

#[test]
fn search() {
    // three-dimensional points in fixed-point form: unit coordinates scaled
    // by ten million
    let points = [
        vec![3501037, 6240131, 5635964],
        vec![2794244, 8336378, 8208322],
        vec![1919795, 493708, 4615170],
        vec![1565113, 5717637, 3162155],
        vec![6452119, 5295486, 7703832],
    ];
    let query_point = vec![2311374, 2962593, 311251];
    let k = 2;

    let ans = vec![
        vec![1565113, 5717637, 3162155],
        vec![1919795, 493708, 4615170],
    ];

    let tree = KDTree::new(&points).unwrap();
    let res = tree.search_knn(&query_point, k).unwrap();
    assert_eq!(res, ans);
}

#[test]
fn empty_input_is_rejected() {
    let points: [Vec<i32>; 0] = [];
    assert!(matches!(KDTree::new(&points), Err(Error::EmptyInput)));
}

#[test]
fn zero_k_is_rejected() {
    let points = [vec![1], vec![2]];
    let tree = KDTree::new(&points).unwrap();
    assert!(matches!(tree.search_knn(&vec![0], 0), Err(Error::InvalidK)));
}

#[test]
fn too_large_k_is_rejected() {
    let points = [vec![1], vec![2]];
    let tree = KDTree::new(&points).unwrap();
    assert!(matches!(
        tree.search_knn(&vec![0], 3),
        Err(Error::InsufficientPoints)
    ));
    // the same k succeeds once enough points are stored
    let mut tree = tree;
    tree.add(&vec![5]).unwrap();
    let res = tree.search_knn(&vec![0], 3).unwrap();
    assert_eq!(res, vec![vec![1], vec![2], vec![5]]);
}

#[test]
fn mismatched_dimensions_are_rejected() {
    let points = [vec![1, 2], vec![3, 4]];
    let mut tree = KDTree::new(&points).unwrap();
    assert!(matches!(tree.add(&vec![5]), Err(Error::DimensionMismatch)));
    assert!(matches!(
        tree.search_knn(&vec![0, 0, 0], 1),
        Err(Error::DimensionMismatch)
    ));
    // the tree still answers well-formed queries afterwards
    let res = tree.search_knn(&vec![0, 0], 1).unwrap();
    assert_eq!(res, vec![vec![1, 2]]);
}

#[test]
fn axes_cycle_with_depth() {
    let points = [vec![5, 1], vec![3, 9], vec![8, 2]];
    let tree = KDTree::new(&points).unwrap();
    assert_eq!(tree.cut_axis, 0);
    if let Some(l) = &tree.left {
        assert_eq!(l.cut_axis, 1);
    }
    if let Some(r) = &tree.right {
        assert_eq!(r.cut_axis, 1);
    }
}

#[test]
fn single_point_tree() {
    let points = [vec![7, 7]];
    let tree = KDTree::new(&points).unwrap();
    let res = tree.search_knn(&vec![0, 0], 1).unwrap();
    assert_eq!(res, vec![vec![7, 7]]);
}

#[test]
fn nearest_first_ordering() {
    let points = [vec![10], vec![1], vec![6], vec![3]];
    let tree = KDTree::new(&points).unwrap();
    let res = tree.search_knn(&vec![0], 4).unwrap();
    assert_eq!(res, vec![vec![1], vec![3], vec![6], vec![10]]);
}

// collect every point stored in the tree, in traversal order
fn collect_points(t: &KDTree, out: &mut Vec<Vec<i32>>) {
    out.push(t.data.clone());
    if let Some(l) = &t.left {
        collect_points(l, out);
    }
    if let Some(r) = &t.right {
        collect_points(r, out);
    }
}

// check the partition property and the axis cycle at every node
fn check_node(t: &KDTree, dim: usize) {
    assert!(t.data.len() == dim);
    assert!(t.cut_axis < dim);
    if let Some(l) = &t.left {
        assert_eq!(l.cut_axis, (t.cut_axis + 1) % dim);
        let mut pts = Vec::new();
        collect_points(l, &mut pts);
        for p in &pts {
            assert!(p[t.cut_axis] < t.data[t.cut_axis]);
        }
        check_node(l, dim);
    }
    if let Some(r) = &t.right {
        assert_eq!(r.cut_axis, (t.cut_axis + 1) % dim);
        let mut pts = Vec::new();
        collect_points(r, &mut pts);
        for p in &pts {
            assert!(p[t.cut_axis] >= t.data[t.cut_axis]);
        }
        check_node(r, dim);
    }
}

#[test]
fn invariants_and_completeness() {
    let points = [
        vec![4, 1],
        vec![2, 9],
        vec![7, 3],
        vec![2, 9],
        vec![5, 5],
        vec![1, 8],
        vec![9, 2],
    ];
    let mut tree = KDTree::new(&points).unwrap();
    check_node(&tree, 2);

    // no point lost or duplicated by construction
    let mut stored = Vec::new();
    collect_points(&tree, &mut stored);
    let mut expected: Vec<Vec<i32>> = points.to_vec();
    stored.sort();
    expected.sort();
    assert_eq!(stored, expected);

    // insertion preserves the invariants and adds exactly the new point
    tree.add(&vec![3, 3]).unwrap();
    tree.add(&vec![9, 9]).unwrap();
    check_node(&tree, 2);
    let mut stored = Vec::new();
    collect_points(&tree, &mut stored);
    let mut expected: Vec<Vec<i32>> = points.to_vec();
    expected.push(vec![3, 3]);
    expected.push(vec![9, 9]);
    stored.sort();
    expected.sort();
    assert_eq!(stored, expected);
}
