use kdtree::KDTree;
use rand::Rng;

fn random_points(length: usize) -> Vec<Vec<i32>> {
    let mut rng = rand::thread_rng();
    (0..length)
        .map(|_| {
            vec![
                rng.gen_range(0..1_000_000),
                rng.gen_range(0..1_000_000),
                rng.gen_range(0..1_000_000),
            ]
        })
        .collect()
}

fn calculate_distance(p1: &[i32], p2: &[i32]) -> i64 {
    let mut dist: i64 = 0;
    for (i, p) in p1.iter().enumerate() {
        let d = *p as i64 - p2[i] as i64;
        dist += d * d;
    }
    dist
}

fn brute_force_search(points: &[Vec<i32>], query_point: &[i32], k: usize) -> Vec<Vec<i32>> {
    let mut elements: Vec<(i64, Vec<i32>)> = points
        .iter()
        .map(|p| (calculate_distance(p, query_point), p.clone()))
        .collect();
    elements.sort_by(|a, b| a.0.cmp(&b.0));

    elements.into_iter().take(k).map(|e| e.1).collect()
}

fn basic() -> bool {
    let points = random_points(1000);
    let query_point = &random_points(1)[0];
    let k = 10;
    let ans = brute_force_search(&points, query_point, k);

    let tree = KDTree::new(&points).unwrap();
    tree.search_knn(query_point, k).unwrap() == ans
}

fn with_addition() -> bool {
    let mut points = random_points(500);
    let query_point = &random_points(1)[0];
    let addition_points = random_points(200);
    let k = 10;

    // kdtree addition
    let mut tree = KDTree::new(&points).unwrap();
    for p in addition_points.iter() {
        tree.add(p).unwrap();
    }

    points.extend_from_slice(&addition_points);
    let ans = brute_force_search(&points, query_point, k);

    tree.search_knn(query_point, k).unwrap() == ans
}

#[test]
fn iter_kdtree_works() {
    for _ in 0..50 {
        assert!(basic());
        assert!(with_addition());
    }
}
