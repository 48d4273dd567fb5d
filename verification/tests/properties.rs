use kdtree::distance::coordinate_gap_squared;
use kdtree::{KDTree, KdError, NodeRecord};

/// A small deterministic generator, so that every run sees the same batches.
struct Lcg(u64);

impl Lcg {
    fn next(&mut self) -> u64 {
        self.0 = self
            .0
            .wrapping_mul(6364136223846793005)
            .wrapping_add(1442695040888963407);
        self.0 >> 33
    }

    fn coordinate(&mut self, spread: i32) -> i32 {
        (self.next() % (2 * spread as u64 + 1)) as i32 - spread
    }

    fn batch(&mut self, n: usize, k: usize, spread: i32) -> (Vec<Vec<i32>>, Vec<String>) {
        let data = (0..n)
            .map(|_| (0..k).map(|_| self.coordinate(spread)).collect())
            .collect();
        let ids = (0..n).map(|i| format!("p{}", i)).collect();
        (data, ids)
    }
}

fn height(t: Option<&KDTree>) -> usize {
    match t {
        None => 0,
        Some(n) => 1 + height(n.left()).max(height(n.right())),
    }
}

fn size(t: Option<&KDTree>) -> usize {
    match t {
        None => 0,
        Some(n) => 1 + size(n.left()) + size(n.right()),
    }
}

fn collect(t: Option<&KDTree>, out: &mut Vec<(String, Vec<i32>)>) {
    if let Some(n) = t {
        out.push((n.id().clone(), n.point().clone()));
        collect(n.left(), out);
        collect(n.right(), out);
    }
}

fn axes_cycle(t: Option<&KDTree>, depth: usize, k: usize) -> bool {
    match t {
        None => true,
        Some(n) => {
            n.axis() == depth % k
                && axes_cycle(n.left(), depth + 1, k)
                && axes_cycle(n.right(), depth + 1, k)
        }
    }
}

fn partitioned(t: Option<&KDTree>) -> bool {
    match t {
        None => true,
        Some(n) => {
            let a = n.axis();
            let split = n.point()[a];
            let mut below = Vec::new();
            collect(n.left(), &mut below);
            let mut above = Vec::new();
            collect(n.right(), &mut above);
            below.iter().all(|(_, p)| p[a] <= split)
                && above.iter().all(|(_, p)| p[a] >= split)
                && partitioned(n.left())
                && partitioned(n.right())
        }
    }
}

fn bit_length(n: usize) -> usize {
    (usize::BITS - n.leading_zeros()) as usize
}

fn brute_force(data: &[Vec<i32>], q: &[i32]) -> u128 {
    data.iter()
        .map(|p| KDTree::distance_squared(p, q).unwrap())
        .min()
        .unwrap()
}

#[test]
fn built_tree_has_minimal_height() {
    let mut rng = Lcg(1);
    for n in 1..=130usize {
        let (data, ids) = rng.batch(n, 3, 50);
        let tree = KDTree::new(&data, &ids, 0).unwrap().unwrap();
        assert_eq!(size(Some(&*tree)), n);
        assert_eq!(height(Some(&*tree)), bit_length(n), "n = {}", n);
        if n >= 3 {
            assert!(height(Some(&*tree)) < n);
        }
    }
}

#[test]
fn height_for_known_sizes() {
    let mut rng = Lcg(2);
    for (n, h) in [(1usize, 1usize), (2, 2), (3, 2), (4, 3), (7, 3), (8, 4), (1000, 10)] {
        let (data, ids) = rng.batch(n, 2, 1000);
        let tree = KDTree::new(&data, &ids, 0).unwrap().unwrap();
        assert_eq!(height(Some(&*tree)), h);
    }
}

#[test]
fn built_tree_splits_at_the_upper_median() {
    let mut rng = Lcg(3);
    let (data, ids) = rng.batch(64, 2, 1000);
    let tree = KDTree::new(&data, &ids, 0).unwrap().unwrap();
    fn check(t: Option<&KDTree>) {
        if let Some(n) = t {
            let total = size(Some(n));
            assert_eq!(size(n.left()), total / 2);
            assert_eq!(size(n.right()), total - 1 - total / 2);
            check(n.left());
            check(n.right());
        }
    }
    check(Some(&*tree));
}

#[test]
fn built_tree_holds_exactly_the_batch() {
    let mut rng = Lcg(4);
    let (data, ids) = rng.batch(200, 4, 5);
    let tree = KDTree::new(&data, &ids, 0).unwrap().unwrap();
    let mut held = Vec::new();
    collect(Some(&*tree), &mut held);
    let mut given: Vec<(String, Vec<i32>)> =
        ids.iter().cloned().zip(data.iter().cloned()).collect();
    held.sort();
    given.sort();
    assert_eq!(held, given);
}

#[test]
fn identifiers_follow_their_points() {
    let data = vec![vec![9, 0], vec![1, 0], vec![5, 0]];
    let ids = vec!["nine".to_string(), "one".to_string(), "five".to_string()];
    let tree = KDTree::new(&data, &ids, 0).unwrap().unwrap();
    assert_eq!(tree.id(), "five");
    assert_eq!(*tree.point(), vec![5, 0]);
    assert_eq!(tree.left().unwrap().id(), "one");
    assert_eq!(tree.right().unwrap().id(), "nine");
}

#[test]
fn built_tree_is_partitioned_and_axes_cycle() {
    let mut rng = Lcg(5);
    for k in 1..=4usize {
        let (data, ids) = rng.batch(100, k, 8);
        for depth in [0usize, 1, 5, usize::MAX] {
            let tree = KDTree::new(&data, &ids, depth).unwrap().unwrap();
            assert!(partitioned(Some(&*tree)));
            assert!(axes_cycle(Some(&*tree), depth % k, k));
            assert_eq!(tree.axis(), depth % k);
        }
    }
}

#[test]
fn search_agrees_with_a_linear_scan() {
    let mut rng = Lcg(6);
    for round in 0..40 {
        let k = 1 + round % 4;
        let n = 1 + (rng.next() % 120) as usize;
        let (data, ids) = rng.batch(n, k, 30);
        let tree = KDTree::new(&data, &ids, 0).unwrap().unwrap();
        for _ in 0..50 {
            let q: Vec<i32> = (0..k).map(|_| rng.coordinate(40)).collect();
            let (id, p, d) = tree.nn_search(&q).unwrap();
            assert_eq!(d, brute_force(&data, &q));
            assert_eq!(d, KDTree::distance_squared(p, &q).unwrap());
            let at = ids.iter().position(|i| i == id).unwrap();
            assert_eq!(&data[at], p);
            let (id2, p2) = tree.nearest_neighbor(&q).unwrap();
            assert_eq!(KDTree::distance_squared(&p2, &q).unwrap(), d);
            assert_eq!(&id2, id);
            assert_eq!(&p2, p);
        }
    }
}

#[test]
fn search_stays_exact_after_insertions() {
    let mut rng = Lcg(7);
    let (mut data, ids) = rng.batch(20, 3, 25);
    let mut tree = KDTree::new(&data, &ids, 0).unwrap().unwrap();
    for i in 0..200 {
        let p: Vec<i32> = (0..3).map(|_| rng.coordinate(25)).collect();
        tree.add(&format!("n{}", i), &p).unwrap();
        data.push(p);
        assert!(partitioned(Some(&*tree)));
        assert!(axes_cycle(Some(&*tree), 0, 3));
        assert_eq!(size(Some(&*tree)), data.len());
        let q: Vec<i32> = (0..3).map(|_| rng.coordinate(30)).collect();
        let (_, _, d) = tree.nn_search(&q).unwrap();
        assert_eq!(d, brute_force(&data, &q));
    }
}

#[test]
fn search_is_exact_in_a_degenerate_chain() {
    let mut tree = KDTree::new(&[vec![0, 0]], &["0".to_string()], 0)
        .unwrap()
        .unwrap();
    let mut data = vec![vec![0, 0]];
    for i in 1..300 {
        tree.add(&i.to_string(), &[i, i]).unwrap();
        data.push(vec![i, i]);
    }
    assert_eq!(height(Some(&*tree)), 300);
    for q in [[-5, 3], [150, 149], [299, 0], [1000, 1000], [7, 7]] {
        let (_, _, d) = tree.nn_search(&q).unwrap();
        assert_eq!(d, brute_force(&data, &q));
    }
}

#[test]
fn inserted_point_is_found_again() {
    let mut rng = Lcg(8);
    let (data, ids) = rng.batch(60, 2, 100);
    let mut tree = KDTree::new(&data, &ids, 0).unwrap().unwrap();
    let mut seen = data.clone();
    for i in 0..100 {
        let p: Vec<i32> = (0..2).map(|_| rng.coordinate(100)).collect();
        if seen.contains(&p) {
            continue;
        }
        let id = format!("new{}", i);
        tree.add(&id, &p).unwrap();
        seen.push(p.clone());
        let (found_id, found_point, d) = tree.nn_search(&p).unwrap();
        assert_eq!(found_id, &id);
        assert_eq!(found_point, &p);
        assert_eq!(d, 0);
    }
}

#[test]
fn insertion_descends_right_on_equal_coordinates() {
    let mut tree = KDTree::new(&[vec![5, 5]], &["root".to_string()], 0)
        .unwrap()
        .unwrap();
    tree.add("same", &[5, 0]).unwrap();
    tree.add("less", &[4, 9]).unwrap();
    assert!(tree.left().unwrap().id() == "less");
    assert!(tree.right().unwrap().id() == "same");
    assert_eq!(tree.left().unwrap().axis(), 1);
    assert_eq!(tree.right().unwrap().axis(), 1);
    tree.add("deeper", &[9, 0]).unwrap();
    let deeper = tree.right().unwrap().right().unwrap();
    assert_eq!(deeper.id(), "deeper");
    assert_eq!(deeper.axis(), 0);
    tree.add("below", &[9, -1]).unwrap();
    let below = tree.right().unwrap().left().unwrap();
    assert_eq!(below.id(), "below");
    assert_eq!(below.axis(), 0);
}

#[test]
fn insertion_moves_no_existing_node() {
    let mut rng = Lcg(9);
    let (data, ids) = rng.batch(31, 2, 100);
    let mut tree = KDTree::new(&data, &ids, 0).unwrap().unwrap();
    let before = tree.to_record();
    tree.add("extra", &[3, 4]).unwrap();
    fn same_but_for_one_leaf(old: Option<&NodeRecord>, new: Option<&NodeRecord>) -> usize {
        match (old, new) {
            (None, None) => 0,
            (None, Some(n)) => {
                assert_eq!(n.id, "extra");
                assert!(n.left.is_none() && n.right.is_none());
                1
            }
            (Some(o), Some(n)) => {
                assert_eq!((&o.id, &o.point, o.axis), (&n.id, &n.point, n.axis));
                same_but_for_one_leaf(o.left.as_deref(), n.left.as_deref())
                    + same_but_for_one_leaf(o.right.as_deref(), n.right.as_deref())
            }
            (Some(_), None) => panic!("a node went missing"),
        }
    }
    let after = tree.to_record();
    assert_eq!(same_but_for_one_leaf(Some(&before), Some(&after)), 1);
}

#[test]
fn of_equally_near_points_the_first_met_is_returned() {
    // Root [2,0]; below it on the left [0,2] with [0,0] as its left child, on
    // the right [2,2]. All four are at squared distance 2 from [1,1]. The
    // search descends to [0,0] first, and nothing met later is strictly closer.
    let data = vec![vec![0, 0], vec![2, 0], vec![0, 2], vec![2, 2]];
    let ids: Vec<String> = (0..4).map(|i| i.to_string()).collect();
    let tree = KDTree::new(&data, &ids, 0).unwrap().unwrap();
    assert_eq!(*tree.point(), vec![2, 0]);
    assert_eq!(*tree.left().unwrap().point(), vec![0, 2]);
    let (id, p, d) = tree.nn_search(&[1, 1]).unwrap();
    assert_eq!((id.as_str(), p, d), ("0", &vec![0, 0], 2));
    assert_eq!(
        tree.nearest_neighbor(&[1, 1]).unwrap(),
        ("0".to_string(), vec![0, 0])
    );
}

#[test]
fn a_node_does_not_replace_an_equally_near_point_below_it() {
    // [5,5] and, to its right, [6,6] are both at squared distance 50 from
    // [55,55] in tenths; the search comes back from [6,6] and keeps it.
    let mut tree = KDTree::new(&[vec![50, 50]], &["e".to_string()], 0)
        .unwrap()
        .unwrap();
    tree.add("f", &[60, 60]).unwrap();
    let (id, p, d) = tree.nn_search(&[55, 55]).unwrap();
    assert_eq!((id.as_str(), p, d), ("f", &vec![60, 60], 50));
    // From the other side the node is the far one and is not strictly closer.
    tree.add("d", &[40, 40]).unwrap();
    let (id, _, d) = tree.nn_search(&[45, 45]).unwrap();
    assert_eq!((id.as_str(), d), ("d", 50));
}

#[test]
fn the_far_side_does_not_replace_an_equally_near_point() {
    // Root [0,0] splits on x; [-1,0] lies left, [1,0] right. From [0,9] the
    // right side is the near one and answers [1,0] at 82; the root at 81 is
    // strictly closer and replaces it; [-1,0] on the far side is at 82 and
    // does not.
    let data = vec![vec![-1, 0], vec![0, 0], vec![1, 0]];
    let ids = vec!["l".to_string(), "m".to_string(), "r".to_string()];
    let tree = KDTree::new(&data, &ids, 0).unwrap().unwrap();
    assert_eq!(tree.id(), "m");
    let (id, _, d) = tree.nn_search(&[0, 9]).unwrap();
    assert_eq!((id.as_str(), d), ("m", 81));
    // From [0,0] itself the root is at distance zero and is returned.
    let (id, _, d) = tree.nn_search(&[0, 0]).unwrap();
    assert_eq!((id.as_str(), d), ("m", 0));
    // With [-1,5] left and [1,5] right of a distant root, both are at
    // distance 1 from [0,5]. The right side is the near one and answers
    // first; the left, equally near, does not replace its answer.
    let data = vec![vec![-1, 5], vec![0, -100], vec![1, 5]];
    let tree = KDTree::new(&data, &ids, 0).unwrap().unwrap();
    assert_eq!(tree.id(), "m");
    let (id, p, d) = tree.nn_search(&[0, 5]).unwrap();
    assert_eq!((id.as_str(), p, d), ("r", &vec![1, 5], 1));
}

#[test]
fn far_branch_is_searched_when_it_holds_the_nearest() {
    let data = vec![vec![0, 0], vec![10, 0], vec![11, 100]];
    let ids: Vec<String> = (0..3).map(|i| i.to_string()).collect();
    let tree = KDTree::new(&data, &ids, 0).unwrap().unwrap();
    assert_eq!(*tree.point(), vec![10, 0]);
    let (id, p, d) = tree.nn_search(&[9, 100]).unwrap();
    assert_eq!((id.as_str(), p, d), ("2", &vec![11, 100], 4));
    let (id, p, d) = tree.nn_search(&[10, 100]).unwrap();
    assert_eq!((id.as_str(), p, d), ("2", &vec![11, 100], 1));
    let (id, _, d) = tree.nn_search(&[12, 1]).unwrap();
    assert_eq!((id.as_str(), d), ("1", 5));
}

#[test]
fn distances_do_not_overflow_at_the_extremes() {
    let lo = vec![i32::MIN; 4];
    let hi = vec![i32::MAX; 4];
    let side = u32::MAX as u128;
    assert_eq!(coordinate_gap_squared(i32::MIN, i32::MAX), side * side);
    assert_eq!(coordinate_gap_squared(i32::MAX, i32::MIN), side * side);
    assert_eq!(coordinate_gap_squared(7, 7), 0);
    assert_eq!(coordinate_gap_squared(-2, 3), 25);
    assert_eq!(KDTree::distance_squared(&lo, &hi).unwrap(), 4 * side * side);
    let tree = KDTree::new(&[lo.clone(), hi.clone()], &["lo".to_string(), "hi".to_string()], 0)
        .unwrap()
        .unwrap();
    let (id, _, d) = tree.nn_search(&[i32::MAX, i32::MAX, i32::MAX, i32::MIN]).unwrap();
    assert_eq!((id.as_str(), d), ("hi", side * side));
}

#[test]
fn distance_is_refused_between_points_of_different_lengths() {
    assert_eq!(
        KDTree::distance_squared(&[1, 2, 3], &[1, 2]).unwrap_err(),
        KdError::DimensionMismatch
    );
    assert_eq!(
        KDTree::distance_squared(&[0], &[3, 4]).unwrap_err(),
        KdError::DimensionMismatch
    );
    assert_eq!(
        KDTree::distance_squared(&[3, 4], &[]).unwrap_err(),
        KdError::DimensionMismatch
    );
    assert_eq!(KDTree::distance_squared(&[3, 4], &[3, 4]), Ok(0));
}

fn leaf(id: &str, point: &[i32], axis: usize) -> NodeRecord {
    NodeRecord {
        id: id.to_string(),
        point: point.to_vec(),
        left: None,
        right: None,
        axis,
    }
}

fn node(id: &str, point: &[i32], axis: usize, left: Option<NodeRecord>, right: Option<NodeRecord>) -> NodeRecord {
    NodeRecord {
        id: id.to_string(),
        point: point.to_vec(),
        left: left.map(Box::new),
        right: right.map(Box::new),
        axis,
    }
}

#[test]
fn record_round_trip_keeps_every_node() {
    let mut rng = Lcg(10);
    for n in [1usize, 2, 3, 10, 77] {
        let (data, ids) = rng.batch(n, 3, 20);
        let mut tree = KDTree::new(&data, &ids, 0).unwrap().unwrap();
        tree.add("late", &[1, 2, 3]).unwrap();
        let record = tree.to_record();
        assert!(record.is_well_formed());
        let back = KDTree::from_record(tree.to_record()).unwrap();
        assert_eq!(back.to_record(), record);
    }
}

#[test]
fn record_keeps_axes_as_stored() {
    let record = node(
        "m",
        &[5, 5],
        1,
        Some(leaf("l", &[9, 1], 1)),
        Some(leaf("r", &[0, 7], 0)),
    );
    let tree = KDTree::from_record(node(
        "m",
        &[5, 5],
        1,
        Some(leaf("l", &[9, 1], 1)),
        Some(leaf("r", &[0, 7], 0)),
    ))
    .unwrap();
    assert_eq!(tree.axis(), 1);
    assert_eq!(tree.left().unwrap().axis(), 1);
    assert_eq!(tree.right().unwrap().axis(), 0);
    assert_eq!(tree.to_record(), record);
    let (id, _, d) = tree.nn_search(&[0, 6]).unwrap();
    assert_eq!((id.as_str(), d), ("r", 1));
}

#[test]
fn malformed_records_are_refused() {
    let sibling_length = node("m", &[5, 5], 0, Some(leaf("l", &[1, 1, 1], 1)), None);
    assert!(!sibling_length.is_well_formed());
    assert_eq!(KDTree::from_record(sibling_length).unwrap_err(), KdError::Malformed);

    let axis_out_of_range = node("m", &[5, 5], 2, None, None);
    assert_eq!(KDTree::from_record(axis_out_of_range).unwrap_err(), KdError::Malformed);

    let deep_axis_out_of_range = node("m", &[5, 5], 0, None, Some(leaf("r", &[6, 6], 7)));
    assert_eq!(
        KDTree::from_record(deep_axis_out_of_range).unwrap_err(),
        KdError::Malformed
    );

    let no_coordinates = leaf("m", &[], 0);
    assert_eq!(KDTree::from_record(no_coordinates).unwrap_err(), KdError::Malformed);

    let left_above = node("m", &[5, 5], 0, Some(leaf("l", &[6, 0], 1)), None);
    assert_eq!(KDTree::from_record(left_above).unwrap_err(), KdError::Malformed);

    let right_below = node("m", &[5, 5], 0, None, Some(leaf("r", &[4, 0], 1)));
    assert_eq!(KDTree::from_record(right_below).unwrap_err(), KdError::Malformed);

    let grandchild_on_wrong_side = node(
        "m",
        &[5, 5],
        0,
        Some(node("l", &[3, 3], 1, None, Some(leaf("g", &[6, 4], 0)))),
        None,
    );
    assert_eq!(
        KDTree::from_record(grandchild_on_wrong_side).unwrap_err(),
        KdError::Malformed
    );
}

#[test]
fn equal_coordinates_may_sit_on_either_side() {
    let both = node(
        "m",
        &[5, 5],
        0,
        Some(leaf("l", &[5, 0], 1)),
        Some(leaf("r", &[5, 9], 1)),
    );
    assert!(both.is_well_formed());
    let tree = KDTree::from_record(both).unwrap();
    let (id, _, d) = tree.nn_search(&[5, 1]).unwrap();
    assert_eq!((id.as_str(), d), ("l", 1));
    let (id, _, d) = tree.nn_search(&[5, 8]).unwrap();
    assert_eq!((id.as_str(), d), ("r", 1));
}

#[test]
fn duplicate_points_and_identifiers_are_kept() {
    let data = vec![vec![1, 1]; 5];
    let ids = vec!["same".to_string(); 5];
    let tree = KDTree::new(&data, &ids, 0).unwrap().unwrap();
    assert_eq!(size(Some(&*tree)), 5);
    assert_eq!(height(Some(&*tree)), 3);
    let (id, p, d) = tree.nn_search(&[0, 0]).unwrap();
    assert_eq!((id.as_str(), p, d), ("same", &vec![1, 1], 2));
}

#[test]
fn order_of_the_batch_does_not_change_the_answers() {
    let mut rng = Lcg(11);
    let (data, ids) = rng.batch(50, 2, 1000);
    let mut reversed_data = data.clone();
    reversed_data.reverse();
    let mut reversed_ids = ids.clone();
    reversed_ids.reverse();
    let a = KDTree::new(&data, &ids, 0).unwrap().unwrap();
    let b = KDTree::new(&reversed_data, &reversed_ids, 0).unwrap().unwrap();
    for _ in 0..100 {
        let q = [rng.coordinate(1000), rng.coordinate(1000)];
        assert_eq!(a.nn_search(&q).unwrap().2, b.nn_search(&q).unwrap().2);
    }
}
