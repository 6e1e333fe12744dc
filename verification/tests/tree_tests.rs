use simplex_tree::level_index::LevelListMap;
use simplex_tree::point::{lex_less, rank_order, same_dimension, Point};
use simplex_tree::simplex_tree::{canonical, has_prefix, is_strictly_increasing, SimplexTree, TreeError};

/// The integer key of a real coordinate: keys are ordered as the reals are.
fn key(x: f64) -> i64 {
    let bits = (x + 0.0).to_bits() as i64;
    if bits < 0 {
        bits ^ i64::MAX
    } else {
        bits
    }
}

fn real_point(coordinates: &[f64]) -> Point {
    Point { coordinates: coordinates.iter().map(|x| key(*x)).collect() }
}

fn point(coordinates: &[i64]) -> Point {
    Point { coordinates: coordinates.to_vec() }
}

fn three_vertices() -> SimplexTree {
    SimplexTree::new(vec![point(&[1, 1, 1]), point(&[0, 5, 10]), point(&[2, -1, 7])]).unwrap()
}

#[test]
fn test_creation() {
    let points = vec![
        real_point(&[1.0, 1.0, 1.0]),
        real_point(&[0.0, 5.0, 10.0]),
        real_point(&[2.0, -1.0, 7.0]),
    ];
    let tree = SimplexTree::new(points).unwrap();
    println!("{:?}", tree);
    assert_eq!(
        tree.points,
        vec![
            real_point(&[0.0, 5.0, 10.0]),
            real_point(&[1.0, 1.0, 1.0]),
            real_point(&[2.0, -1.0, 7.0]),
        ]
    );
}

#[test]
fn keys_are_ordered_as_the_reals() {
    assert!(key(-1.0) < key(0.0));
    assert!(key(-2.5) < key(-1.0));
    assert!(key(0.0) < key(5.0));
    assert!(key(5.0) < key(10.0));
    assert_eq!(key(-0.0), key(0.0));
}

#[test]
fn creation_sorts_and_labels_by_rank() {
    let tree = three_vertices();
    assert_eq!(tree.points, vec![point(&[0, 5, 10]), point(&[1, 1, 1]), point(&[2, -1, 7])]);
    assert_eq!(tree.points().len(), 3);
    assert_eq!(tree.origin(), &vec![1usize, 0, 2]);
    assert_eq!(tree.dimension(), 0);
    for v in 0..3u64 {
        assert_eq!(tree.cofaces(v, 0), vec![v as usize]);
        assert_eq!(tree.simplex_of(v as usize), Some(vec![v]));
        assert_eq!(tree.locate(&vec![v]), Some(v as usize));
    }
    assert_eq!(tree.cofaces(3, 0), Vec::<usize>::new());
    assert_eq!(tree.cofaces(0, 1), Vec::<usize>::new());
    assert_eq!(tree.simplex_of(3), None);
}

#[test]
fn equal_points_keep_their_input_order() {
    let input = vec![point(&[1, 1]), point(&[0, 0]), point(&[1, 1]), point(&[0, 5])];
    assert_eq!(rank_order(&input), vec![1usize, 3, 0, 2]);
    let tree = SimplexTree::new(input).unwrap();
    assert_eq!(tree.origin(), &vec![1usize, 3, 0, 2]);
    assert_eq!(tree.points, vec![point(&[0, 0]), point(&[0, 5]), point(&[1, 1]), point(&[1, 1])]);
}

#[test]
fn creation_is_repeatable() {
    let a = SimplexTree::new(vec![point(&[3]), point(&[1]), point(&[2]), point(&[1])]).unwrap();
    let b = SimplexTree::new(vec![point(&[3]), point(&[1]), point(&[2]), point(&[1])]).unwrap();
    assert_eq!(a.points, b.points);
    assert_eq!(a.origin(), b.origin());
    assert_eq!(a.origin(), &vec![1usize, 3, 2, 0]);
}

#[test]
fn creation_of_an_empty_complex() {
    let mut tree = SimplexTree::new(Vec::new()).unwrap();
    assert_eq!(tree.points.len(), 0);
    assert_eq!(tree.dimension(), 0);
    assert_eq!(tree.insert_simplex(&vec![0]), Err(TreeError::UnknownVertex));
}

#[test]
fn creation_rejects_unequal_dimensions() {
    let r = SimplexTree::new(vec![point(&[1, 1, 1]), point(&[0, 5])]);
    assert!(matches!(r, Err(TreeError::DimensionMismatch)));
    assert!(!same_dimension(&vec![point(&[1]), point(&[])]));
    assert!(same_dimension(&vec![point(&[1]), point(&[2])]));
}

#[test]
fn lexicographic_order_by_first_difference() {
    assert!(lex_less(&vec![0, 5, 10], &vec![1, 1, 1]));
    assert!(!lex_less(&vec![1, 1, 1], &vec![0, 5, 10]));
    assert!(lex_less(&vec![1, 1, 1], &vec![1, 1, 2]));
    assert!(!lex_less(&vec![1, 1, 1], &vec![1, 1, 1]));
    assert!(lex_less(&vec![2, -1, 7], &vec![2, 0, 0]));
}

#[test]
fn insert_then_query() {
    let mut tree = three_vertices();
    assert_eq!(tree.insert_simplex(&vec![0, 1]), Ok(true));
    assert_eq!(tree.insert_simplex(&vec![0, 1, 2]), Ok(true));
    let edge = tree.locate(&vec![0, 1]).unwrap();
    let triangle = tree.locate(&vec![0, 1, 2]).unwrap();
    assert_eq!(edge, 3);
    assert_eq!(triangle, 4);
    assert_eq!(tree.cofaces(1, 1), vec![edge]);
    assert_eq!(tree.cofaces(2, 2), vec![triangle]);
    assert_eq!(tree.simplex_of(edge), Some(vec![0, 1]));
    assert_eq!(tree.simplex_of(triangle), Some(vec![0, 1, 2]));
    assert_eq!(tree.cofaces(0, 1), Vec::<usize>::new());
    assert_eq!(tree.cofaces(0, 2), Vec::<usize>::new());
    assert_eq!(tree.cofaces(2, 1), Vec::<usize>::new());
    assert_eq!(tree.dimension(), 2);
}

#[test]
fn remove_takes_the_cofaces_below() {
    let mut tree = three_vertices();
    assert_eq!(tree.insert_simplex(&vec![0, 1, 2]), Ok(true));
    assert_eq!(tree.locate(&vec![0, 1]), Some(3));
    assert_eq!(tree.locate(&vec![0, 1, 2]), Some(4));
    assert_eq!(tree.remove_simplex(&vec![0, 1]), Ok(true));
    assert_eq!(tree.cofaces(0, 1), Vec::<usize>::new());
    assert_eq!(tree.cofaces(0, 2), Vec::<usize>::new());
    assert_eq!(tree.cofaces(1, 1), Vec::<usize>::new());
    assert_eq!(tree.cofaces(2, 2), Vec::<usize>::new());
    assert_eq!(tree.locate(&vec![0, 1]), None);
    assert_eq!(tree.locate(&vec![0, 1, 2]), None);
    assert_eq!(tree.simplex_of(3), None);
    assert_eq!(tree.simplex_of(4), None);
    assert_eq!(tree.dimension(), 0);
    assert_eq!(tree.cofaces(0, 0), vec![0]);
    assert_eq!(tree.remove_simplex(&vec![0, 1]), Err(TreeError::SimplexNotFound));
}

#[test]
fn inserting_twice_adds_nothing() {
    let mut tree = three_vertices();
    assert_eq!(tree.insert_simplex(&vec![1, 2]), Ok(true));
    assert_eq!(tree.insert_simplex(&vec![1, 2]), Ok(false));
    assert_eq!(tree.insert_simplex(&vec![2, 1]), Ok(false));
    assert_eq!(tree.cofaces(2, 1), vec![3]);
    assert_eq!(tree.insert_simplex(&vec![0]), Ok(false));
    assert_eq!(tree.cofaces(0, 0), vec![0]);
    assert_eq!(tree.insert_path(&vec![1, 2]), Ok((false, 3)));
    assert_eq!(tree.dimension(), 1);
}

#[test]
fn labels_are_taken_in_any_order() {
    let mut tree = three_vertices();
    assert_eq!(canonical(&vec![2, 0, 1]), vec![0, 1, 2]);
    assert_eq!(canonical(&vec![5, 5, 1]), vec![1, 5, 5]);
    assert_eq!(tree.insert_simplex(&vec![2, 0, 1]), Ok(true));
    assert_eq!(tree.locate(&vec![0, 1, 2]), Some(4));
    assert_eq!(tree.insert_path(&vec![2, 0]), Err(TreeError::InvalidSimplex));
    assert_eq!(tree.remove_simplex(&vec![2, 1, 0]), Ok(true));
    assert_eq!(tree.locate(&vec![0, 1]), Some(3));
    assert_eq!(tree.dimension(), 1);
}

#[test]
fn insertion_errors() {
    let mut tree = three_vertices();
    assert_eq!(tree.insert_simplex(&vec![]), Err(TreeError::InvalidSimplex));
    assert_eq!(tree.insert_simplex(&vec![1, 1]), Err(TreeError::InvalidSimplex));
    assert_eq!(tree.insert_simplex(&vec![0, 3]), Err(TreeError::UnknownVertex));
    assert_eq!(tree.insert_simplex(&vec![7]), Err(TreeError::UnknownVertex));
    assert_eq!(tree.insert_simplex(&vec![3, 3]), Err(TreeError::InvalidSimplex));
    assert_eq!(tree.dimension(), 0);
    assert_eq!(tree.locate(&vec![0, 3]), None);
    assert_eq!(tree.cofaces(3, 1), Vec::<usize>::new());
}

#[test]
fn removal_errors_and_vertices() {
    let mut tree = three_vertices();
    assert_eq!(tree.remove_simplex(&vec![]), Err(TreeError::SimplexNotFound));
    assert_eq!(tree.remove_simplex(&vec![0, 1]), Err(TreeError::SimplexNotFound));
    assert_eq!(tree.remove_simplex(&vec![9]), Err(TreeError::SimplexNotFound));
    assert_eq!(tree.remove_simplex(&vec![1, 1]), Err(TreeError::SimplexNotFound));
    assert_eq!(tree.remove_simplex(&vec![1]), Ok(false));
    assert_eq!(tree.cofaces(1, 0), vec![1]);
    assert_eq!(tree.remove_path(&vec![1, 0]), Err(TreeError::SimplexNotFound));
}

#[test]
fn dimension_follows_the_deepest_node() {
    let mut tree = three_vertices();
    assert_eq!(tree.insert_simplex(&vec![0, 1, 2]), Ok(true));
    assert_eq!(tree.insert_simplex(&vec![1, 2]), Ok(true));
    assert_eq!(tree.dimension(), 2);
    assert_eq!(tree.remove_simplex(&vec![0, 1, 2]), Ok(true));
    assert_eq!(tree.dimension(), 1);
    assert_eq!(tree.cofaces(2, 1), vec![5]);
    assert_eq!(tree.cofaces(1, 1), vec![3]);
    assert_eq!(tree.remove_simplex(&vec![0, 1]), Ok(true));
    assert_eq!(tree.dimension(), 1);
    assert_eq!(tree.remove_simplex(&vec![1, 2]), Ok(true));
    assert_eq!(tree.dimension(), 0);
}

#[test]
fn index_counts_match_the_nodes() {
    let mut tree = SimplexTree::new(vec![point(&[0]), point(&[1]), point(&[2]), point(&[3])]).unwrap();
    assert_eq!(tree.insert_simplex(&vec![0, 3]), Ok(true));
    assert_eq!(tree.insert_simplex(&vec![1, 3]), Ok(true));
    assert_eq!(tree.insert_simplex(&vec![2, 3]), Ok(true));
    assert_eq!(tree.insert_simplex(&vec![0, 1, 3]), Ok(true));
    assert_eq!(tree.insert_simplex(&vec![0, 2]), Ok(true));
    // depth 1, label 3: {0,3}, {1,3}, {2,3}; depth 1, label 1: {0,1}; depth 2, label 3: {0,1,3}
    let at = tree.cofaces(3, 1);
    assert_eq!(at.len(), 3);
    let mut found: Vec<Vec<u64>> = at.iter().map(|h| tree.simplex_of(*h).unwrap()).collect();
    found.sort();
    assert_eq!(found, vec![vec![0, 3], vec![1, 3], vec![2, 3]]);
    assert_eq!(tree.cofaces(1, 1).len(), 1);
    assert_eq!(tree.cofaces(2, 1).len(), 1);
    assert_eq!(tree.cofaces(3, 2).len(), 1);
    assert_eq!(tree.remove_simplex(&vec![0, 1]), Ok(true));
    assert_eq!(tree.cofaces(1, 1).len(), 0);
    assert_eq!(tree.cofaces(3, 2).len(), 0);
    assert_eq!(tree.cofaces(3, 1).len(), 3);
    assert_eq!(tree.locate(&vec![0, 2]).map(|h| tree.simplex_of(h)), Some(Some(vec![0, 2])));
    assert_eq!(tree.locate(&vec![0, 3]).map(|h| tree.simplex_of(h)), Some(Some(vec![0, 3])));
}

#[test]
fn children_are_found_in_any_insertion_order() {
    let pts: Vec<Point> = (0..6).map(|i| point(&[i])).collect();
    let mut tree = SimplexTree::new(pts).unwrap();
    for l in [4u64, 2, 5, 1, 3] {
        assert_eq!(tree.insert_simplex(&vec![0, l]), Ok(true));
    }
    for l in [1u64, 2, 3, 4, 5] {
        let h = tree.locate(&vec![0, l]).unwrap();
        assert_eq!(tree.simplex_of(h), Some(vec![0, l]));
        assert_eq!(tree.cofaces(l, 1), vec![h]);
        assert_eq!(tree.insert_simplex(&vec![l, 0]), Ok(false));
    }
    assert_eq!(tree.remove_simplex(&vec![0, 3]), Ok(true));
    assert_eq!(tree.locate(&vec![0, 3]), None);
    assert_eq!(tree.locate(&vec![0, 4]).is_some(), true);
    assert_eq!(tree.locate(&vec![0, 2]).is_some(), true);
}

#[test]
fn index_registers_each_handle_once() {
    let mut index = LevelListMap::new();
    assert_eq!(index.query(4, 2), Vec::<usize>::new());
    assert!(index.level_list(4, 2).is_none());
    assert!(index.levels(4).is_none());
    assert!(index.insert_node_set(10, 4, 2));
    assert!(index.insert_node_set(11, 4, 2));
    assert!(!index.insert_node_set(10, 4, 2));
    assert!(index.insert_node_set(12, 4, 3));
    assert!(index.insert_node_set(10, 5, 2));
    assert_eq!(index.query(4, 2), vec![10, 11]);
    assert_eq!(index.query(4, 3), vec![12]);
    assert_eq!(index.query(5, 2), vec![10]);
    assert_eq!(index.level_list(4, 2), Some(&vec![10usize, 11]));
    assert!(index.levels(4).is_some());
    assert!(index.levels(6).is_none());
}

#[test]
fn index_removes_the_first_match() {
    let mut index = LevelListMap::new();
    assert!(!index.remove_node_set(1, 0, 0));
    assert!(index.insert_node_set(1, 0, 0));
    assert!(index.insert_node_set(2, 0, 0));
    assert!(index.insert_node_set(3, 0, 0));
    assert!(index.insert_node_set(2, 0, 1));
    assert!(index.remove_node_set(2, 0, 0));
    assert!(!index.remove_node_set(2, 0, 0));
    assert!(!index.remove_node_set(2, 1, 0));
    assert_eq!(index.query(0, 0), vec![1, 3]);
    assert_eq!(index.query(0, 1), vec![2]);
    assert!(index.remove_node_set(1, 0, 0));
    assert!(index.remove_node_set(3, 0, 0));
    assert_eq!(index.query(0, 0), Vec::<usize>::new());
}

#[test]
fn label_helpers() {
    assert!(is_strictly_increasing(&vec![]));
    assert!(is_strictly_increasing(&vec![3]));
    assert!(is_strictly_increasing(&vec![0, 2, 9]));
    assert!(!is_strictly_increasing(&vec![0, 2, 2]));
    assert!(!is_strictly_increasing(&vec![1, 0]));
    assert!(has_prefix(&vec![0, 1, 2], &vec![0, 1]));
    assert!(has_prefix(&vec![0, 1], &vec![0, 1]));
    assert!(!has_prefix(&vec![0, 1], &vec![0, 1, 2]));
    assert!(!has_prefix(&vec![0, 2, 3], &vec![0, 1]));
    assert!(has_prefix(&vec![0, 2, 3], &vec![]));
}

#[test]
fn face_chain_walks_up_to_the_vertex() {
    let mut tree = three_vertices();
    assert_eq!(tree.insert_simplex(&vec![0, 1, 2]), Ok(true));
    assert_eq!(tree.insert_simplex(&vec![1, 2]), Ok(true));
    assert_eq!(tree.face_chain(4), vec![0, 3, 4]);
    assert_eq!(tree.face_chain(5), vec![1, 5]);
    assert_eq!(tree.face_chain(2), vec![2]);
    assert_eq!(tree.face_chain(6), Vec::<usize>::new());
    assert_eq!(tree.remove_simplex(&vec![0, 1, 2]), Ok(true));
    assert_eq!(tree.face_chain(4), Vec::<usize>::new());
    assert_eq!(tree.face_chain(3), vec![0, 3]);
}

#[test]
fn star_lists_the_simplices_that_contain_a_vertex() {
    let mut tree = three_vertices();
    assert_eq!(tree.insert_simplex(&vec![0, 1]), Ok(true));
    assert_eq!(tree.insert_simplex(&vec![0, 1, 2]), Ok(true));
    let edge = tree.locate(&vec![0, 1]).unwrap();
    let triangle = tree.locate(&vec![0, 1, 2]).unwrap();
    assert_eq!(tree.star(0, 1), vec![edge]);
    assert_eq!(tree.star(1, 1), vec![edge]);
    assert_eq!(tree.star(2, 1), Vec::<usize>::new());
    assert_eq!(tree.star(0, 2), vec![triangle]);
    assert_eq!(tree.star(1, 2), vec![triangle]);
    assert_eq!(tree.star(2, 2), vec![triangle]);
    assert_eq!(tree.star(0, 0), vec![0]);
    assert_eq!(tree.star(3, 0), Vec::<usize>::new());
    assert_eq!(tree.insert_simplex(&vec![0, 2]), Ok(true));
    assert_eq!(tree.star(0, 1), vec![edge, 5]);
    assert_eq!(tree.star(2, 1), vec![5]);
}

#[test]
fn star_is_empty_after_removal() {
    let mut tree = three_vertices();
    assert_eq!(tree.insert_simplex(&vec![0, 1, 2]), Ok(true));
    assert_eq!(tree.remove_simplex(&vec![0, 1]), Ok(true));
    assert_eq!(tree.star(0, 1), Vec::<usize>::new());
    assert_eq!(tree.star(0, 2), Vec::<usize>::new());
    assert_eq!(tree.star(1, 1), Vec::<usize>::new());
    assert_eq!(tree.star(2, 2), Vec::<usize>::new());
    assert_eq!(tree.star(1, 0), vec![1]);
}

#[test]
fn faces_are_the_non_empty_choices_of_labels() {
    let mut tree = three_vertices();
    assert_eq!(tree.insert_simplex(&vec![0, 1, 2]), Ok(true));
    let mut faces = tree.faces(4);
    assert_eq!(faces.len(), 7);
    faces.sort();
    assert_eq!(
        faces,
        vec![vec![0], vec![0, 1], vec![0, 1, 2], vec![0, 2], vec![1], vec![1, 2], vec![2]]
    );
    assert_eq!(tree.faces(3), vec![vec![0], vec![0, 1], vec![1]]);
    assert_eq!(tree.faces(1), vec![vec![1]]);
    assert_eq!(tree.faces(9), Vec::<Vec<u64>>::new());
    assert_eq!(tree.locate(&vec![0, 2]), None);
    assert_eq!(tree.locate(&vec![0, 1]), Some(3));
}
