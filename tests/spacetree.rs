use quadb::geometry::{Bounds, Vector};
use quadb::spacetree::{QEntity, Space, SpaceTree};
use quadb::error::SpatialError;

#[derive(Debug, Clone, PartialEq)]
struct Float(f64);

impl QEntity for Float {}

fn all_within_bounds<const D: usize, QE>(space: &Space<D, QE>) -> bool {
    space.entities.iter().all(|e| space.bounds.contains(&e.0))
        && space.children.iter().all(|c| all_within_bounds(c))
}

fn leaves_within_capacity<const D: usize, QE>(space: &Space<D, QE>) -> bool {
    if space.children.is_empty() {
        space.entities.len() <= 1 << D
    } else {
        space.entities.is_empty()
            && space.children.len() == 1 << D
            && space.children.iter().all(|c| leaves_within_capacity(c))
    }
}

fn reachable<const D: usize, QE>(space: &Space<D, QE>) -> usize {
    space.entities.len() + space.children.iter().map(|c| reachable(c)).sum::<usize>()
}

#[test]
fn multiple_insertion() {
    let mut st = SpaceTree::<2, Float>::new();

    let points = vec![
        vec![-1000, 500],
        vec![100, -200],
        vec![-7, 900],
        vec![1000, -1000],
        vec![123, -567],
    ];

    for (i, pos) in points.into_iter().enumerate() {
        st.insert(Float(i as f64), pos).unwrap();
    }

    assert_eq!(true, all_within_bounds(&st.root));
    assert!(leaves_within_capacity(&st.root));
    assert_eq!(reachable(&st.root), 5);
}

#[test]
fn subdivision_keeps_every_entry() {
    let mut st = SpaceTree::<2, u32>::new();
    for i in 0..10i32 {
        st.insert(i as u32, vec![i * 3 - 7, 11 - i * 2]).unwrap();
    }
    assert!(!st.root.children.is_empty());
    assert_eq!(st.root.children.len(), 4);
    assert_eq!(reachable(&st.root), 10);
    assert_eq!(st.len(), 10);
    assert!(all_within_bounds(&st.root));
    for i in 0..10i32 {
        assert_eq!(st.get(&vec![i * 3 - 7, 11 - i * 2]).unwrap(), Some(&(i as u32)));
    }
}

#[test]
fn full_leaf_stays_a_leaf_until_overflow() {
    let mut st = SpaceTree::<2, u32>::new();
    for i in 0..4i32 {
        st.insert(i as u32, vec![i, i]).unwrap();
    }
    assert!(st.root.children.is_empty());
    st.insert(9, vec![2, 2]).unwrap();
    assert!(st.root.children.is_empty());
    assert_eq!(st.len(), 4);
    st.insert(4, vec![4, 4]).unwrap();
    assert_eq!(st.root.children.len(), 4);
    assert_eq!(st.len(), 5);
}

#[test]
fn overwrite_replaces_payload() {
    let mut st = SpaceTree::<3, u32>::new();
    st.insert(1, vec![1, 2, 3]).unwrap();
    st.insert(2, vec![4, 5, 6]).unwrap();
    st.insert(7, vec![1, 2, 3]).unwrap();
    assert_eq!(st.len(), 2);
    assert_eq!(st.get(&vec![1, 2, 3]).unwrap(), Some(&7));
    assert_eq!(st.get(&vec![4, 5, 6]).unwrap(), Some(&2));
}

#[test]
fn overwrite_after_subdivision() {
    let mut st = SpaceTree::<1, u32>::new();
    for i in 0..6i32 {
        st.insert(i as u32, vec![i * 10]).unwrap();
    }
    st.insert(99, vec![30]).unwrap();
    assert_eq!(st.len(), 6);
    assert_eq!(reachable(&st.root), 6);
    assert_eq!(st.get(&vec![30]).unwrap(), Some(&99));
}

#[test]
fn dimension_mismatch_is_refused() {
    let mut st = SpaceTree::<3, u32>::new();
    assert_eq!(st.insert(1, vec![1, 2]), Err(SpatialError::DimensionMismatch));
    assert_eq!(st.len(), 0);
    assert_eq!(st.get(&vec![1, 2]), Err(SpatialError::DimensionMismatch));
    assert_eq!(st.remove(&vec![1, 2]), Err(SpatialError::DimensionMismatch));
}

#[test]
fn remove_clears_entry() {
    let mut st = SpaceTree::<2, u32>::new();
    for i in 0..8i32 {
        st.insert(i as u32, vec![i, -i]).unwrap();
    }
    assert_eq!(st.remove(&vec![3, -3]).unwrap(), Some(3));
    assert_eq!(st.remove(&vec![3, -3]).unwrap(), None);
    assert_eq!(st.get(&vec![3, -3]).unwrap(), None);
    assert_eq!(st.len(), 7);
    assert_eq!(reachable(&st.root), 7);
    assert_eq!(st.root.children.len(), 4);
}

#[test]
fn extreme_coordinates_are_held() {
    let mut st = SpaceTree::<2, u32>::new();
    let corners = vec![
        vec![i32::MIN, i32::MIN],
        vec![i32::MAX, i32::MAX],
        vec![i32::MIN, i32::MAX],
        vec![i32::MAX, i32::MIN],
        vec![0, 0],
        vec![-1, -1],
    ];
    for (i, p) in corners.iter().enumerate() {
        st.insert(i as u32, p.clone()).unwrap();
    }
    assert_eq!(st.len(), 6);
    for (i, p) in corners.iter().enumerate() {
        assert_eq!(st.get(p).unwrap(), Some(&(i as u32)));
    }
    assert!(all_within_bounds(&st.root));
}

#[test]
fn query_window_returns_points_inside() {
    let mut st = SpaceTree::<2, u32>::new();
    for x in 0..6i32 {
        for y in 0..6i32 {
            st.insert((x * 10 + y) as u32, vec![x, y]).unwrap();
        }
    }
    // the box 1 < x <= 3, 2 < y <= 4
    let window = Bounds::<2>::from_edges(vec![1, 2], vec![3, 4]).unwrap();
    let mut found: Vec<(Vec<i32>, u32)> = st
        .query_window(&window)
        .into_iter()
        .map(|(p, v)| (p.to_vec(), *v))
        .collect();
    found.sort();
    assert_eq!(
        found,
        vec![
            (vec![2, 3], 23),
            (vec![2, 4], 24),
            (vec![3, 3], 33),
            (vec![3, 4], 34),
        ]
    );
}

#[test]
fn bisection_partitions_the_box() {
    let root = Bounds::<2>::from_edges(vec![-10, -10], vec![10, 10]).unwrap();
    let children = root.split();
    assert_eq!(children.len(), 4);
    for x in -9..=10 {
        for y in -9..=10 {
            let p = Vector::<2>::from_coords(vec![x, y]).unwrap();
            assert!(root.contains(&p));
            let holders: Vec<usize> = (0..4).filter(|&c| children[c].contains(&p)).collect();
            assert_eq!(holders.len(), 1);
            assert_eq!(holders[0], root.child_of(&p));
        }
    }
    // child 0 is the lower half of both axes, child 3 the upper half
    assert_eq!((children[0].low_at(0), children[0].high_at(0)), (-10, 0));
    assert_eq!((children[3].low_at(1), children[3].high_at(1)), (0, 10));
    assert_eq!((children[1].low_at(0), children[1].high_at(1)), (0, 0));
}

#[test]
fn root_box_holds_every_position() {
    let root = Bounds::<3>::new();
    for v in [i32::MIN, -1, 0, 1, i32::MAX] {
        assert!(root.contains(&Vector::<3>::from_element(v)));
    }
    let kids = root.split();
    assert_eq!(kids.len(), 8);
    let p = Vector::<3>::from_element(i32::MIN);
    assert_eq!(kids.iter().filter(|k| k.contains(&p)).count(), 1);
}

#[test]
fn open_lower_edge_excludes_its_value() {
    let b = Bounds::<1>::from_edges(vec![0], vec![4]).unwrap();
    assert!(!b.contains(&Vector::<1>::from_element(0)));
    assert!(b.contains(&Vector::<1>::from_element(4)));
    assert!(Bounds::<1>::from_edges(vec![5], vec![4]).is_none());
    assert!(Bounds::<2>::from_edges(vec![0], vec![4]).is_none());
}

#[test]
fn over_full_child_splits_in_turn() {
    let mut st = SpaceTree::<1, u32>::new();
    for i in 1..=3i32 {
        st.insert(i as u32, vec![i]).unwrap();
    }
    assert!(leaves_within_capacity(&st.root));
    assert_eq!(reachable(&st.root), 3);
    for i in 1..=3i32 {
        assert_eq!(st.get(&vec![i]).unwrap(), Some(&(i as u32)));
    }
}

#[test]
fn clustered_points_keep_leaves_within_capacity() {
    let mut st = SpaceTree::<2, u32>::new();
    let mut n = 0u32;
    for x in 0..7i32 {
        for y in 0..7i32 {
            st.insert(n, vec![x, y]).unwrap();
            n += 1;
        }
    }
    assert!(leaves_within_capacity(&st.root));
    assert!(all_within_bounds(&st.root));
    assert_eq!(reachable(&st.root), 49);
    assert_eq!(st.len(), 49);
    assert_eq!(st.get(&vec![6, 6]).unwrap(), Some(&48));
}
