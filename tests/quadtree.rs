use quadtree::{BoxBounded, QuadTree, QuadTreeData, Rect, StableStore};
use std::cmp::Ordering;
use std::collections::hash_map::DefaultHasher;
use std::hash::{Hash, Hasher};

#[derive(Debug, Clone, PartialEq)]
struct Item {
    id: u32,
    bb: Rect<i32>,
}

impl BoxBounded<i32> for Item {
    fn bounding_box(&self) -> Rect<i32> {
        self.bb
    }

    fn get_bounding_box(&self) -> Rect<i32> {
        self.bb
    }
}

fn r(x: i32, y: i32, w: i32, h: i32) -> Rect<i32> {
    Rect { x, y, w, h }
}

fn item(id: u32, x: i32, y: i32, w: i32, h: i32) -> Item {
    Item { id, bb: r(x, y, w, h) }
}

/// (region, ids held directly, number of children) for each visited node.
fn walk<const L: usize>(t: &QuadTree<i32, Item, L>) -> Vec<(Rect<i32>, Vec<u32>, usize)> {
    let mut out = Vec::new();
    t.visit(|s: QuadTreeData<i32, Item>| {
        out.push((s.node.bb, s.data.iter().map(|e| e.id).collect(), s.node.children.len()));
    });
    out
}

fn hash_of(b: &Rect<i32>) -> u64 {
    let mut h = DefaultHasher::new();
    b.hash(&mut h);
    h.finish()
}

#[test]
fn fits_inside_checks_both_axes() {
    let outer = r(0, 0, 10, 10);
    assert!(r(0, 0, 10, 10).fits_inside(&outer));
    assert!(r(2, 3, 4, 5).fits_inside(&outer));
    assert!(!r(8, 0, 3, 1).fits_inside(&outer));
    assert!(!r(0, 8, 1, 3).fits_inside(&outer));
    assert!(!r(-1, 0, 1, 1).fits_inside(&outer));
    assert!(!r(0, -1, 1, 1).fits_inside(&outer));
    assert!(!outer.fits_inside(&r(2, 3, 4, 5)));
}

#[test]
fn fits_inside_extreme_coordinates_do_not_overflow() {
    let outer = Rect { x: i64::MAX - 1, y: i64::MAX - 1, w: 1i64, h: 1i64 };
    let inner = Rect { x: i64::MAX, y: i64::MAX, w: 0i64, h: 0i64 };
    assert!(inner.fits_inside(&outer));
    let big = Rect { x: i64::MAX, y: 0i64, w: i64::MAX, h: 0i64 };
    assert!(!big.fits_inside(&outer));
    let u = Rect { x: 200u8, y: 200u8, w: 100u8, h: 10u8 };
    assert!(!u.fits_inside(&Rect { x: 0u8, y: 0u8, w: 255u8, h: 255u8 }));
}

#[test]
fn equality_and_hash_are_field_wise() {
    let a = r(1, 2, 3, 4);
    let b = r(1, 2, 3, 4);
    assert_eq!(a, b);
    assert_eq!(hash_of(&a), hash_of(&b));
    assert_ne!(a, r(1, 2, 3, 5));
    assert_ne!(a, r(0, 2, 3, 4));
}

#[test]
fn containment_order_is_reproduced() {
    let outer = r(0, 0, 10, 10);
    let inner = r(1, 1, 2, 2);
    assert_eq!(outer.partial_cmp(&outer), Some(Ordering::Equal));
    assert_eq!(inner.partial_cmp(&outer), Some(Ordering::Less));
    assert!(inner < outer);
    // a box that strictly contains the other still compares greater
    assert_eq!(outer.partial_cmp(&inner), Some(Ordering::Greater));
    // overlapping and disjoint boxes compare greater both ways
    let a = r(0, 0, 5, 5);
    let b = r(3, 3, 5, 5);
    assert_eq!(a.partial_cmp(&b), Some(Ordering::Greater));
    assert_eq!(b.partial_cmp(&a), Some(Ordering::Greater));
    let c = r(20, 20, 1, 1);
    assert_eq!(a.partial_cmp(&c), Some(Ordering::Greater));
}

#[test]
fn new_tree_is_one_empty_leaf() {
    let t: QuadTree<i32, Item, 4> = QuadTree::new(r(0, 0, 16, 16));
    assert_eq!(t.num_elements(), 0);
    assert_eq!(walk(&t), vec![(r(0, 0, 16, 16), vec![], 0)]);
}

#[test]
fn out_of_bounds_insert_is_rejected() {
    let mut t: QuadTree<i32, Item, 4> = QuadTree::new(r(0, 0, 100, 100));
    assert!(t.try_insert(item(1, 10, 10, 5, 5)).is_ok());
    assert_eq!(t.num_elements(), 1);
    let e = item(2, 90, 90, 20, 20);
    match t.try_insert(e.clone()) {
        Ok(_) => panic!("element outside the region was accepted"),
        Err(back) => assert_eq!(back, e),
    }
    assert_eq!(t.num_elements(), 1);
    assert_eq!(walk(&t), vec![(r(0, 0, 100, 100), vec![1], 0)]);
}

#[test]
fn insert_returns_the_stored_element_for_change() {
    let mut t: QuadTree<i32, Item, 4> = QuadTree::new(r(0, 0, 100, 100));
    match t.try_insert(item(7, 1, 1, 1, 1)) {
        Ok(m) => {
            assert_eq!(m.id, 7);
            m.id = 70;
        }
        Err(_) => panic!("element inside the region was rejected"),
    }
    assert_eq!(walk(&t)[0].1, vec![70]);
}

#[test]
fn round_trip_example() {
    let mut t: QuadTree<i32, Item, 1> = QuadTree::new(r(0, 0, 8, 8));
    assert!(t.try_insert(item(1, 0, 0, 1, 1)).is_ok());
    assert!(t.try_insert(item(2, 1, 1, 1, 1)).is_ok());
    assert_eq!(walk(&t), vec![(r(0, 0, 8, 8), vec![1, 2], 0)]);
    assert!(t.try_insert(item(3, 5, 5, 1, 1)).is_ok());
    assert_eq!(t.num_elements(), 3);
    let v = walk(&t);
    assert_eq!(
        v,
        vec![
            (r(0, 0, 8, 8), vec![], 4),
            (r(0, 0, 4, 4), vec![2, 1], 0),
            (r(4, 0, 4, 4), vec![], 0),
            (r(4, 4, 4, 4), vec![3], 0),
            (r(0, 4, 4, 4), vec![], 0),
        ]
    );
}

#[test]
fn visit_order_is_preorder_clockwise() {
    let mut t: QuadTree<i32, Item, 0> = QuadTree::new(r(0, 0, 8, 8));
    assert!(t.try_insert(item(1, 0, 0, 1, 1)).is_ok());
    // the second insert splits the root, the third its top-left child
    assert!(t.try_insert(item(2, 5, 1, 1, 1)).is_ok());
    assert!(t.try_insert(item(3, 2, 2, 1, 1)).is_ok());
    let v = walk(&t);
    let regions: Vec<Rect<i32>> = v.iter().map(|n| n.0).collect();
    assert_eq!(
        regions,
        vec![
            r(0, 0, 8, 8),
            r(0, 0, 4, 4),
            r(0, 0, 2, 2),
            r(2, 0, 2, 2),
            r(2, 2, 2, 2),
            r(0, 2, 2, 2),
            r(4, 0, 4, 4),
            r(4, 4, 4, 4),
            r(0, 4, 4, 4),
        ]
    );
    assert_eq!(v[2].1, vec![1]);
    assert_eq!(v[4].1, vec![3]);
    assert_eq!(v[6].1, vec![2]);
}

#[test]
fn split_happens_once_past_threshold() {
    let mut t: QuadTree<i32, Item, 2> = QuadTree::new(r(0, 0, 16, 16));
    assert!(t.try_insert(item(0, 1, 1, 1, 1)).is_ok());
    assert!(t.try_insert(item(1, 9, 1, 1, 1)).is_ok());
    assert!(t.try_insert(item(2, 9, 9, 1, 1)).is_ok());
    // exactly the threshold plus one held directly, no subdivision yet
    assert_eq!(walk(&t), vec![(r(0, 0, 16, 16), vec![0, 1, 2], 0)]);
    assert!(t.try_insert(item(3, 1, 9, 1, 1)).is_ok());
    assert_eq!(
        walk(&t),
        vec![
            (r(0, 0, 16, 16), vec![], 4),
            (r(0, 0, 8, 8), vec![0], 0),
            (r(8, 0, 8, 8), vec![1], 0),
            (r(8, 8, 8, 8), vec![2], 0),
            (r(0, 8, 8, 8), vec![3], 0),
        ]
    );
}

#[test]
fn identical_boxes_cascade_down_to_the_smallest_region() {
    let mut t: QuadTree<i32, Item, 0> = QuadTree::new(r(0, 0, 4, 4));
    assert!(t.try_insert(item(1, 1, 1, 1, 1)).is_ok());
    assert!(t.try_insert(item(2, 1, 1, 1, 1)).is_ok());
    let v = walk(&t);
    // (1, 1, 1, 1) fits the top-left (0, 0, 2, 2) and then its
    // bottom-right (1, 1, 1, 1), whose quadrants are too small
    assert_eq!(v[0], (r(0, 0, 4, 4), vec![], 4));
    assert_eq!(v[1], (r(0, 0, 2, 2), vec![], 4));
    assert_eq!(v[4], (r(1, 1, 1, 1), vec![1, 2], 4));
    assert_eq!(v.len(), 13);
}

#[test]
fn straddling_element_stays_at_the_split_node() {
    let mut t: QuadTree<i32, Item, 0> = QuadTree::new(r(0, 0, 8, 8));
    assert!(t.try_insert(item(1, 3, 3, 2, 2)).is_ok());
    assert!(t.try_insert(item(2, 0, 0, 1, 1)).is_ok());
    let v = walk(&t);
    assert_eq!(v[0], (r(0, 0, 8, 8), vec![1], 4));
    assert_eq!(v[1], (r(0, 0, 4, 4), vec![2], 0));
    // a later straddling element goes straight to the split node
    assert!(t.try_insert(item(3, 2, 2, 4, 4)).is_ok());
    assert_eq!(walk(&t)[0].1, vec![1, 3]);
}

#[test]
fn odd_extent_leaves_an_uncovered_strip() {
    let mut t: QuadTree<i32, Item, 0> = QuadTree::new(r(0, 0, 5, 5));
    assert!(t.try_insert(item(1, 0, 0, 1, 1)).is_ok());
    assert!(t.try_insert(item(2, 4, 4, 1, 1)).is_ok());
    let v = walk(&t);
    assert_eq!(v[1].0, r(0, 0, 2, 2));
    assert_eq!(v[2].0, r(2, 0, 2, 2));
    assert_eq!(v[3].0, r(2, 2, 2, 2));
    assert_eq!(v[4].0, r(0, 2, 2, 2));
    // (4, 4, 1, 1) lies in the strip that no quadrant covers
    assert_eq!(v[0].1, vec![2]);
    assert_eq!(v[1].1, vec![1]);
}

#[test]
fn zero_size_region_never_subdivides() {
    let mut t: QuadTree<i32, Item, 1> = QuadTree::new(r(3, 3, 0, 0));
    for id in 0..5u32 {
        assert!(t.try_insert(item(id, 3, 3, 0, 0)).is_ok());
    }
    assert!(t.try_insert(item(9, 3, 3, 1, 0)).is_err());
    assert_eq!(walk(&t), vec![(r(3, 3, 0, 0), vec![0, 1, 2, 3, 4], 0)]);
}

#[test]
fn every_element_fits_its_node() {
    let mut t: QuadTree<i32, Item, 1> = QuadTree::new(r(-32, -32, 64, 64));
    let mut id = 0u32;
    for x in [-30i32, -17, -3, 0, 5, 12, 25] {
        for y in [-29i32, -8, 0, 7, 20] {
            let w = (x.abs() % 5) + 1;
            let h = (y.abs() % 4) + 1;
            assert!(t.try_insert(item(id, x, y, w, h)).is_ok());
            id += 1;
        }
    }
    assert_eq!(t.num_elements(), id as usize);
    let mut seen = 0usize;
    t.visit(|s: QuadTreeData<i32, Item>| {
        let n = s.node.children.len();
        assert!(n == 0 || n == 4);
        if n == 0 {
            assert!(s.data.len() <= 2);
        }
        for e in s.data.iter() {
            assert!(e.bb.fits_inside(&s.node.bb));
        }
        seen += s.data.len();
    });
    assert_eq!(seen, id as usize);
}

#[test]
fn snapshots_match_visit() {
    let mut t: QuadTree<i32, Item, 1> = QuadTree::new(r(0, 0, 8, 8));
    for (i, (x, y)) in [(0, 0), (1, 1), (5, 5), (6, 1)].iter().enumerate() {
        assert!(t.try_insert(item(i as u32, *x, *y, 1, 1)).is_ok());
    }
    let snaps = t.snapshots();
    assert_eq!(snaps[0].node.get_bounding_box(), r(0, 0, 8, 8));
    assert_eq!(snaps[3].node.get_bounding_box(), r(4, 4, 4, 4));
    let from_snaps: Vec<(Rect<i32>, Vec<u32>, usize)> = snaps
        .iter()
        .map(|s| (s.node.bb, s.data.iter().map(|e| e.id).collect(), s.node.children.len()))
        .collect();
    assert_eq!(from_snaps, walk(&t));
}

#[test]
fn handles_stay_valid_across_failures_and_removals() {
    let mut s: StableStore<&str> = StableStore::new();
    let a = s.push("a");
    let b = s.push("b");
    let c = s.push("c");
    assert_eq!((a, b, c), (0, 1, 2));
    // a failed insertion stores and then removes its element
    let d = s.push("d");
    assert_eq!(s.remove(d), Some("d"));
    assert_eq!(s.remove(b), Some("b"));
    assert_eq!(s.remove(b), None);
    assert_eq!(s.remove(99), None);
    assert_eq!(*s.get(a), "a");
    assert_eq!(*s.get(c), "c");
    assert_eq!(s.get_checked(b), None);
    assert_eq!(s.get_checked(d), None);
    assert_eq!(s.num_elements(), 2);
    // handles are never given out again
    assert_eq!(s.push("e"), 4);
    *s.get_mut(a) = "a2";
    assert_eq!(s.get_checked(a), Some(&"a2"));
}

#[test]
fn tree_keeps_elements_after_a_failed_insert() {
    let mut t: QuadTree<i32, Item, 1> = QuadTree::new(r(0, 0, 8, 8));
    assert!(t.try_insert(item(1, 0, 0, 1, 1)).is_ok());
    assert!(t.try_insert(item(2, 6, 0, 1, 1)).is_ok());
    assert!(t.try_insert(item(3, 6, 6, 1, 1)).is_ok());
    let before = walk(&t);
    assert!(t.try_insert(item(4, 7, 7, 2, 2)).is_err());
    assert_eq!(walk(&t), before);
    assert_eq!(t.num_elements(), 3);
    assert!(t.try_insert(item(5, 0, 6, 1, 1)).is_ok());
    let ids: Vec<u32> = walk(&t).into_iter().flat_map(|n| n.1).collect();
    let mut sorted = ids.clone();
    sorted.sort();
    assert_eq!(sorted, vec![1, 2, 3, 5]);
}

#[test]
fn negative_extents_and_unsigned_coordinates() {
    let mut t: QuadTree<u16, Unsigned, 0> = QuadTree::new(Rect { x: 0, y: 0, w: 100, h: 100 });
    assert!(t.try_insert(Unsigned(Rect { x: 60, y: 10, w: 10, h: 10 })).is_ok());
    assert!(t.try_insert(Unsigned(Rect { x: 10, y: 60, w: 10, h: 10 })).is_ok());
    let mut regions = Vec::new();
    t.visit(|s: QuadTreeData<u16, Unsigned>| regions.push((s.node.bb, s.data.len())));
    assert_eq!(regions[0], (Rect { x: 0, y: 0, w: 100, h: 100 }, 0));
    assert_eq!(regions[2], (Rect { x: 50, y: 0, w: 50, h: 50 }, 1));
    assert_eq!(regions[4], (Rect { x: 0, y: 50, w: 50, h: 50 }, 1));
    assert!(r(-5, -5, 2, 2).fits_inside(&r(-6, -6, 4, 4)));
    // the formula compares edges only: a negative width ends left of its origin
    assert!(r(0, 0, -1, 1).fits_inside(&r(0, 0, 1, 1)));
    assert!(!r(0, 0, 1, 1).fits_inside(&r(0, 0, -1, 1)));
}

#[derive(Debug, Clone, PartialEq)]
struct Unsigned(Rect<u16>);

impl BoxBounded<u16> for Unsigned {
    fn bounding_box(&self) -> Rect<u16> {
        self.0
    }

    fn get_bounding_box(&self) -> Rect<u16> {
        self.0
    }
}
