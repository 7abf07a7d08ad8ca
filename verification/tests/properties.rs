use kiddo::archive::{encode, ArchivedView};
use kiddo::builder::TreeBuilder;
use kiddo::metric::{Manhattan, SquaredEuclidean};
use kiddo::nearest_neighbour::NearestNeighbour;
use kiddo::tree::KdError;

fn small_batch() -> Vec<(Vec<i64>, u64)> {
    vec![
        (vec![10, 20], 1),
        (vec![30, 5], 2),
        (vec![-8, 14], 3),
        (vec![100, -40], 4),
        (vec![0, 0], 5),
        (vec![55, 55], 6),
        (vec![-20, -20], 7),
        (vec![12, 19], 8),
    ]
}

fn manhattan(a: &[i64], b: &[i64]) -> i64 {
    let mut acc: i64 = 0;
    for i in 0..a.len() {
        acc += (a[i] - b[i]).abs();
    }
    acc
}

fn sq_euclidean(a: &[i64], b: &[i64]) -> i64 {
    let mut acc: i64 = 0;
    for i in 0..a.len() {
        acc += (a[i] - b[i]) * (a[i] - b[i]);
    }
    acc
}

fn sorted_records(mut v: Vec<NearestNeighbour>) -> Vec<NearestNeighbour> {
    v.sort_unstable_by(|a, b| {
        (a.distance, a.item).cmp(&(b.distance, b.item))
    });
    v
}

#[test]
fn empty_batch_builds_empty_tree() {
    let builder = TreeBuilder::new(3, 4, 100);
    let tree = builder.build(&vec![]).unwrap();
    assert_eq!(tree.size(), 0);
    let r = tree.within(&vec![1, 2, 3], i64::MAX, &Manhattan);
    assert!(r.is_empty());
}

#[test]
fn max_radius_returns_every_item() {
    let batch = small_batch();
    let builder = TreeBuilder::new(2, 3, 64);
    let tree = builder.build(&batch).unwrap();
    let r = tree.within(&vec![7, -3], i64::MAX, &Manhattan);
    assert_eq!(r.len(), batch.len());
    let mut items: Vec<u64> = r.iter().map(|n| n.item).collect();
    items.sort_unstable();
    assert_eq!(items, vec![1, 2, 3, 4, 5, 6, 7, 8]);
}

#[test]
fn within_is_sorted_with_ties_by_item() {
    // Four points at identical distance from the origin, plus two nearer.
    let batch: Vec<(Vec<i64>, u64)> = vec![
        (vec![10, 0], 42),
        (vec![0, 10], 7),
        (vec![7, 3], 99),
        (vec![3, 7], 13),
        (vec![1, 0], 5),
        (vec![0, 2], 6),
    ];
    let builder = TreeBuilder::new(2, 2, 16);
    let tree = builder.build(&batch).unwrap();
    let r = tree.within(&vec![0, 0], 1000, &Manhattan);
    assert_eq!(
        r,
        vec![
            NearestNeighbour { distance: 1, item: 5 },
            NearestNeighbour { distance: 2, item: 6 },
            NearestNeighbour { distance: 10, item: 7 },
            NearestNeighbour { distance: 10, item: 13 },
            NearestNeighbour { distance: 10, item: 42 },
            NearestNeighbour { distance: 10, item: 99 },
        ]
    );
}

#[test]
fn within_excludes_points_at_exactly_the_radius() {
    let batch: Vec<(Vec<i64>, u64)> = vec![(vec![5, 0], 1), (vec![3, 0], 2)];
    let builder = TreeBuilder::new(2, 2, 4);
    let tree = builder.build(&batch).unwrap();
    let r = tree.within(&vec![0, 0], 5, &Manhattan);
    assert_eq!(r, vec![NearestNeighbour { distance: 3, item: 2 }]);
}

#[test]
fn nearest_n_matches_sorted_prefix() {
    let batch = small_batch();
    let builder = TreeBuilder::new(2, 3, 64);
    let tree = builder.build(&batch).unwrap();
    let q: Vec<i64> = vec![11, 18];

    let mut brute: Vec<NearestNeighbour> = batch
        .iter()
        .map(|(p, item)| NearestNeighbour {
            distance: manhattan(&q, p),
            item: *item,
        })
        .collect();
    brute = sorted_records(brute);

    for n in 0..batch.len() + 2 {
        let r = tree.nearest_n(&q, n, &Manhattan);
        let want: Vec<NearestNeighbour> =
            brute.iter().cloned().take(n).collect();
        assert_eq!(r, want);
    }
}

#[test]
fn nearest_one_returns_the_closest_point() {
    let batch = small_batch();
    let builder = TreeBuilder::new(2, 3, 64);
    let tree = builder.build(&batch).unwrap();
    let r = tree.nearest_n(&vec![11, 18], 1, &Manhattan);
    assert_eq!(r, vec![NearestNeighbour { distance: 2, item: 8 }]);
}

#[test]
fn squared_euclidean_agrees_with_brute_force() {
    let batch = small_batch();
    let builder = TreeBuilder::new(2, 3, 64);
    let tree = builder.build(&batch).unwrap();
    let q: Vec<i64> = vec![4, 9];
    let radius: i64 = 700;

    let mut expected: Vec<NearestNeighbour> = batch
        .iter()
        .filter_map(|(p, item)| {
            let d = sq_euclidean(&q, p);
            if d < radius {
                Some(NearestNeighbour {
                    distance: d,
                    item: *item,
                })
            } else {
                None
            }
        })
        .collect();
    expected = sorted_records(expected);

    let r = tree.within(&q, radius, &SquaredEuclidean);
    assert_eq!(r, expected);
}

#[test]
fn building_twice_yields_identical_trees() {
    let batch = small_batch();
    let builder = TreeBuilder::new(2, 3, 64);
    let t1 = builder.build(&batch).unwrap();
    let t2 = builder.build(&batch).unwrap();
    assert_eq!(t1.stems, t2.stems);
    assert_eq!(t1.size, t2.size);
    assert_eq!(t1.leaves.len(), t2.leaves.len());
    for j in 0..t1.leaves.len() {
        assert_eq!(t1.leaves[j].points, t2.leaves[j].points);
        assert_eq!(t1.leaves[j].items, t2.leaves[j].items);
    }
}

#[test]
fn capacity_exceeded_is_reported() {
    let batch = small_batch();
    let builder = TreeBuilder::new(2, 3, 4);
    assert_eq!(builder.build(&batch).err(), Some(KdError::CapacityExceeded));
}

#[test]
fn full_bucket_refuses_checked_insertion() {
    // A batch of exactly the bucket capacity makes a single leaf with no
    // stem splits; one more checked insertion must be refused.
    let batch: Vec<(Vec<i64>, u64)> = vec![
        (vec![1, 1], 1),
        (vec![2, 2], 2),
        (vec![3, 3], 3),
        (vec![4, 4], 4),
        (vec![5, 5], 5),
    ];
    let builder = TreeBuilder::new(2, 5, 100);
    let mut tree = builder.build(&batch).unwrap();
    assert_eq!(tree.stems.len(), 1);
    assert_eq!(tree.leaves.len(), 1);
    assert_eq!(tree.size(), 5);
    let r = tree.safe_add_to_optimized(&vec![6, 6], 6);
    assert_eq!(r, Err(KdError::BucketOverflow));
    assert_eq!(tree.size(), 5);
    let found = tree.within(&vec![6, 6], i64::MAX, &Manhattan);
    assert_eq!(found.len(), 5);
}

#[test]
fn checked_insertion_places_point_in_room() {
    let batch: Vec<(Vec<i64>, u64)> = vec![(vec![1, 1], 1), (vec![2, 2], 2)];
    let builder = TreeBuilder::new(2, 5, 100);
    let mut tree = builder.build(&batch).unwrap();
    assert_eq!(tree.safe_add_to_optimized(&vec![3, 3], 3), Ok(()));
    assert_eq!(tree.size(), 3);
    let r = tree.within(&vec![3, 3], 1, &Manhattan);
    assert_eq!(r, vec![NearestNeighbour { distance: 0, item: 3 }]);
}

#[test]
fn fast_insertion_places_point_in_room() {
    let batch: Vec<(Vec<i64>, u64)> = vec![(vec![1, 1], 1), (vec![2, 2], 2)];
    let builder = TreeBuilder::new(2, 5, 100);
    let mut tree = builder.build(&batch).unwrap();
    tree.add_to_optimized(&vec![9, 9], 7);
    assert_eq!(tree.size(), 3);
    let r = tree.within(&vec![9, 9], 1, &Manhattan);
    assert_eq!(r, vec![NearestNeighbour { distance: 0, item: 7 }]);
}

#[test]
fn too_many_identical_points_overflow_a_bucket() {
    let batch: Vec<(Vec<i64>, u64)> = (0..6).map(|i| (vec![7, 7], i)).collect();
    let builder = TreeBuilder::new(2, 5, 100);
    assert_eq!(builder.build(&batch).err(), Some(KdError::BucketOverflow));
}

#[test]
fn archived_view_round_trip() {
    let batch = small_batch();
    let builder = TreeBuilder::new(2, 3, 64);
    let tree = builder.build(&batch).unwrap();
    let bytes = encode(&tree);
    let view = ArchivedView::new(bytes, 2, 3).unwrap();

    let queries: Vec<Vec<i64>> = vec![
        vec![0, 0],
        vec![11, 18],
        vec![-15, 40],
        vec![100, 100],
    ];
    for q in &queries {
        let live = tree.within(q, 60, &Manhattan);
        let archived = view.within(q, 60, &Manhattan);
        assert_eq!(live, archived);
        let live_n = tree.nearest_n(q, 3, &Manhattan);
        let archived_n = view.nearest_n(q, 3, &Manhattan);
        assert_eq!(live_n, archived_n);
    }
}

#[test]
fn archived_view_rejects_malformed_bytes() {
    let batch = small_batch();
    let builder = TreeBuilder::new(2, 3, 64);
    let tree = builder.build(&batch).unwrap();
    let bytes = encode(&tree);

    let mut truncated = bytes.clone();
    truncated.pop();
    assert!(ArchivedView::new(truncated, 2, 3).is_none());

    // Corrupt the occupancy of the first leaf record (its last word) to
    // exceed the bucket capacity.
    let mut corrupt = bytes.clone();
    let stems_len = tree.stems.len();
    let leaf_record = 8 * (2 * 3 + 3 + 1);
    let occ_at = 8 * stems_len + leaf_record - 8;
    corrupt[occ_at] = 0xff;
    assert!(ArchivedView::new(corrupt, 2, 3).is_none());
}

#[test]
fn archived_view_accepts_empty_tree() {
    let builder = TreeBuilder::new(3, 4, 10);
    let tree = builder.build(&vec![]).unwrap();
    let bytes = encode(&tree);
    let view = ArchivedView::new(bytes, 3, 4).unwrap();
    let r = view.within(&vec![0, 0, 0], i64::MAX, &Manhattan);
    assert!(r.is_empty());
}

#[test]
fn nearest_n_agrees_with_brute_force_at_scale() {
    let mut state: u64 = 0x5eed;
    let mut next = |bound: u64| -> i64 {
        state = state
            .wrapping_mul(6364136223846793005)
            .wrapping_add(1442695040888963407);
        ((state >> 11) % bound) as i64
    };
    let batch: Vec<(Vec<i64>, u64)> = (0..2000u64)
        .map(|i| {
            (
                vec![next(100_000), next(100_000), next(100_000)],
                i,
            )
        })
        .collect();
    let builder = TreeBuilder::new(3, 8, 2000);
    let tree = builder.build(&batch).unwrap();

    for qi in 0..20 {
        let q: Vec<i64> = vec![next(100_000), next(100_000), next(100_000)];
        let mut brute: Vec<NearestNeighbour> = batch
            .iter()
            .map(|(p, item)| NearestNeighbour {
                distance: manhattan(&q, p),
                item: *item,
            })
            .collect();
        brute = sorted_records(brute);
        let n = 1 + (qi % 7);
        let r = tree.nearest_n(&q, n, &Manhattan);
        let want: Vec<NearestNeighbour> = brute.iter().cloned().take(n).collect();
        assert_eq!(r, want);
    }
}
