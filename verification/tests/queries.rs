use kiddo::builder::TreeBuilder;
use kiddo::metric::Manhattan;
use kiddo::nearest_neighbour::NearestNeighbour;

fn lcg(state: &mut u64) -> u64 {
    *state = state
        .wrapping_mul(6364136223846793005)
        .wrapping_add(1442695040888963407);
    *state >> 11
}

fn rand_below(state: &mut u64, bound: u64) -> i64 {
    (lcg(state) % bound) as i64
}

fn manhattan(a: &[i64], b: &[i64]) -> i64 {
    let mut acc: i64 = 0;
    for i in 0..a.len() {
        acc += (a[i] - b[i]).abs();
    }
    acc
}

fn linear_search(
    content: &[(Vec<i64>, u64)],
    query_point: &[i64],
    radius: i64,
) -> Vec<NearestNeighbour> {
    let mut matching_items = vec![];
    for (p, item) in content {
        let distance = manhattan(query_point, p);
        if distance < radius {
            matching_items.push(NearestNeighbour {
                distance,
                item: *item,
            });
        }
    }
    stabilize_sort(&mut matching_items);
    matching_items
}

fn stabilize_sort(matching_items: &mut Vec<NearestNeighbour>) {
    matching_items.sort_unstable_by(|a, b| {
        let dist_cmp = a.distance.cmp(&b.distance);
        if dist_cmp == std::cmp::Ordering::Equal {
            a.item.cmp(&b.item)
        } else {
            dist_cmp
        }
    });
}

// Sixteen four-dimensional points in fixed-point thousandths.
fn sixteen_points() -> Vec<(Vec<i64>, u64)> {
    vec![
        (vec![900, 0, 900, 0], 9),
        (vec![400, 500, 400, 500], 4),
        (vec![120, 300, 120, 300], 12),
        (vec![700, 200, 700, 200], 7),
        (vec![130, 400, 130, 400], 13),
        (vec![600, 300, 600, 300], 6),
        (vec![200, 700, 200, 700], 2),
        (vec![140, 500, 140, 500], 14),
        (vec![300, 600, 300, 600], 3),
        (vec![100, 100, 100, 100], 10),
        (vec![160, 700, 160, 700], 16),
        (vec![100, 800, 100, 800], 1),
        (vec![150, 600, 150, 600], 15),
        (vec![500, 400, 500, 400], 5),
        (vec![800, 100, 800, 100], 8),
        (vec![110, 200, 110, 200], 11),
    ]
}

#[test]
fn can_query_items_within_radius() {
    let content_to_add = sixteen_points();

    let builder = TreeBuilder::new(4, 5, 16);
    let tree = builder.build(&content_to_add).unwrap();

    assert_eq!(tree.size(), 16);

    let query_point: Vec<i64> = vec![780, 550, 780, 550];

    let radius: i64 = 200;
    let expected = linear_search(&content_to_add, &query_point, radius);

    let result: Vec<_> = tree.within(&query_point, radius, &Manhattan);
    assert_eq!(result, expected);

    let mut rng: u64 = 0x12345678;
    for _i in 0..1000 {
        let query_point: Vec<i64> = vec![
            rand_below(&mut rng, 1000),
            rand_below(&mut rng, 1000),
            rand_below(&mut rng, 1000),
            rand_below(&mut rng, 1000),
        ];
        let radius: i64 = 2000;
        let expected = linear_search(&content_to_add, &query_point, radius);

        let result: Vec<_> = tree.within(&query_point, radius, &Manhattan);

        assert_eq!(result, expected);
    }
}

#[test]
fn can_query_items_within_radius_large_scale() {
    const TREE_SIZE: usize = 100_000;
    const NUM_QUERIES: usize = 100;
    const RADIUS: i64 = 200_000;

    let mut rng: u64 = 0xabcdef0123;
    let content_to_add: Vec<(Vec<i64>, u64)> = (0..TREE_SIZE)
        .map(|_| {
            (
                vec![
                    rand_below(&mut rng, 1_000_000),
                    rand_below(&mut rng, 1_000_000),
                    rand_below(&mut rng, 1_000_000),
                    rand_below(&mut rng, 1_000_000),
                ],
                lcg(&mut rng) % 4_294_967_296,
            )
        })
        .collect();

    let builder = TreeBuilder::new(4, 32, TREE_SIZE);
    let tree = builder.build(&content_to_add).unwrap();
    assert_eq!(tree.size(), TREE_SIZE);

    let query_points: Vec<Vec<i64>> = (0..NUM_QUERIES)
        .map(|_| {
            vec![
                rand_below(&mut rng, 1_000_000),
                rand_below(&mut rng, 1_000_000),
                rand_below(&mut rng, 1_000_000),
                rand_below(&mut rng, 1_000_000),
            ]
        })
        .collect();

    for query_point in query_points {
        let expected = linear_search(&content_to_add, &query_point, RADIUS);

        let result: Vec<_> = tree.within(&query_point, RADIUS, &Manhattan);

        assert_eq!(result, expected);
    }
}
