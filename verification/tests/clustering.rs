use rinha::engine_clusters::{draw_seeds, effective_k, kmeans_f32, refine};
use rinha::kmeans::{assign_all, cluster, nearest, update_centroids, Row};
use rinha::seeding::{draw, kmeans_plus_plus_init, SEED};

fn row(x: f32) -> Row {
    let mut r = [0u32; 14];
    r[0] = x.to_bits();
    r
}

fn first(r: &Row) -> f32 {
    f32::from_bits(r[0])
}

fn dist(a: &Row, b: &Row) -> u32 {
    let mut s = 0.0f32;
    for d in 0..14 {
        let diff = f32::from_bits(a[d]) - f32::from_bits(b[d]);
        s += diff * diff;
    }
    s.to_bits()
}

fn mean(rows: &Vec<Row>) -> Row {
    let mut r = [0u32; 14];
    for d in 0..14 {
        let mut sum = 0.0f32;
        for row in rows {
            sum += f32::from_bits(row[d]);
        }
        r[d] = (sum / rows.len() as f32).to_bits();
    }
    r
}

/// Which running sums of the weights reach a random part of their sum.
fn reach_in_double(weights: &Vec<u32>, bits: u64) -> Vec<bool> {
    let total: f64 = weights.iter().map(|&w| f32::from_bits(w) as f64).sum();
    let threshold = bits as f64 / (1u64 << 53) as f64 * total;
    let mut cum = 0.0f64;
    weights
        .iter()
        .map(|&w| {
            cum += f32::from_bits(w) as f64;
            cum >= threshold
        })
        .collect()
}

fn pick(weights: &Vec<u32>, bits: u64) -> usize {
    reach_in_double(weights, bits).iter().position(|&r| r).unwrap_or(0)
}

fn anywhere(bits: u64, n: usize) -> usize {
    (bits as f32 / (u32::MAX as f32) * n as f32) as usize
}

fn spread(weights: &Vec<u32>) -> bool {
    let total: f32 = weights.iter().map(|&w| f32::from_bits(w)).sum();
    !(total <= 0.0)
}

fn reach(weights: &Vec<u32>, bits: u64) -> Vec<bool> {
    let total: f32 = weights.iter().map(|&w| f32::from_bits(w)).sum();
    let threshold = bits as f32 / (u32::MAX as f32) * total;
    let mut cum = 0.0f32;
    weights
        .iter()
        .map(|&w| {
            cum += f32::from_bits(w);
            cum >= threshold
        })
        .collect()
}

#[test]
fn the_first_of_the_nearest_centroids_is_taken() {
    let centroids = vec![row(3.0), row(1.0), row(-1.0), row(f32::NAN)];
    assert_eq!(nearest(&row(0.0), &centroids, &dist), (1.0f32.to_bits(), 1));
    assert_eq!(nearest(&row(5.0), &centroids, &dist), (4.0f32.to_bits(), 0));
    assert_eq!(nearest(&row(0.0), &vec![], &dist), (f32::MAX.to_bits(), 0));
    assert_eq!(nearest(&row(f32::NAN), &centroids, &dist), (f32::MAX.to_bits(), 0));
}

#[test]
fn vectors_that_move_are_counted() {
    let vectors = [row(0.0), row(1.0), row(9.0), row(10.0)];
    let centroids = vec![row(0.0), row(10.0)];
    let mut assignments = vec![1, 0, 1, 0, 7];
    assert_eq!(assign_all(&vectors, &centroids, &mut assignments, &dist), 2);
    assert_eq!(assignments, vec![0, 0, 1, 1, 7]);
    assert_eq!(assign_all(&vectors, &centroids, &mut assignments, &dist), 0);
}

#[test]
fn centroids_go_to_the_average_of_their_vectors() {
    let vectors = [row(0.0), row(1.0), row(9.0), row(11.0)];
    let moved = update_centroids(&vectors, &vec![0, 0, 2, 2], 3, &mean);
    assert_eq!(moved.iter().map(first).collect::<Vec<f32>>(), vec![0.5, 0.0, 10.0]);
}

#[test]
fn clustering_separates_two_heaps() {
    let mut vectors = Vec::new();
    for i in 0..10 {
        vectors.push(row(i as f32 * 0.1));
        vectors.push(row(100.0 + i as f32 * 0.1));
    }
    let (centroids, assignments) =
        cluster(&vectors, vec![row(0.0), row(1.0)], 25, &dist, &mean);
    assert!((first(&centroids[0]) - 0.45).abs() < 1e-3);
    assert!((first(&centroids[1]) - 100.45).abs() < 1e-3);
    for (i, &a) in assignments.iter().enumerate() {
        assert_eq!(a as usize, i % 2);
    }
    // no round at all leaves the seeds, and all vectors at the first
    let (same, none) = cluster(&vectors, vec![row(7.0), row(8.0)], 0, &dist, &mean);
    assert_eq!(same.iter().map(first).collect::<Vec<f32>>(), vec![7.0, 8.0]);
    assert!(none.iter().all(|&a| a == 0));
}

#[test]
fn the_random_generator_is_the_usual_one() {
    let mut x = SEED;
    for _ in 0..100 {
        let y = draw(x);
        assert_eq!(y, x.wrapping_mul(6364136223846793005).wrapping_add(1442695040888963407));
        x = y;
    }
}

#[test]
fn seeds_are_drawn_by_distance() {
    let vectors: Vec<Row> = (0..50).map(|i| row((i * i) as f32)).collect();
    let seeds = kmeans_plus_plus_init(&vectors, 8, &dist, &reach_in_double);
    assert_eq!(seeds.len(), 8);

    // the same draws, done step by step
    let mut rng = draw(SEED);
    let mut at = (rng >> 33) as usize % 50;
    let mut taken = vec![at];
    let mut weights = vec![f32::MAX.to_bits(); 50];
    for t in 1..8 {
        for i in 0..50 {
            if taken.contains(&i) {
                weights[i] = 0;
            } else {
                let d = dist(&vectors[i], &vectors[at]);
                if f32::from_bits(d) < f32::from_bits(weights[i]) {
                    weights[i] = d;
                }
            }
        }
        rng = draw(rng);
        at = pick(&weights, rng >> 11);
        taken.push(at);
        assert_eq!(seeds[t], vectors[at]);
    }
    assert_eq!(seeds[0], vectors[taken[0]]);
    // where nothing is reached, the first vector is taken
    let none = kmeans_plus_plus_init(&vectors, 3, &dist, &|w: &Vec<u32>, _| vec![false; w.len()]);
    assert_eq!(none[1..], [vectors[0], vectors[0]]);
    assert_eq!(kmeans_plus_plus_init(&vectors, 0, &dist, &reach_in_double).len(), 1);
}

#[test]
fn there_are_no_more_clusters_than_vectors() {
    assert_eq!(effective_k(100, 512), 100);
    assert_eq!(effective_k(101, 512), 50);
    assert_eq!(effective_k(50_000, 512), 512);
    assert_eq!(effective_k(10, 3), 3);
    assert_eq!(effective_k(10, 0), 1);
    assert_eq!(effective_k(0, 5), 1);
}

#[test]
fn engine_seeds_are_different_vectors() {
    let sample: Vec<Row> = (0..40).map(|i| row(i as f32)).collect();
    let seeds = draw_seeds(&sample, 10, usize::MAX, &dist, &anywhere, &spread, &reach).unwrap();
    assert_eq!(seeds.len(), 10);
    for i in 0..10 {
        for j in 0..i {
            assert_ne!(seeds[i], seeds[j]);
        }
    }
    // one round is not enough for ten seeds
    assert!(draw_seeds(&sample, 10, 1, &dist, &anywhere, &spread, &reach).is_none());
}

#[test]
fn equal_vectors_are_drawn_anywhere() {
    let sample: Vec<Row> = (0..8).map(|_| row(2.5)).collect();
    let seeds = draw_seeds(&sample, 5, 1, &dist, &anywhere, &spread, &reach).unwrap();
    assert_eq!(seeds, vec![row(2.5); 5]);
}

#[test]
fn refining_stops_when_nothing_moves() {
    let sample = [row(0.0), row(1.0), row(10.0), row(11.0)];
    let rested = refine(&sample, vec![row(0.0), row(1.0)], 100, &dist, &mean);
    assert_eq!(rested.iter().map(first).collect::<Vec<f32>>(), vec![0.5, 10.5]);
    let once = refine(&sample, vec![row(0.0), row(1.0)], 1, &dist, &mean);
    assert_eq!(once.iter().map(first).collect::<Vec<f32>>(), vec![0.0, 22.0 / 3.0]);
    // all vectors at the first centroid already: nothing moves, nothing is averaged
    let kept = refine(&sample, vec![row(5.0), row(500.0)], 100, &dist, &mean);
    assert_eq!(kept.iter().map(first).collect::<Vec<f32>>(), vec![5.0, 500.0]);
}

#[test]
fn kmeans_finds_the_heaps() {
    let mut sample = Vec::new();
    for i in 0..30 {
        sample.push(row((i % 3) as f32 * 1000.0 + i as f32));
    }
    let centroids =
        kmeans_f32(&sample, 3, 20, usize::MAX, &dist, &anywhere, &spread, &reach, &mean).unwrap();
    let mut found: Vec<f32> = centroids.iter().map(first).collect();
    found.sort_by(|a, b| a.total_cmp(b));
    assert_eq!(found.len(), 3);
    assert_eq!(found, vec![13.5, 1014.5, 2015.5]);
}

#[test]
fn assigning_twice_moves_nothing() {
    let rows: Vec<Row> = [0.0, 0.2, 1.0, 0.4, 0.9, 0.5].iter().map(|&x| row(x)).collect();
    let centroids = vec![row(0.0), row(1.0), row(0.5)];
    let mut assignments = vec![1u16; 6];
    assert_eq!(assign_all(&rows, &centroids, &mut assignments, &dist), 4);
    assert_eq!(assignments, vec![0, 0, 1, 2, 1, 2]);
    assert_eq!(assign_all(&rows, &centroids, &mut assignments, &dist), 0);
    assert_eq!(assignments, vec![0, 0, 1, 2, 1, 2]);
}

#[test]
fn clustering_twice_gives_the_same_centroids() {
    let rows: Vec<Row> = (0..60).map(|i| row(((i * 37) % 60) as f32 / 60.0)).collect();
    let seeds = || kmeans_plus_plus_init(&rows, 5, &dist, &reach_in_double);
    assert_eq!(seeds(), seeds());
    let centroids = || {
        kmeans_f32(&rows, 5, 20, 1000, &dist, &anywhere, &spread, &reach, &mean).unwrap()
    };
    assert_eq!(centroids().len(), 5);
    assert_eq!(centroids(), centroids());
}
