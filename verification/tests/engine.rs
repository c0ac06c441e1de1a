use rinha::build_index::{cluster_order, engine_bytes, sample_positions, write_engine_index};
use rinha::evaluation::{count_fraud_results, is_approved};
use rinha::index::cluster_lists;
use rinha::quantized::{quantize, value_ranges, write_quantized};
use rinha::search::find_closest_centroids;
use rinha::vector::{index_is_readable, SearchResult, VectorSearch};

const DIMS: usize = 14;

fn to_half(x: u32) -> u16 {
    half::f16::from_f32(f32::from_bits(x)).to_bits()
}

fn scaled_to_half(x: i16) -> u16 {
    half::f16::from_f32(x as f32 / 10000.0).to_bits()
}

/// Vectors in clusters of the given sizes.
struct Sample {
    rows: Vec<[i16; 14]>,
    labels: Vec<u8>,
    assignments: Vec<u16>,
    centroids: Vec<[u32; 14]>,
}

fn sample(sizes: &[usize]) -> Sample {
    let mut s =
        Sample { rows: vec![], labels: vec![], assignments: vec![], centroids: vec![] };
    for (c, &size) in sizes.iter().enumerate() {
        let mut centroid = [0u32; 14];
        for d in 0..DIMS {
            centroid[d] = (c as f32 / 8.0 + d as f32 / 64.0).to_bits();
        }
        s.centroids.push(centroid);
        for p in 0..size {
            let mut row = [0i16; 14];
            for d in 0..DIMS {
                row[d] = (c * 1000 + p * 37 + d * 11) as i16 - 500;
            }
            s.rows.push(row);
            s.labels.push(((p + c) % 2) as u8);
            s.assignments.push(c as u16);
        }
    }
    s
}

fn loaded(s: &Sample) -> VectorSearch {
    let n = s.rows.len();
    let gz = write_engine_index(&s.rows, &s.labels, &s.assignments, &s.centroids, n);
    VectorSearch::load(&gz, to_half, scaled_to_half).unwrap()
}

fn distance(halves: &[u16], v: usize, query: &[f32; 14]) -> f32 {
    let mut sum = 0.0f32;
    for d in 0..DIMS {
        let diff = query[d] - half::f16::from_bits(halves[v * DIMS + d]).to_f32();
        sum += diff * diff;
    }
    sum
}

fn centroid_dists(s: &VectorSearch, query: &[f32; 14]) -> Vec<u32> {
    (0..s.k).map(|c| distance(&s.centroids, c, query).to_bits()).collect()
}

#[test]
fn an_engine_index_is_loaded_as_it_was_written() {
    let s = sample(&[8, 16, 0, 3]);
    let engine = loaded(&s);
    assert_eq!((engine.k, engine.count, engine.total_blocks), (4, 27, 4));
    assert_eq!(
        engine.cluster_offsets,
        vec![(0, 8), (8 * 28, 16), (24 * 28, 0), (24 * 28, 3)]
    );
    assert_eq!(engine.labels, s.labels);
    for v in 0..27 {
        for d in 0..DIMS {
            assert_eq!(engine.vectors[v * DIMS + d], scaled_to_half(s.rows[v][d]));
        }
    }
    for c in 0..4 {
        for d in 0..DIMS {
            assert_eq!(engine.centroids[c * DIMS + d], to_half(s.centroids[c][d]));
        }
    }
    assert_eq!(engine.memory_usage(), 27 * 28 + 27 + 4 * 28 + 4 * 16);
}

#[test]
fn padding_takes_up_places() {
    // the first cluster is padded to eight places, so three vectors are left out
    let s = sample(&[5, 6]);
    let engine = loaded(&s);
    assert_eq!(engine.cluster_offsets, vec![(0, 8), (8 * 28, 3)]);
    assert_eq!(&engine.labels[..5], &s.labels[..5]);
    assert_eq!(&engine.labels[5..8], &[0, 0, 0]);
    assert_eq!(&engine.labels[8..], &s.labels[5..8]);
    assert!(engine.vectors[5 * DIMS..8 * DIMS].iter().all(|&x| x == 0));
    assert_eq!(engine.vectors[8 * DIMS], scaled_to_half(s.rows[5][0]));
}

#[test]
fn bytes_that_are_no_index_are_not_loaded() {
    let s = sample(&[8, 3]);
    let b = engine_bytes(&s.rows, &s.labels, &s.assignments, &s.centroids, 11);
    assert!(index_is_readable(&b));
    assert!(!index_is_readable(&b[..15]));
    assert!(!index_is_readable(&b[..b.len() - 1]));
    let mut wrong = b.clone();
    wrong[3] = b'2';
    assert!(!index_is_readable(&wrong));
    let mut wrong = b.clone();
    wrong[12] = 13;
    assert!(!index_is_readable(&wrong));
    // offsets that fall
    let mut wrong = b.clone();
    wrong[16 + 2 * 56] = 9;
    assert!(!index_is_readable(&wrong));
    assert!(VectorSearch::load(&b, to_half, scaled_to_half).is_none());
    let gz = write_engine_index(&s.rows, &s.labels, &s.assignments, &s.centroids, 11);
    assert!(VectorSearch::load(&gz[..gz.len() - 1], to_half, scaled_to_half).is_none());
    let direct = VectorSearch::from_bytes(&b, to_half, scaled_to_half);
    assert_eq!(direct.labels, loaded(&s).labels);
}

#[test]
fn the_closest_centroids_come_first() {
    let dists: Vec<u32> = [0.5f32, 0.25, 0.75, 0.25, -0.0].map(f32::to_bits).to_vec();
    assert_eq!(find_closest_centroids(&dists, 5, 5), vec![4, 1, 3, 0, 2]);
    assert_eq!(find_closest_centroids(&dists, 5, 2), vec![4, 1]);
    assert_eq!(find_closest_centroids(&dists, 3, 1), vec![1]);
    assert_eq!(find_closest_centroids(&dists, 3, 0), Vec::<usize>::new());
}

#[test]
fn a_search_finds_the_nearest_of_its_clusters() {
    let s = sample(&[16, 24, 8, 16, 8]);
    let engine = loaded(&s);
    for step in 0..20 {
        let mut query = [0.0f32; 14];
        for d in 0..DIMS {
            query[d] = step as f32 * 0.03 + d as f32 * 0.001;
        }
        let dists = centroid_dists(&engine, &query);
        for n_probe in 1..6 {
            let probes = find_closest_centroids(&dists, engine.k, n_probe);
            let mut expected: Vec<(f32, usize)> = Vec::new();
            for &c in &probes {
                let (at, n) = engine.cluster_offsets[c];
                for v in at / 28..at / 28 + n {
                    expected.push((distance(&engine.vectors, v, &query), v));
                }
            }
            expected.sort_by(|a, b| a.0.total_cmp(&b.0));
            let found = engine.search_with_probe(&dists, n_probe, |v| {
                distance(&engine.vectors, v, &query).to_bits()
            });
            assert_eq!(found.len(), 5);
            for (r, e) in found.iter().zip(&expected) {
                assert_eq!(f32::from_bits(r.distance), e.0);
                assert_eq!(r.label, engine.labels[r.node_id as usize]);
                assert_eq!(
                    f32::from_bits(r.distance),
                    distance(&engine.vectors, r.node_id as usize, &query)
                );
            }
        }
        let four = engine.search_with_probe(&dists, 4, |v| {
            distance(&engine.vectors, v, &query).to_bits()
        });
        let plain = engine.search(&dists, 99, |v| distance(&engine.vectors, v, &query).to_bits());
        assert_eq!(plain, four);
    }
}

#[test]
fn a_search_of_few_vectors_finds_all_of_them() {
    let s = sample(&[3]);
    let engine = loaded(&s);
    let keys = [0.5f32, 0.25, 0.75];
    let found = engine.search_with_probe(&[0], 1, |v| keys[v].to_bits());
    assert_eq!(found.iter().map(|r| r.node_id).collect::<Vec<u32>>(), vec![1, 0, 2]);
    let nothing = sample(&[0]);
    let empty = loaded(&nothing);
    assert!(empty.search_with_probe(&[], 1, |_| 0).is_empty());
    assert!(empty.search(&[], 5, |_| 0).is_empty());
}

#[test]
fn of_equally_far_neighbours_the_last_one_leaves() {
    let s = sample(&[8]);
    let engine = loaded(&s);
    // five at the same distance, then a nearer one: the fifth leaves
    let keys = [1.0f32, 1.0, 1.0, 1.0, 1.0, 0.5, 1.0, 2.0];
    let found = engine.search_clusters(&[0], &|v: usize| keys[v].to_bits());
    assert_eq!(found.iter().map(|r| r.node_id).collect::<Vec<u32>>(), vec![5, 0, 1, 2, 3]);
}

#[test]
fn a_transaction_is_approved_below_three_fifths() {
    let results = |labels: &[u8]| -> Vec<SearchResult> {
        labels.iter().map(|&label| SearchResult { node_id: 0, distance: 0, label }).collect()
    };
    assert!(is_approved(&results(&[])));
    assert!(is_approved(&results(&[1, 1, 0, 0, 0])));
    assert!(!is_approved(&results(&[1, 0, 1, 0, 1])));
    assert!(!is_approved(&results(&[1])));
    assert!(is_approved(&results(&[1, 0])));
    assert!(!is_approved(&results(&[1, 1, 0])));
    assert!(is_approved(&results(&[2, 2, 2])));
    assert_eq!(count_fraud_results(&results(&[1, 2, 1, 0])), 2);
    for len in 1..6usize {
        for count in 0..len + 1 {
            let labels: Vec<u8> = (0..len).map(|i| (i < count) as u8).collect();
            let score = count as f32 / len as f32;
            assert_eq!(is_approved(&results(&labels)), score < 0.6);
        }
    }
}

#[test]
fn a_sample_is_spread_evenly() {
    assert_eq!(sample_positions(10, 3), vec![0, 3, 6]);
    assert_eq!(sample_positions(9, 9), vec![0, 1, 2, 3, 4, 5, 6, 7, 8]);
    assert_eq!(sample_positions(2, 3), vec![0, 0, 0]);
}

#[test]
fn the_companion_file_holds_a_byte_for_each_number() {
    let mut rows = vec![[0u32; 14]; 3];
    for d in 0..DIMS {
        rows[0][d] = (0.25f32).to_bits();
        rows[1][d] = (-0.5f32 - d as f32).to_bits();
        rows[2][d] = f32::NAN.to_bits();
    }
    let (least, greatest) = value_ranges(&rows);
    for d in 0..DIMS {
        assert_eq!(f32::from_bits(least[d]), -0.5 - d as f32);
        assert_eq!(f32::from_bits(greatest[d]), 0.25);
    }
    let (least_of_none, greatest_of_none) = value_ranges(&[]);
    assert_eq!(f32::from_bits(least_of_none[0]), f32::MAX);
    assert_eq!(f32::from_bits(greatest_of_none[0]), f32::MIN);

    let order = cluster_order(&cluster_lists(&[1, 0, 1], 2));
    assert_eq!(order, vec![1, 0, 2]);
    let values = quantize(&rows, &order, &least, &greatest, &|x, a, b| {
        (x == a) as u8 + 2 * (x == b) as u8
    });
    assert_eq!(values.len(), 3 * DIMS);
    assert!(values[..DIMS].iter().all(|&v| v == 1));
    assert!(values[DIMS..2 * DIMS].iter().all(|&v| v == 2));
    assert!(values[2 * DIMS..].iter().all(|&v| v == 0));

    let gz = write_quantized(3, &least, &greatest, &values);
    let mut b = Vec::new();
    std::io::Read::read_to_end(&mut flate2::read::GzDecoder::new(&gz[..]), &mut b).unwrap();
    assert_eq!(&b[..12], b"QI8V\x03\x00\x00\x00\x0e\x00\x00\x00");
    assert_eq!(&b[12..16], &(-0.5f32).to_le_bytes());
    assert_eq!(&b[12 + 56..12 + 60], &(0.25f32).to_le_bytes());
    assert_eq!(&b[12 + 112..], &values[..]);
}

#[test]
fn no_vector_is_found_twice() {
    let engine = loaded(&sample(&[8, 16, 0, 3]));
    for x in [0.0f32, 0.1, 0.25, 0.4] {
        let query = [x; 14];
        let dists = centroid_dists(&engine, &query);
        for probe in 1..5 {
            let found = engine
                .search_with_probe(&dists, probe, |v| distance(&engine.vectors, v, &query).to_bits());
            let mut ids: Vec<u32> = found.iter().map(|r| r.node_id).collect();
            ids.sort();
            ids.dedup();
            assert_eq!(ids.len(), found.len());
        }
    }
}

#[test]
fn centroids_are_loaded_as_they_were_written() {
    let s = sample(&[8, 16, 0, 3]);
    let engine = loaded(&s);
    for c in 0..4 {
        for d in 0..DIMS {
            assert_eq!(engine.centroids[c * DIMS + d], to_half(s.centroids[c][d]));
        }
    }
}
