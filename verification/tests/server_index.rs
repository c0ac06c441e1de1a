use rinha::build_index::{index_bytes, write_index, K};
use rinha::centroid_dists::compute_centroid_dists;
use rinha::data::{dataset, init, is_ready, Dataset, LoadError, Service};
use rinha::evaluation::accuracy_test;
use rinha::knn::{knn5_fraud_count, knn5_fraud_count_nprobe, prepare, Query};
use rinha::knn::{raw_distance_at, search_clusters, search_in_tiers, top_k_indices};

const DIMS: usize = 14;

/// Numbers that look random.
struct Noise(u64);

impl Noise {
    fn next(&mut self, below: u64) -> u64 {
        self.0 = self.0.wrapping_mul(2862933555777941757).wrapping_add(3037000493);
        (self.0 >> 33) % below
    }
}

struct Sample {
    rows: Vec<[i16; 14]>,
    labels: Vec<u8>,
    assignments: Vec<u16>,
    centroids: Vec<[u32; 14]>,
}

fn sample(n: usize, k: usize) -> Sample {
    let mut noise = Noise(7);
    let mut centroids = Vec::new();
    for _ in 0..k {
        let mut c = [0u32; 14];
        for d in 0..DIMS {
            c[d] = (noise.next(10001) as f32 / 10000.0).to_bits();
        }
        centroids.push(c);
    }
    let mut rows = Vec::new();
    let mut labels = Vec::new();
    let mut assignments = Vec::new();
    for _ in 0..n {
        let mut row = [0i16; 14];
        for d in 0..DIMS {
            row[d] = noise.next(10001) as i16;
        }
        rows.push(row);
        labels.push(noise.next(2) as u8);
        assignments.push(noise.next(k as u64) as u16);
    }
    Sample { rows, labels, assignments, centroids }
}

fn loaded(s: &Sample) -> Dataset {
    Dataset::load_embedded(&zipped(s)).unwrap()
}

fn gz(b: &[u8]) -> Vec<u8> {
    let mut e = flate2::write::GzEncoder::new(Vec::new(), flate2::Compression::fast());
    std::io::Write::write_all(&mut e, b).unwrap();
    e.finish().unwrap()
}

/// The index of a sample as a gzip stream.
fn zipped(s: &Sample) -> Vec<u8> {
    gz(&index_bytes(&s.rows, &s.labels, &s.assignments, &s.centroids, s.rows.len()))
}

fn square(c: u32, q: u32) -> u32 {
    let d = f32::from_bits(c) - f32::from_bits(q);
    (d * d).to_bits()
}

fn fused(sum: u32, c: u32, q: u32) -> u32 {
    let d = f32::from_bits(c) - f32::from_bits(q);
    d.mul_add(d, f32::from_bits(sum)).to_bits()
}

fn plain(sum: u32, c: u32, q: u32) -> u32 {
    let d = f32::from_bits(c) - f32::from_bits(q);
    (f32::from_bits(sum) + d * d).to_bits()
}

/// The distances of a query to the centroids.
fn centroid_dists(ds: &Dataset, query: &[f32; 14]) -> Vec<u32> {
    compute_centroid_dists(&query.map(f32::to_bits), ds, &square, &fused, &plain)
}

fn round(x: u32) -> i16 {
    (f32::from_bits(x) / 0.0001).round() as i16
}

fn scaled(query: &[f32; 14]) -> [i16; 14] {
    query.map(|x| round(x.to_bits()))
}

fn scale(raw: u32) -> u32 {
    (raw as f32 * 0.0001 * 0.0001).to_bits()
}

fn queries(n: usize) -> Vec<[f32; 14]> {
    let mut noise = Noise(99);
    (0..n)
        .map(|_| {
            let mut q = [0.0f32; 14];
            for d in 0..DIMS {
                q[d] = noise.next(10001) as f32 / 10000.0;
            }
            q
        })
        .collect()
}

/// The number of frauds among the five nearest in some clusters, with the
/// padding of the clusters.
fn brute_force(s: &Sample, clusters: &[usize], q: &[i16; 14]) -> usize {
    let mut found: Vec<(f32, u8)> = Vec::new();
    for &c in clusters {
        let mut members: Vec<(i64, u8)> = Vec::new();
        for i in 0..s.rows.len() {
            if s.assignments[i] as usize == c {
                let sum = (0..DIMS).map(|d| (s.rows[i][d] as i64 - q[d] as i64).pow(2)).sum();
                members.push((sum, s.labels[i]));
            }
        }
        while members.len() % 8 != 0 {
            members.push(((0..DIMS).map(|d| (q[d] as i64).pow(2)).sum(), 0));
        }
        for (sum, label) in members {
            found.push((sum as u32 as f32 * 0.0001 * 0.0001, label));
        }
    }
    found.sort_by(|a, b| a.0.total_cmp(&b.0));
    found.iter().take(5).filter(|f| f.1 == 1).count()
}

#[test]
fn an_index_is_loaded_as_it_was_written() {
    let s = sample(37, 3);
    let ds = loaded(&s);
    assert_eq!((ds.k, ds.n), (3, 37));
    let sizes: Vec<usize> =
        (0..3).map(|c| s.assignments.iter().filter(|&&a| a == c).count()).collect();
    let mut start = 0;
    for c in 0..3 {
        assert_eq!(ds.offsets[c] as usize, start);
        let members: Vec<usize> =
            (0..37).filter(|&i| s.assignments[i] as usize == c).collect();
        for (p, &i) in members.iter().enumerate() {
            let g = start + p;
            assert_eq!(ds.labels[g], s.labels[i]);
            for d in 0..DIMS {
                assert_eq!(ds.blocks[g / 8 * 112 + d * 8 + g % 8], s.rows[i][d]);
            }
        }
        start += (sizes[c] + 7) / 8 * 8;
    }
    assert_eq!(ds.offsets[3] as usize, start);
    assert_eq!(ds.padded_n, start);
    assert_eq!(ds.labels.len(), start);
    assert_eq!(ds.blocks.len(), start * DIMS);
    for c in 0..3 {
        for d in 0..DIMS {
            assert_eq!(ds.centroids[d * 3 + c], s.centroids[c][d]);
        }
    }
}

#[test]
fn the_index_file_starts_with_its_header() {
    let s = sample(9, 2);
    let b = index_bytes(&s.rows, &s.labels, &s.assignments, &s.centroids, 9);
    assert_eq!(&b[..4], b"IVF1");
    assert_eq!(&b[4..16], &[9, 0, 0, 0, 2, 0, 0, 0, 14, 0, 0, 0]);
    let padded = b[16 + 2 * 56 + 8] as usize;
    assert_eq!(b.len(), 16 + 2 * 56 + 12 + padded + padded * 28);
}

#[test]
fn a_stream_that_is_no_index_is_refused() {
    let s = sample(9, 2);
    let mut b = index_bytes(&s.rows, &s.labels, &s.assignments, &s.centroids, 9);
    assert!(Dataset::load_embedded(&gz(&b)).is_ok());
    assert!(matches!(Dataset::load_embedded(&gz(&b[..b.len() - 1])), Err(LoadError::Io)));
    assert!(matches!(Dataset::load_embedded(&gz(&b[..3])), Err(LoadError::Io)));
    assert!(matches!(Dataset::load_embedded(&b), Err(LoadError::Io)));
    b[12] = 15;
    assert!(matches!(Dataset::load_embedded(&gz(&b)), Err(LoadError::BadDims)));
    b[0] = b'J';
    assert!(matches!(Dataset::load_embedded(&gz(&b)), Err(LoadError::BadMagic)));
}

#[test]
fn what_follows_the_index_is_not_looked_at() {
    let s = sample(9, 2);
    let mut b = index_bytes(&s.rows, &s.labels, &s.assignments, &s.centroids, 9);
    b.extend_from_slice(b"more");
    let ds = Dataset::load_embedded(&gz(&b)).unwrap();
    assert_eq!(ds.labels.len(), ds.padded_n);
}

#[test]
fn an_index_is_loaded_from_a_stream_that_breaks_behind_it() {
    let s = sample(300, 12);
    let gz = zipped(&s);
    let whole = Dataset::load_embedded(&gz).unwrap();
    // the checksum and the size at the end are not looked at
    let cut = Dataset::load_embedded(&gz[..gz.len() - 8]).unwrap();
    assert_eq!(cut.blocks, whole.blocks);
    let mut wrong = gz.clone();
    let last = wrong.len() - 6;
    wrong[last] ^= 0xff;
    assert_eq!(Dataset::load_embedded(&wrong).unwrap().blocks, whole.blocks);
    // half a stream is none
    assert!(matches!(Dataset::load_embedded(&gz[..gz.len() / 2]), Err(LoadError::Io)));
}

#[test]
fn a_service_is_ready_once_its_index_was_loaded() {
    let s = sample(9, 2);
    let gz = zipped(&s);
    let mut service = Service::new();
    assert!(!is_ready(&service));
    assert!(matches!(init(&mut service, b"nothing"), Err(LoadError::Io)));
    assert!(!is_ready(&service));
    assert!(init(&mut service, &gz).is_ok());
    assert!(!is_ready(&service));
    service.set_ready();
    assert!(is_ready(&service));
    assert_eq!(dataset(&service).k, 2);
}

#[test]
fn the_nearest_clusters_come_first() {
    let dists: Vec<u32> = [3.0f32, 1.0, 2.0, 1.0, f32::NAN].map(f32::to_bits).to_vec();
    assert_eq!(top_k_indices(&dists, 5, 3), vec![1, 3, 2]);
    assert_eq!(top_k_indices(&dists, 5, 1), vec![1]);
    // no more clusters than there are
    assert_eq!(top_k_indices(&dists, 2, 4), vec![1, 0]);
    assert_eq!(top_k_indices(&dists, 0, 0), vec![]);
}

#[test]
fn slots_that_nothing_fills_name_the_first_cluster() {
    let odd = [f32::NAN, f32::INFINITY, 1.0, f32::NAN, f32::INFINITY, f32::MAX, 1.0, 0.0];
    let dists: Vec<u32> = odd.map(f32::to_bits).to_vec();
    for n in 1..12 {
        // three distances are below the largest finite one; the other slots name
        // the first cluster
        assert_eq!(top_k_indices(&dists, 8, n), [7, 2, 6, 0, 0, 0, 0, 0][..n.min(8)].to_vec());
    }
    let finite: Vec<u32> = [3.0f32, 1.0, 2.0, 1.0, 0.5].map(f32::to_bits).to_vec();
    for n in 1..9 {
        assert_eq!(top_k_indices(&finite, 5, n), [4, 1, 3, 2, 0][..n.min(5)].to_vec());
    }
}

#[test]
fn a_cluster_is_not_counted_twice() {
    let mut blocks: Vec<i16> = (0..8).map(|i| i * 1000).collect();
    blocks.resize(112, 0);
    let ds = Dataset {
        centroids: vec![0; 14],
        offsets: vec![0, 8],
        labels: vec![0, 0, 0, 0, 0, 1, 0, 0],
        blocks,
        k: 1,
        n: 8,
        padded_n: 8,
    };
    let mut q = [0.0f32; 14];
    q[0] = 0.5;
    let dists = centroid_dists(&ds, &q);
    for nprobe in [1, 2, 10, 4096] {
        assert_eq!(search_clusters(&dists, &scaled(&q), &ds, nprobe, &scale), 1);
    }
    assert_eq!(search_in_tiers(&dists, &scaled(&q), &ds, &scale), 1);
}

#[test]
fn two_tiers_count_as_five_or_ten_clusters_do() {
    for k in [3, 7, 16] {
        let s = sample(25 * k, k);
        let ds = loaded(&s);
        for q in queries(40) {
            let dists = centroid_dists(&ds, &q);
            let five = search_clusters(&dists, &scaled(&q), &ds, 5, &scale);
            let ten = search_clusters(&dists, &scaled(&q), &ds, 10, &scale);
            let expected = if five <= 1 || five >= 4 { five } else { ten };
            assert_eq!(search_in_tiers(&dists, &scaled(&q), &ds, &scale), expected);
        }
    }
}

#[test]
fn centroids_that_fill_a_group_of_eight_are_added_up_fused() {
    let s = sample(1, 11);
    let ds = loaded(&s);
    // the sums are traced: 1 for the square, 10 for a fused sum, 1000 for a plain one
    let traced = compute_centroid_dists(
        &[0; 14],
        &ds,
        &|_, _| 1,
        &|sum, _, _| sum + 10,
        &|sum, _, _| sum + 1000,
    );
    assert_eq!(&traced[..8], &[131; 8]);
    assert_eq!(&traced[8..], &[13001; 3]);
    // the numbers that are added up, dimension by dimension
    let summed = compute_centroid_dists(
        &[3; 14],
        &ds,
        &|c, q| c.wrapping_add(q),
        &|sum, c, q| sum.wrapping_mul(31).wrapping_add(c).wrapping_add(q),
        &|sum, c, q| sum.wrapping_mul(37).wrapping_add(c).wrapping_add(q),
    );
    for c in 0..11 {
        let factor = if c < 8 { 31u32 } else { 37 };
        let mut sum = s.centroids[c][0].wrapping_add(3);
        for d in 1..DIMS {
            sum = sum.wrapping_mul(factor).wrapping_add(s.centroids[c][d]).wrapping_add(3);
        }
        assert_eq!(summed[c], sum);
    }
}

#[test]
fn distances_are_sums_of_squares() {
    let s = sample(8, 1);
    let ds = loaded(&s);
    let q = [5000i16; 14];
    for g in 0..8 {
        let sum: i64 = (0..DIMS).map(|d| (s.rows[g][d] as i64 - 5000).pow(2)).sum();
        assert_eq!(raw_distance_at(&ds.blocks, &q, g) as i64, sum);
    }
}

#[test]
fn searching_some_clusters_finds_their_nearest() {
    let s = sample(300, 12);
    let ds = loaded(&s);
    assert!(ds.is_scannable());
    for q in queries(40) {
        let dists = centroid_dists(&ds, &q);
        for nprobe in [1, 3, 12] {
            let probes = top_k_indices(&dists, ds.k, nprobe);
            let count = search_clusters(&dists, &scaled(&q), &ds, nprobe, &scale);
            assert_eq!(count as usize, brute_force(&s, &probes, &scaled(&q)));
        }
    }
}

#[test]
fn the_second_tier_decides_ambiguous_queries() {
    let s = sample(400, 16);
    let ds = loaded(&s);
    let mut ambiguous = 0;
    for q in queries(60) {
        let dists = centroid_dists(&ds, &q);
        let probes = top_k_indices(&dists, ds.k, 10);
        let fast = brute_force(&s, &probes[..5], &scaled(&q));
        let full = brute_force(&s, &probes, &scaled(&q));
        let expected = if fast <= 1 || fast >= 4 { fast } else { full };
        ambiguous += (expected != fast) as usize;
        assert_eq!(search_in_tiers(&dists, &scaled(&q), &ds, &scale) as usize, expected);
    }
    assert!(ambiguous > 0);
}

#[test]
fn accuracy_is_measured_against_all_clusters() {
    let s = sample(300, 12);
    let ds = loaded(&s);
    let all: Vec<Query> = queries(30)
        .iter()
        .map(|q| Query { dists: centroid_dists(&ds, q), scaled: scaled(q) })
        .collect();
    let mut expected = (0, 0, 0);
    for q in &all {
        let e = search_clusters(&q.dists, &q.scaled, &ds, 4096, &scale);
        let t = search_clusters(&q.dists, &q.scaled, &ds, 1, &scale);
        if e != t {
            expected.0 += 1;
            if t >= 3 && e < 3 {
                expected.1 += 1;
            } else {
                expected.2 += 1;
            }
        }
    }
    let r = accuracy_test(&all, &ds, 1, &scale);
    assert_eq!(r.queries, 30);
    assert_eq!((r.mismatches, r.false_positives, r.false_negatives), expected);
    assert!(r.mismatches > 0);
    let same = accuracy_test(&all, &ds, 4096, &scale);
    assert_eq!((same.mismatches, same.false_positives, same.false_negatives), (0, 0, 0));
}

#[test]
fn a_query_without_distances_scans_the_first_cluster_again() {
    // two clusters of eight: the first has one fraud, the second eight
    let mut labels = vec![0u8; 8];
    labels[3] = 1;
    labels.resize(16, 1);
    let mut blocks: Vec<i16> = vec![0; 224];
    for i in 0..8 {
        blocks[i] = (i as i16 - 3).abs() * 1000;
    }
    let ds = Dataset {
        centroids: vec![0; 28],
        offsets: vec![0, 8, 16],
        labels,
        blocks,
        k: 2,
        n: 16,
        padded_n: 16,
    };
    let dists = vec![f32::NAN.to_bits(); 2];
    // the first cluster is scanned twice, so each of its vectors is found twice
    assert_eq!(search_clusters(&dists, &[0; 14], &ds, 2, &scale), 2);
    assert_eq!(search_clusters(&dists, &[0; 14], &ds, 1, &scale), 1);
}

#[test]
fn a_query_is_prepared_and_searched_for() {
    let s = sample(400, 16);
    let ds = loaded(&s);
    for q in queries(20) {
        let bits = q.map(f32::to_bits);
        let p = prepare(&bits, &ds, &square, &fused, &plain, &round);
        assert_eq!(p.dists, centroid_dists(&ds, &q));
        assert_eq!(p.scaled, scaled(&q));
        assert_eq!(
            knn5_fraud_count(&bits, &ds, &square, &fused, &plain, &round, &scale),
            search_in_tiers(&p.dists, &p.scaled, &ds, &scale)
        );
        for nprobe in [1, 4, 16] {
            assert_eq!(
                knn5_fraud_count_nprobe(
                    &bits, &ds, nprobe, &square, &fused, &plain, &round, &scale
                ),
                search_clusters(&p.dists, &p.scaled, &ds, nprobe, &scale)
            );
        }
    }
}

#[test]
fn the_servers_index_has_a_fixed_number_of_clusters() {
    let s = sample(40, K + 1);
    let assignments: Vec<u16> = s.assignments.iter().map(|a| a % K as u16).collect();
    let gz = write_index(&s.rows, &s.labels, &assignments, &s.centroids, 40);
    let ds = Dataset::load_embedded(&gz).unwrap();
    assert_eq!((ds.k, ds.n), (4096, 40));
    assert_eq!(ds.centroids.len(), 14 * 4096);
    for c in [0, 1, 4095] {
        for d in 0..DIMS {
            assert_eq!(ds.centroids[d * 4096 + c], s.centroids[c][d]);
        }
    }
    let of_first = write_index(&s.rows, &s.labels, &assignments, &s.centroids[..K], 40);
    assert_eq!(gz, of_first);
}
