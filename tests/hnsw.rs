use vexlake::hnsw::{HnswConfig, HnswIndex, Neighbor};
use vexlake::order::{key_bits, order_key};
use vexlake::Error;

fn bits(v: &[f32]) -> Vec<u32> {
    v.iter().map(|x| x.to_bits()).collect()
}

fn cosine(a: &[f32], b: &[f32]) -> f32 {
    let dot: f32 = a.iter().zip(b.iter()).map(|(x, y)| x * y).sum();
    let na: f32 = a.iter().map(|x| x * x).sum::<f32>().sqrt();
    let nb: f32 = b.iter().map(|x| x * x).sum::<f32>().sqrt();
    if na == 0.0 || nb == 0.0 {
        return 0.0;
    }
    dot / (na * nb)
}

fn floats(v: &Vec<u32>) -> Vec<f32> {
    v.iter().map(|x| f32::from_bits(*x)).collect()
}

fn cosine_distance(a: &Vec<u32>, b: &Vec<u32>) -> u32 {
    order_key((1.0 - cosine(&floats(a), &floats(b))).to_bits())
}

fn score(n: &Neighbor) -> f32 {
    1.0 - f32::from_bits(key_bits(n.distance))
}

#[test]
fn default_layer_scale_is_one_over_ln_16() {
    let c = HnswConfig::default();
    assert_eq!(f64::from_bits(c.ml_bits), 1.0 / 16.0f64.ln());
}

#[test]
fn small_graphs_are_connected() {
    let mut index = HnswIndex::new(config3());
    index.insert(1, bits(&[1.0, 0.0, 0.0]), 0, &cosine_distance).unwrap();
    index.insert(2, bits(&[0.0, 1.0, 0.0]), 0, &cosine_distance).unwrap();
    index.insert(3, bits(&[0.0, 0.0, 1.0]), 0, &cosine_distance).unwrap();
    for q in [[1.0, 0.0, 0.0], [0.0, 1.0, 0.0], [0.0, 0.0, 1.0]] {
        assert_eq!(index.search(&bits(&q), 3, 10, &cosine_distance).unwrap().len(), 3);
    }
}

fn config3() -> HnswConfig {
    HnswConfig { dimension: 3, ..Default::default() }
}

struct Lcg(u64);

impl Lcg {
    fn next(&mut self) -> u64 {
        self.0 = self.0.wrapping_mul(6364136223846793005).wrapping_add(1442695040888963407);
        self.0 >> 33
    }

    fn unit(&mut self) -> f32 {
        (self.next() % 2_000_001) as f32 / 1_000_000.0 - 1.0
    }

    fn level(&mut self) -> u16 {
        let mut l = 0u16;
        while self.next() % 16 == 0 {
            l += 1;
        }
        l
    }
}

fn random_unit(rng: &mut Lcg, d: usize) -> Vec<f32> {
    let mut v: Vec<f32> = (0..d).map(|_| rng.unit()).collect();
    let n: f32 = v.iter().map(|x| x * x).sum::<f32>().sqrt();
    for x in v.iter_mut() {
        *x /= n;
    }
    v
}

#[test]
fn test_hnsw_basic() {
    let mut index = HnswIndex::new(config3());
    index.insert(1, bits(&[1.0, 0.0, 0.0]), 0, &cosine_distance).unwrap();
    index.insert(2, bits(&[0.0, 1.0, 0.0]), 1, &cosine_distance).unwrap();
    index.insert(3, bits(&[0.0, 0.0, 1.0]), 0, &cosine_distance).unwrap();

    let results = index.search(&bits(&[1.0, 0.1, 0.1]), 2, 10, &cosine_distance).unwrap();
    assert_eq!(results.len(), 2);
    assert_eq!(results[0].id, 1);
}

#[test]
fn test_hnsw_serialization() {
    let mut index = HnswIndex::new(config3());
    index.insert(1, bits(&[1.0, 0.0, 0.0]), 0, &cosine_distance).unwrap();

    let bytes = index.serialize().unwrap();
    let loaded = HnswIndex::deserialize(&bytes).unwrap();

    let results = loaded.search(&bits(&[1.0, 0.0, 0.0]), 1, 10, &cosine_distance).unwrap();
    assert_eq!(results[0].id, 1);
}

#[test]
fn empty_index_returns_nothing() {
    let index = HnswIndex::new(config3());
    let results = index.search(&bits(&[1.0, 0.0, 0.0]), 5, 10, &cosine_distance).unwrap();
    assert!(results.is_empty());
}

#[test]
fn search_scores_descend_and_ids_are_distinct() {
    let mut index = HnswIndex::new(config3());
    index.insert(1, bits(&[1.0, 0.0, 0.0]), 2, &cosine_distance).unwrap();
    index.insert(2, bits(&[0.0, 1.0, 0.0]), 0, &cosine_distance).unwrap();
    index.insert(3, bits(&[0.0, 0.0, 1.0]), 1, &cosine_distance).unwrap();
    index.insert(4, bits(&[0.7, 0.7, 0.0]), 0, &cosine_distance).unwrap();
    let results = index.search(&bits(&[1.0, 0.1, 0.1]), 10, 10, &cosine_distance).unwrap();
    assert_eq!(results.len(), 4);
    assert_eq!(results[0].id, 1);
    assert_eq!(results[1].id, 4);
    for w in results.windows(2) {
        assert!(score(&w[0]) >= score(&w[1]));
    }
    assert!((score(&results[0]) - 0.990148).abs() < 1e-5);
}

#[test]
fn wrong_length_vectors_are_rejected() {
    let mut index = HnswIndex::new(config3());
    let err = index.insert(1, bits(&[1.0, 0.0]), 0, &cosine_distance).unwrap_err();
    assert!(matches!(err, Error::DimensionMismatch { expected: 3, actual: 2 }));
    assert_eq!(index.len(), 0);
    index.insert(1, bits(&[1.0, 0.0, 0.0]), 0, &cosine_distance).unwrap();
    let err = index.search(&bits(&[1.0, 0.0, 0.0, 0.0]), 1, 10, &cosine_distance).unwrap_err();
    assert!(matches!(err, Error::DimensionMismatch { expected: 3, actual: 4 }));
}

#[test]
fn repeated_id_is_rejected() {
    let mut index = HnswIndex::new(config3());
    index.insert(7, bits(&[1.0, 0.0, 0.0]), 0, &cosine_distance).unwrap();
    let err = index.insert(7, bits(&[0.0, 1.0, 0.0]), 0, &cosine_distance).unwrap_err();
    assert!(matches!(err, Error::Index(_)));
    assert_eq!(index.len(), 1);
}

#[test]
fn malformed_bytes_are_an_index_error() {
    let err = HnswIndex::deserialize(&[1, 2, 3]).unwrap_err();
    assert!(matches!(err, Error::Index(_)));
    assert!(matches!(HnswIndex::deserialize(&[]), Err(Error::Index(_))));
    let mut index = HnswIndex::new(config3());
    index.insert(1, bits(&[1.0, 0.0, 0.0]), 0, &cosine_distance).unwrap();
    let mut bytes = index.serialize().unwrap();
    let last = bytes.len() - 1;
    bytes[last] = 0xff;
    assert!(matches!(HnswIndex::deserialize(&bytes), Err(Error::Index(_))));
}

#[test]
fn word_encoding_layout() {
    let ml = 0.5f64.to_bits();
    let mut index = HnswIndex::new(HnswConfig { dimension: 2, m: 4, m_max_0: 8, ef_construction: 16, ml_bits: ml });
    index.insert(9, vec![5, 6], 0, &cosine_distance).unwrap();
    assert_eq!(index.to_words(), vec![2, 4, 8, 16, 1, 1, ml, 9, 2, 5, 6, 1, 0]);
    let bytes = index.serialize().unwrap();
    assert_eq!(bytes.len(), 8 + 13 * 8);
    assert_eq!(&bytes[0..8], &[13, 0, 0, 0, 0, 0, 0, 0]);
    let back = HnswIndex::deserialize(&bytes).unwrap();
    assert_eq!(back.config().ml_bits, ml);
    assert_eq!(back.serialize().unwrap(), bytes);
    assert_eq!(&bytes[8..16], &[2, 0, 0, 0, 0, 0, 0, 0]);
}

#[test]
fn round_trip_keeps_answers() {
    let mut rng = Lcg(7);
    let mut index = HnswIndex::new(HnswConfig { dimension: 8, ..Default::default() });
    for id in 0..200u64 {
        let v = random_unit(&mut rng, 8);
        let level = rng.level();
        index.insert(id, bits(&v), level, &cosine_distance).unwrap();
    }
    let bytes = index.serialize().unwrap();
    let loaded = HnswIndex::deserialize(&bytes).unwrap();
    assert_eq!(loaded.len(), 200);
    assert_eq!(loaded.to_words(), index.to_words());
    for _ in 0..20 {
        let q = bits(&random_unit(&mut rng, 8));
        let a: Vec<u64> = index.search(&q, 10, 20, &cosine_distance).unwrap().iter().map(|n| n.id).collect();
        let b: Vec<u64> = loaded.search(&q, 10, 20, &cosine_distance).unwrap().iter().map(|n| n.id).collect();
        assert_eq!(a, b);
    }
}

fn recall_at_one(d: usize, n: u64, queries: usize, seed: u64) -> f64 {
    let mut rng = Lcg(seed);
    let mut index = HnswIndex::new(HnswConfig { dimension: d, ..Default::default() });
    let mut data: Vec<(u64, Vec<f32>)> = Vec::new();
    for id in 0..n {
        let v = random_unit(&mut rng, d);
        let level = rng.level();
        index.insert(id, bits(&v), level, &cosine_distance).unwrap();
        data.push((id, v));
    }
    let mut hits = 0;
    for _ in 0..queries {
        let q = random_unit(&mut rng, d);
        let got = index.search(&bits(&q), 1, 50, &cosine_distance).unwrap();
        let best = data
            .iter()
            .map(|(id, v)| (*id, 1.0 - cosine(&q, v)))
            .fold((u64::MAX, f32::INFINITY), |acc, x| if x.1 < acc.1 { x } else { acc });
        if got[0].id == best.0 {
            hits += 1;
        }
    }
    hits as f64 / queries as f64
}

#[test]
fn recall_on_random_unit_vectors() {
    assert!(recall_at_one(8, 300, 50, 11) >= 0.9);
    assert!(recall_at_one(32, 300, 50, 12) >= 0.9);
}

#[test]
fn three_orthogonal_vectors_top_result() {
    let mut index = HnswIndex::new(config3());
    index.insert(1, bits(&[1.0, 0.0, 0.0]), 0, &cosine_distance).unwrap();
    index.insert(2, bits(&[0.0, 1.0, 0.0]), 0, &cosine_distance).unwrap();
    index.insert(3, bits(&[0.0, 0.0, 1.0]), 0, &cosine_distance).unwrap();
    let results = index.search(&bits(&[1.0, 0.1, 0.1]), 2, 10, &cosine_distance).unwrap();
    assert_eq!(results[0].id, 1);
    assert_eq!(results.len(), 2);
}

#[test]
fn recall_in_128_dimensions() {
    assert!(recall_at_one(128, 200, 30, 13) >= 0.9);
}
