use vexlake::flat::{IndexConfig, VectorIndex};
use vexlake::order::order_key;
use vexlake::Error;

fn bits(v: &[f32]) -> Vec<u32> {
    v.iter().map(|x| x.to_bits()).collect()
}

fn cosine_score(a: &Vec<u32>, b: &Vec<u32>) -> u32 {
    let a: Vec<f32> = a.iter().map(|x| f32::from_bits(*x)).collect();
    let b: Vec<f32> = b.iter().map(|x| f32::from_bits(*x)).collect();
    let dot: f32 = a.iter().zip(b.iter()).map(|(x, y)| x * y).sum();
    let na: f32 = a.iter().map(|x| x * x).sum::<f32>().sqrt();
    let nb: f32 = b.iter().map(|x| x * x).sum::<f32>().sqrt();
    let s = if na == 0.0 || nb == 0.0 { 0.0 } else { dot / (na * nb) };
    order_key(s.to_bits())
}

#[test]
fn test_index_insert_and_get() {
    let mut index = VectorIndex::with_dimension(3);
    let id = index.insert(bits(&[1.0, 2.0, 3.0])).unwrap();
    assert_eq!(id, 0);
    let vec = index.get(id).unwrap();
    assert_eq!(vec, &bits(&[1.0, 2.0, 3.0]));
}

#[test]
fn test_index_dimension_mismatch() {
    let mut index = VectorIndex::with_dimension(3);
    let result = index.insert(bits(&[1.0, 2.0]));
    assert!(result.is_err());
}

#[test]
fn test_index_search() {
    let mut index = VectorIndex::with_dimension(3);
    index.insert(bits(&[1.0, 0.0, 0.0])).unwrap();
    index.insert(bits(&[0.0, 1.0, 0.0])).unwrap();
    index.insert(bits(&[0.5, 0.5, 0.0])).unwrap();
    let results = index.search(&bits(&[1.0, 0.0, 0.0]), 2, &cosine_score).unwrap();
    assert_eq!(results.len(), 2);
    assert_eq!(results[0].id, 0);
}

#[test]
fn test_index_delete() {
    let mut index = VectorIndex::with_dimension(3);
    let id = index.insert(bits(&[1.0, 2.0, 3.0])).unwrap();
    assert!(index.get(id).is_some());
    assert!(index.delete(id));
    assert!(index.get(id).is_none());
}

#[test]
fn test_index_clear() {
    let mut index = VectorIndex::with_dimension(3);
    index.insert(bits(&[1.0, 2.0, 3.0])).unwrap();
    index.insert(bits(&[4.0, 5.0, 6.0])).unwrap();
    assert_eq!(index.len(), 2);
    index.clear();
    assert!(index.is_empty());
}

#[test]
fn ids_follow_explicit_ids() {
    let mut index = VectorIndex::new(IndexConfig::default());
    assert_eq!(index.dimension(), 128);
    let v = vec![0u32; 128];
    index.insert_with_id(10, v.clone()).unwrap();
    assert_eq!(index.insert(v.clone()).unwrap(), 11);
    index.insert_with_id(3, v.clone()).unwrap();
    assert_eq!(index.insert(v.clone()).unwrap(), 12);
    assert_eq!(index.len(), 4);
    assert!(!index.delete(99));
    let err = index.search(&vec![0u32; 3], 1, &cosine_score).unwrap_err();
    assert!(matches!(err, Error::DimensionMismatch { expected: 128, actual: 3 }));
}
