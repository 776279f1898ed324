use vexlake::columnar::VectorBatch;
use vexlake::Error;

fn bits(v: &[f32]) -> Vec<u32> {
    v.iter().map(|x| x.to_bits()).collect()
}

#[test]
fn two_rows_flatten_row_major() {
    let ids = vec![1, 2];
    let vectors = vec![bits(&[1.0, 2.0, 3.0]), bits(&[4.0, 5.0, 6.0])];
    let metadata = vec![Some("{\"tag\": \"a\"}".to_string()), None];
    let batch = VectorBatch::create(3, ids, &vectors, metadata).unwrap();
    assert_eq!(batch.num_rows(), 2);
    assert_eq!(batch.ids, vec![1, 2]);
    assert_eq!(batch.values, bits(&[1.0, 2.0, 3.0, 4.0, 5.0, 6.0]));
    assert_eq!(batch.metadata[0].as_deref(), Some("{\"tag\": \"a\"}"));
    assert_eq!(batch.metadata[1], None);
}

#[test]
fn unequal_columns_are_invalid() {
    let vectors = vec![bits(&[1.0, 2.0, 3.0])];
    let err = VectorBatch::create(3, vec![1, 2], &vectors, vec![None]).unwrap_err();
    assert!(matches!(err, Error::InvalidConfig(_)));
}

#[test]
fn wrong_vector_length_is_a_dimension_mismatch() {
    let vectors = vec![bits(&[1.0, 2.0, 3.0]), bits(&[4.0, 5.0]), bits(&[1.0])];
    let err = VectorBatch::create(3, vec![1, 2, 3], &vectors, vec![None, None, None]).unwrap_err();
    assert!(matches!(err, Error::DimensionMismatch { expected: 3, actual: 2 }));
}

#[test]
fn empty_batch() {
    let batch = VectorBatch::create(4, Vec::new(), &Vec::new(), Vec::new()).unwrap();
    assert_eq!(batch.num_rows(), 0);
    assert!(batch.values.is_empty());
}
