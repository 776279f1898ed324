use vexlake::order::order_key;
use vexlake::topk::{brute_force_topk, select_top_k, Scored};

fn cosine(a: &[f32], b: &[f32]) -> f32 {
    let dot: f32 = a.iter().zip(b.iter()).map(|(x, y)| x * y).sum();
    let na: f32 = a.iter().map(|x| x * x).sum::<f32>().sqrt();
    let nb: f32 = b.iter().map(|x| x * x).sum::<f32>().sqrt();
    if na == 0.0 || nb == 0.0 {
        return 0.0;
    }
    dot / (na * nb)
}

fn scored(query: &[f32], vectors: &[(u64, Vec<f32>)]) -> Vec<Scored> {
    vectors.iter().map(|(id, v)| Scored { id: *id, score: order_key(cosine(query, v).to_bits()) }).collect()
}

#[test]
fn top_two_of_four() {
    let query = vec![1.0, 0.0, 0.0];
    let vectors = vec![
        (1, vec![1.0, 0.0, 0.0]),
        (2, vec![0.0, 1.0, 0.0]),
        (3, vec![0.5, 0.5, 0.0]),
        (4, vec![-1.0, 0.0, 0.0]),
    ];
    let results = select_top_k(&scored(&query, &vectors), 2);
    assert_eq!(results.len(), 2);
    assert_eq!(results[0].id, 1);
    assert_eq!(results[1].id, 3);
}

#[test]
fn length_is_min_of_k_and_n() {
    let entries = vec![Scored { id: 1, score: 5 }, Scored { id: 2, score: 9 }, Scored { id: 3, score: 7 }];
    assert_eq!(select_top_k(&entries, 0).len(), 0);
    assert_eq!(select_top_k(&entries, 2).len(), 2);
    assert_eq!(select_top_k(&entries, 10).len(), 3);
    assert!(select_top_k(&Vec::new(), 3).is_empty());
}

#[test]
fn ties_keep_input_order_and_scores_descend() {
    let entries = vec![
        Scored { id: 1, score: 5 },
        Scored { id: 2, score: 9 },
        Scored { id: 3, score: 5 },
        Scored { id: 4, score: 9 },
        Scored { id: 5, score: 1 },
    ];
    let r = select_top_k(&entries, 4);
    let ids: Vec<u64> = r.iter().map(|s| s.id).collect();
    assert_eq!(ids, vec![2, 4, 1, 3]);
    for w in r.windows(2) {
        assert!(w[0].score >= w[1].score);
    }
}

#[test]
fn nan_scores_do_not_fail() {
    let entries = vec![
        Scored { id: 1, score: order_key(f32::NAN.to_bits()) },
        Scored { id: 2, score: order_key(0.5f32.to_bits()) },
        Scored { id: 3, score: order_key((-0.5f32).to_bits()) },
    ];
    let r = select_top_k(&entries, 3);
    assert_eq!(r.len(), 3);
    assert_eq!(r[1].id, 2);
    assert_eq!(r[2].id, 3);
}

#[test]
fn same_entries_in_another_order_give_the_same_scores() {
    let a = vec![Scored { id: 1, score: 3 }, Scored { id: 2, score: 8 }, Scored { id: 3, score: 6 }];
    let b = vec![Scored { id: 3, score: 6 }, Scored { id: 1, score: 3 }, Scored { id: 2, score: 8 }];
    let ra = select_top_k(&a, 2);
    let rb = select_top_k(&b, 2);
    assert_eq!(ra, rb);
}

fn bits(v: &[f32]) -> Vec<u32> {
    v.iter().map(|x| x.to_bits()).collect()
}

fn cosine_score(a: &Vec<u32>, b: &Vec<u32>) -> u32 {
    let a: Vec<f32> = a.iter().map(|x| f32::from_bits(*x)).collect();
    let b: Vec<f32> = b.iter().map(|x| f32::from_bits(*x)).collect();
    order_key(cosine(&a, &b).to_bits())
}

#[test]
fn test_brute_force_topk() {
    let query = bits(&[1.0, 0.0, 0.0]);
    let vectors = vec![
        (1, bits(&[1.0, 0.0, 0.0])),
        (2, bits(&[0.0, 1.0, 0.0])),
        (3, bits(&[0.5, 0.5, 0.0])),
        (4, bits(&[-1.0, 0.0, 0.0])),
    ];
    let results = brute_force_topk(&query, &vectors, 2, &cosine_score);
    assert_eq!(results.len(), 2);
    assert_eq!(results[0].id, 1);
    assert_eq!(results[1].id, 3);
}

#[test]
fn brute_force_scores_descend() {
    let query = bits(&[0.3, -0.2, 0.9]);
    let vectors: Vec<(u64, Vec<u32>)> = (0..20u64)
        .map(|i| (i, bits(&[(i as f32) * 0.1 - 1.0, 0.5 - (i as f32) * 0.05, ((i * 7) % 5) as f32])))
        .collect();
    let results = brute_force_topk(&query, &vectors, 7, &cosine_score);
    assert_eq!(results.len(), 7);
    for w in results.windows(2) {
        assert!(w[0].score >= w[1].score);
    }
    assert_eq!(brute_force_topk(&query, &vectors, 50, &cosine_score).len(), 20);
}
