//! Exhaustive top-K selection: the reference answer that approximate search
//! is measured against.
use vstd::prelude::*;

verus! {

broadcast use vstd::seq_lib::group_to_multiset_ensures;

/// An id with the order key of its similarity to a query (higher is better).
#[derive(Clone, Copy, Debug, PartialEq, Eq)]
pub struct Scored {
    pub id: u64,
    pub score: u32,
}

/// Scores never increase along `s`.
pub open spec fn non_increasing(s: Seq<Scored>) -> bool {
    forall|i: int, j: int| 0 <= i < j < s.len() ==> s[i].score >= s[j].score
}

/// `r` is the first `k` entries of some arrangement of `entries` by
/// non-increasing score.
pub open spec fn top_of(entries: Seq<Scored>, k: nat, r: Seq<Scored>) -> bool {
    exists|ranked: Seq<Scored>|
        #[trigger] ranked.to_multiset() == entries.to_multiset() && non_increasing(ranked)
            && r == ranked.take(if k < entries.len() { k as int } else { entries.len() as int })
}

fn insert_ranked(v: &mut Vec<Scored>, e: Scored)
    requires
        non_increasing(old(v)@),
    ensures
        non_increasing(final(v)@),
        final(v)@.to_multiset() == old(v)@.to_multiset().insert(e),
{
    let mut k = v.len();
    while k > 0 && v[k - 1].score < e.score
        invariant
            0 <= k <= v.len(),
            non_increasing(v@),
            forall|i: int| k <= i < v.len() ==> v@[i].score < e.score,
        decreases k,
    {
        k -= 1;
    }
    let ghost before = v@;
    v.insert(k, e);
    proof {
        assert(v@.remove(k as int) =~= before);
        assert(v@[k as int] == e);
        assert(v@.to_multiset().count(e) > 0);
        assert(v@.to_multiset() =~= before.to_multiset().insert(e));
    }
}

/// The `k` entries with the highest scores, by non-increasing score; entries
/// with equal scores keep their input order. The result has `min(k, n)`
/// entries.
pub fn select_top_k(entries: &Vec<Scored>, k: usize) -> (r: Vec<Scored>)
    ensures
        r.len() == if k < entries.len() { k } else { entries.len() },
        non_increasing(r@),
        top_of(entries@, k as nat, r@),
{
    let mut ranked: Vec<Scored> = Vec::new();
    let mut i: usize = 0;
    while i < entries.len()
        invariant
            0 <= i <= entries.len(),
            non_increasing(ranked@),
            ranked@.to_multiset() == entries@.take(i as int).to_multiset(),
        decreases entries.len() - i,
    {
        proof {
            assert(entries@.take(i as int + 1) =~= entries@.take(i as int).push(entries@[i as int]));
        }
        insert_ranked(&mut ranked, entries[i]);
        i += 1;
    }
    proof {
        assert(entries@.take(entries.len() as int) =~= entries@);
    }
    let ghost full = ranked@;
    let cut = if k < ranked.len() { k } else { ranked.len() };
    ranked.truncate(cut);
    proof {
        assert(ranked@ =~= full.take(cut as int));
        assert(full.to_multiset() == entries@.to_multiset());
        assert(full.len() == full.to_multiset().len());
        assert(entries@.len() == entries@.to_multiset().len());
        assert(full.len() == entries.len());
    }
    ranked
}

/// The `k` entries of `vectors` most similar to `query` by the metric
/// `sim` (an order key of the similarity, higher is closer), by
/// non-increasing similarity.
pub fn brute_force_topk<F: Fn(&Vec<u32>, &Vec<u32>) -> u32>(
    query: &Vec<u32>,
    vectors: &Vec<(u64, Vec<u32>)>,
    k: usize,
    sim: &F,
) -> (r: Vec<Scored>)
    requires
        forall|a: &Vec<u32>, b: &Vec<u32>| #[trigger] sim.requires((a, b)),
    ensures
        r.len() == if k < vectors.len() { k } else { vectors.len() },
        non_increasing(r@),
        exists|entries: Seq<Scored>|
            {
                &&& entries.len() == vectors.len()
                &&& forall|i: int|
                    0 <= i < entries.len() ==> (#[trigger] entries[i]).id == vectors@[i].0 && sim.ensures(
                        (query, &vectors@[i].1),
                        entries[i].score,
                    )
                &&& top_of(entries, k as nat, r@)
            },
{
    let mut entries: Vec<Scored> = Vec::new();
    let mut i: usize = 0;
    while i < vectors.len()
        invariant
            forall|a: &Vec<u32>, b: &Vec<u32>| #[trigger] sim.requires((a, b)),
            0 <= i <= vectors.len(),
            entries.len() == i,
            forall|j: int|
                0 <= j < i ==> (#[trigger] entries@[j]).id == vectors@[j].0 && sim.ensures(
                    (query, &vectors@[j].1),
                    entries@[j].score,
                ),
        decreases vectors.len() - i,
    {
        let s = sim(query, &vectors[i].1);
        entries.push(Scored { id: vectors[i].0, score: s });
        i += 1;
    }
    select_top_k(&entries, k)
}

/// The scores along `s`.
pub open spec fn scores(s: Seq<Scored>) -> Seq<u32> {
    s.map_values(|e: Scored| e.score)
}

proof fn lemma_scores_multiset(x: Seq<Scored>, y: Seq<Scored>)
    requires
        x.to_multiset() == y.to_multiset(),
    ensures
        scores(x).to_multiset() == scores(y).to_multiset(),
    decreases x.len(),
{
    broadcast use vstd::multiset::group_multiset_axioms;

    if x.len() == 0 {
        assert(y.len() == y.to_multiset().len());
        assert(scores(x) =~= Seq::<u32>::empty());
        assert(scores(y) =~= Seq::<u32>::empty());
    } else {
        let a = x.last();
        let xs = x.drop_last();
        assert(x =~= xs.push(a));
        assert(x.to_multiset().count(a) > 0);
        assert(y.contains(a));
        let i = choose|i: int| 0 <= i < y.len() && y[i] == a;
        let ys = y.remove(i);
        assert(ys.to_multiset() =~= y.to_multiset().remove(a));
        assert(xs.to_multiset() =~= x.to_multiset().remove(a));
        lemma_scores_multiset(xs, ys);
        assert(scores(x) =~= scores(xs).push(a.score));
        assert(scores(ys) =~= scores(y).remove(i));
        assert(scores(y)[i] == a.score);
        assert(scores(ys).to_multiset() =~= scores(y).to_multiset().remove(a.score));
        assert(scores(y).to_multiset().count(a.score) > 0);
        assert(scores(y).to_multiset() =~= scores(ys).to_multiset().insert(a.score));
    }
}

/// Selection ignores the order of its input: two lists holding the same
/// entries give the same number of results with the same scores rank by
/// rank, so a parallel scorer that yields the entries in another order
/// ranks like the sequential one.
pub proof fn lemma_top_k_order_free(a: Seq<Scored>, b: Seq<Scored>, k: nat, ra: Seq<Scored>, rb: Seq<Scored>)
    requires
        a.to_multiset() == b.to_multiset(),
        top_of(a, k, ra),
        top_of(b, k, rb),
    ensures
        ra.len() == rb.len(),
        scores(ra) == scores(rb),
{
    let xa = choose|x: Seq<Scored>|
        #[trigger] x.to_multiset() == a.to_multiset() && non_increasing(x) && ra == x.take(
            if k < a.len() { k as int } else { a.len() as int },
        );
    let xb = choose|x: Seq<Scored>|
        #[trigger] x.to_multiset() == b.to_multiset() && non_increasing(x) && rb == x.take(
            if k < b.len() { k as int } else { b.len() as int },
        );
    assert(a.len() == a.to_multiset().len());
    assert(b.len() == b.to_multiset().len());
    assert(xa.len() == xa.to_multiset().len());
    assert(xb.len() == xb.to_multiset().len());
    lemma_scores_multiset(xa, xb);
    let geq = |p: u32, q: u32| p >= q;
    assert(vstd::relations::sorted_by(scores(xa), geq));
    assert(vstd::relations::sorted_by(scores(xb), geq));
    vstd::seq_lib::lemma_sorted_unique(scores(xa), scores(xb), geq);
    assert(scores(ra) =~= scores(xa).take(ra.len() as int));
    assert(scores(rb) =~= scores(xb).take(rb.len() as int));
}

} // verus!
