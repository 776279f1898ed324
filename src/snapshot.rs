//! The word encoding of a graph index: a flat sequence of `u64` that
//! lists the parameters, the entry point and every node, and the readers
//! that take it apart again. `HnswIndex::to_words` and
//! `HnswIndex::from_words` build on these.
use vstd::prelude::*;
use crate::hnsw::{HnswConfig, HnswNode, IndexView};

verus! {

/// Word encoding of a list of positions: its length, then the positions.
pub open spec fn list_words(l: Seq<usize>) -> Seq<u64> {
    seq![l.len() as u64] + l.map_values(|p: usize| p as u64)
}

/// Word encoding of a node's lists, layer 0 first.
pub open spec fn lists_words(ls: Seq<Vec<usize>>) -> Seq<u64>
    decreases ls.len(),
{
    if ls.len() == 0 {
        Seq::empty()
    } else {
        lists_words(ls.drop_last()) + list_words(ls.last()@)
    }
}

/// Word encoding of a node: id, vector length, vector, layer count, lists.
pub open spec fn node_words(nd: HnswNode) -> Seq<u64> {
    seq![nd.id, nd.vector.len() as u64] + nd.vector@.map_values(|x: u32| x as u64) + seq![
        nd.neighbors.len() as u64,
    ] + lists_words(nd.neighbors@)
}

/// Word encoding of the node table, in table order.
pub open spec fn nodes_words(ns: Seq<HnswNode>) -> Seq<u64>
    decreases ns.len(),
{
    if ns.len() == 0 {
        Seq::empty()
    } else {
        nodes_words(ns.drop_last()) + node_words(ns.last())
    }
}

/// The entry point as a word: 0 for none, else its position plus one.
pub open spec fn entry_word(e: Option<usize>) -> u64 {
    match e {
        None => 0,
        Some(p) => (p + 1) as u64,
    }
}

/// Word encoding of an index: the four parameters, the entry point, the
/// node count, the layer-draw scale, then the nodes. The top layer is not stored: it is the entry
/// point's.
pub open spec fn index_words(v: IndexView) -> Seq<u64> {
    seq![
        v.config.dimension as u64,
        v.config.m as u64,
        v.config.m_max_0 as u64,
        v.config.ef_construction as u64,
        entry_word(v.entry_point),
        v.nodes.len() as u64,
        v.config.ml_bits,
    ] + nodes_words(v.nodes)
}

pub(crate) fn push_list(words: &mut Vec<u64>, l: &Vec<usize>)
    ensures
        final(words)@ == old(words)@ + list_words(l@),
{
    words.push(l.len() as u64);
    let ghost base = words@;
    let mut j: usize = 0;
    while j < l.len()
        invariant
            0 <= j <= l.len(),
            words@ == base + l@.take(j as int).map_values(|p: usize| p as u64),
        decreases l.len() - j,
    {
        words.push(l[j] as u64);
        j += 1;
        assert(l@.take(j as int).map_values(|p: usize| p as u64) =~= l@.take(j - 1).map_values(
            |p: usize| p as u64,
        ).push(l@[j - 1] as u64));
    }
    assert(l@.take(l.len() as int) =~= l@);
    assert(base + l@.map_values(|p: usize| p as u64) =~= old(words)@ + list_words(l@));
}

pub(crate) fn push_node(words: &mut Vec<u64>, nd: &HnswNode)
    ensures
        final(words)@ == old(words)@ + node_words(*nd),
{
    words.push(nd.id);
    words.push(nd.vector.len() as u64);
    let ghost base = words@;
    let mut j: usize = 0;
    while j < nd.vector.len()
        invariant
            0 <= j <= nd.vector.len(),
            words@ == base + nd.vector@.take(j as int).map_values(|x: u32| x as u64),
        decreases nd.vector.len() - j,
    {
        words.push(nd.vector[j] as u64);
        j += 1;
        assert(nd.vector@.take(j as int).map_values(|x: u32| x as u64) =~= nd.vector@.take(j - 1).map_values(
            |x: u32| x as u64,
        ).push(nd.vector@[j - 1] as u64));
    }
    assert(nd.vector@.take(nd.vector.len() as int) =~= nd.vector@);
    words.push(nd.neighbors.len() as u64);
    let ghost base2 = words@;
    let mut l: usize = 0;
    while l < nd.neighbors.len()
        invariant
            0 <= l <= nd.neighbors.len(),
            words@ == base2 + lists_words(nd.neighbors@.take(l as int)),
        decreases nd.neighbors.len() - l,
    {
        push_list(words, &nd.neighbors[l]);
        l += 1;
        assert(nd.neighbors@.take(l as int).drop_last() =~= nd.neighbors@.take(l - 1));
    }
    assert(nd.neighbors@.take(nd.neighbors.len() as int) =~= nd.neighbors@);
    assert(words@ =~= old(words)@ + node_words(*nd));
}

/// `words` holds `enc` from position `pos` on.
pub open spec fn holds_at(words: Seq<u64>, pos: int, enc: Seq<u64>) -> bool {
    0 <= pos && pos + enc.len() <= words.len() && words.subrange(pos, pos + enc.len()) == enc
}

pub(crate) proof fn lemma_holds_split(words: Seq<u64>, pos: int, a: Seq<u64>, b: Seq<u64>)
    requires
        holds_at(words, pos, a + b),
    ensures
        holds_at(words, pos, a),
        holds_at(words, pos + a.len(), b),
{
    let whole = words.subrange(pos, pos + (a + b).len());
    assert(whole == a + b);
    assert(words.subrange(pos, pos + a.len()) =~= whole.subrange(0, a.len() as int));
    assert((a + b).subrange(0, a.len() as int) =~= a);
    assert(words.subrange(pos + a.len(), pos + a.len() + b.len()) =~= whole.subrange(
        a.len() as int,
        (a + b).len() as int,
    ));
    assert((a + b).subrange(a.len() as int, (a + b).len() as int) =~= b);
}

pub(crate) proof fn lemma_lists_prefix(ls: Seq<Vec<usize>>, l: int)
    requires
        0 <= l <= ls.len(),
    ensures
        lists_words(ls) == lists_words(ls.take(l)) + lists_words(ls).subrange(
            lists_words(ls.take(l)).len() as int,
            lists_words(ls).len() as int,
        ),
        lists_words(ls.take(l)).len() <= lists_words(ls).len(),
    decreases ls.len() - l,
{
    if l == ls.len() {
        assert(ls.take(l) =~= ls);
        assert(lists_words(ls) =~= lists_words(ls.take(l)) + Seq::<u64>::empty());
    } else {
        lemma_lists_prefix(ls, l + 1);
        assert(ls.take(l + 1).drop_last() =~= ls.take(l));
        let a = lists_words(ls.take(l));
        let b = list_words(ls[l]@);
        let whole = lists_words(ls);
        assert(lists_words(ls.take(l + 1)) == a + b);
        assert(whole =~= a + whole.subrange(a.len() as int, whole.len() as int));
    }
}

/// A node that a snapshot may hold for a table of `n` nodes.
pub open spec fn node_fits(nd: HnswNode, n: int, config: HnswConfig) -> bool {
    &&& nd.vector.len() == config.dimension
    &&& 1 <= nd.neighbors.len() <= 0x8000_0000
    &&& forall|l: int| 0 <= l < nd.neighbors.len() ==> (#[trigger] nd.neighbors[l]).len() <= config.cap(l)
    &&& forall|l: int, j: int|
        0 <= l < nd.neighbors.len() && 0 <= j < nd.neighbors[l].len() ==> (#[trigger] nd.neighbors[l][j]) < n
}

/// Two nodes hold the same id, vector and lists.
pub open spec fn same_node(a: HnswNode, b: HnswNode) -> bool {
    &&& a.id == b.id
    &&& a.vector@ == b.vector@
    &&& a.neighbors.len() == b.neighbors.len()
    &&& forall|l: int| 0 <= l < a.neighbors.len() ==> (#[trigger] a.neighbors[l])@ == b.neighbors[l]@
}

pub(crate) fn read_list(words: &Vec<u64>, pos: usize, n: usize, cap: usize) -> (r: Option<(Vec<usize>, usize)>)
    requires
        pos <= words.len(),
    ensures
        r matches Some((l, end)) ==> end == pos + 1 + l.len() && end <= words.len() && l.len() <= cap && forall|j: int|
            0 <= j < l.len() ==> #[trigger] l@[j] < n,
        r matches Some((l, end)) ==> words@.subrange(pos as int, end as int) == list_words(l@),
        forall|t: Seq<usize>|
            t.len() <= cap && (forall|j: int| 0 <= j < t.len() ==> #[trigger] t[j] < n) && #[trigger] holds_at(
                words@,
                pos as int,
                list_words(t),
            ) ==> (r matches Some((l, end)) && l@ == t && end == pos + list_words(t).len()),
{
    proof {
        assert forall|t: Seq<usize>| #[trigger] holds_at(words@, pos as int, list_words(t)) implies pos
            < words.len() && words@[pos as int] == t.len() as u64 && pos + 1 + t.len() <= words.len() by {
            assert(list_words(t).len() == 1 + t.len());
            assert(words@.subrange(pos as int, pos + list_words(t).len())[0] == list_words(t)[0]);
        }
    }
    if pos >= words.len() {
        return None;
    }
    let len = words[pos];
    if len > cap as u64 {
        return None;
    }
    let len = len as usize;
    if words.len() - (pos + 1) < len {
        return None;
    }
    let mut l: Vec<usize> = Vec::new();
    let mut j: usize = 0;
    while j < len
        invariant
            pos < words.len(),
            len <= cap,
            len <= words.len() - (pos + 1),
            len as u64 == words@[pos as int],
            0 <= j <= len,
            l.len() == j,
            forall|k: int| 0 <= k < l.len() ==> #[trigger] l@[k] < n,
            words@.subrange(pos + 1, pos + 1 + j) == l@.map_values(|q: usize| q as u64),
            forall|t: Seq<usize>|
                t.len() <= cap && (forall|k: int| 0 <= k < t.len() ==> #[trigger] t[k] < n) && #[trigger] holds_at(
                    words@,
                    pos as int,
                    list_words(t),
                ) ==> l@ == t.take(j as int),
        decreases len - j,
    {
        let p = words[pos + 1 + j];
        proof {
            assert forall|t: Seq<usize>|
                t.len() <= cap && (forall|k: int| 0 <= k < t.len() ==> #[trigger] t[k] < n) && #[trigger] holds_at(
                    words@,
                    pos as int,
                    list_words(t),
                ) implies p == t[j as int] as u64 && j < t.len() by {
                assert(words@[pos as int] == list_words(t)[0]);
                assert(t.len() as u64 == len as u64);
                assert(words@[pos + 1 + j] == list_words(t)[1 + j]);
            }
        }
        if p >= n as u64 {
            return None;
        }
        l.push(p as usize);
        j += 1;
        assert(words@.subrange(pos + 1, pos + 1 + j) =~= l@.map_values(|q: usize| q as u64));
        proof {
            assert forall|t: Seq<usize>|
                t.len() <= cap && (forall|k: int| 0 <= k < t.len() ==> #[trigger] t[k] < n) && #[trigger] holds_at(
                    words@,
                    pos as int,
                    list_words(t),
                ) implies l@ == t.take(j as int) by {
                assert(words@[pos as int] == list_words(t)[0]);
                assert(l@ =~= t.take(j as int));
            }
        }
    }
    proof {
        assert forall|t: Seq<usize>|
            t.len() <= cap && (forall|k: int| 0 <= k < t.len() ==> #[trigger] t[k] < n) && #[trigger] holds_at(
                words@,
                pos as int,
                list_words(t),
            ) implies l@ == t by {
            assert(words@[pos as int] == list_words(t)[0]);
            assert(t.take(len as int) =~= t);
        }
        assert(words@.subrange(pos as int, pos + 1 + len) =~= list_words(l@));
    }
    Some((l, pos + 1 + len))
}

pub(crate) proof fn lemma_node_layout(t: HnswNode)
    ensures
        node_words(t) == seq![t.id, t.vector.len() as u64] + t.vector@.map_values(|x: u32| x as u64)
            + (seq![t.neighbors.len() as u64] + lists_words(t.neighbors@)),
{
    assert(node_words(t) =~= seq![t.id, t.vector.len() as u64] + t.vector@.map_values(|x: u32| x as u64)
        + (seq![t.neighbors.len() as u64] + lists_words(t.neighbors@)));
}

pub(crate) fn read_node(words: &Vec<u64>, pos: usize, n: usize, config: HnswConfig) -> (r: Option<(HnswNode, usize)>)
    requires
        pos <= words.len(),
    ensures
        r matches Some((nd, end)) ==> pos < end <= words.len() && node_fits(nd, n as int, config),
        r matches Some((nd, end)) ==> words@.subrange(pos as int, end as int) == node_words(nd),
        forall|t: HnswNode|
            node_fits(t, n as int, config) && #[trigger] holds_at(words@, pos as int, node_words(t)) ==> (r matches Some(
                (nd, end),
            ) && same_node(nd, t) && end == pos + node_words(t).len()),
{
    proof {
        assert forall|t: HnswNode| #[trigger] holds_at(words@, pos as int, node_words(t)) implies pos + 2
            + t.vector.len() + 1 <= words.len() && words@[pos as int] == t.id && words@[pos + 1] == t.vector.len() as u64
            && words@[pos + 2 + t.vector.len()] == t.neighbors.len() as u64 && (forall|k: int|
            0 <= k < t.vector.len() ==> words@[pos + 2 + k] == #[trigger] t.vector@[k] as u64) && holds_at(
            words@,
            pos + 3 + t.vector.len(),
            lists_words(t.neighbors@),
        ) by {
            lemma_node_layout(t);
            let head = seq![t.id, t.vector.len() as u64];
            let vm = t.vector@.map_values(|x: u32| x as u64);
            let tail = seq![t.neighbors.len() as u64] + lists_words(t.neighbors@);
            lemma_holds_split(words@, pos as int, head + vm, tail);
            lemma_holds_split(words@, pos as int, head, vm);
            lemma_holds_split(words@, pos + 2 + t.vector.len(), seq![t.neighbors.len() as u64], lists_words(t.neighbors@));
            assert(words@.subrange(pos as int, pos + 2)[0] == words@[pos as int]);
            assert(words@.subrange(pos as int, pos + 2)[1] == words@[pos + 1]);
            assert(words@.subrange(pos + 2 + t.vector.len(), pos + 3 + t.vector.len())[0] == words@[pos + 2 + t.vector.len()]);
            assert forall|k: int| 0 <= k < t.vector.len() implies words@[pos + 2 + k] == #[trigger] t.vector@[k] as u64 by {
                assert(words@.subrange(pos + 2, pos + 2 + vm.len())[k] == vm[k]);
            }
        }
    }
    if words.len() - pos < 2 {
        return None;
    }
    let id = words[pos];
    let vlen = words[pos + 1];
    if vlen != config.dimension as u64 || words.len() - (pos + 2) < config.dimension {
        return None;
    }
    let dim = config.dimension;
    let mut vector: Vec<u32> = Vec::new();
    let mut k: usize = 0;
    while k < dim
        invariant
            pos + 2 + dim <= words.len(),
            dim == config.dimension,
            0 <= k <= dim,
            vector.len() == k,
            words@.subrange(pos + 2, pos + 2 + k) == vector@.map_values(|x: u32| x as u64),
            forall|t: HnswNode|
                node_fits(t, n as int, config) && #[trigger] holds_at(words@, pos as int, node_words(t))
                    ==> vector@ == t.vector@.take(k as int),
            forall|t: HnswNode| #[trigger] holds_at(words@, pos as int, node_words(t)) ==> (forall|i: int|
                0 <= i < t.vector.len() ==> words@[pos + 2 + i] == #[trigger] t.vector@[i] as u64),
        decreases dim - k,
    {
        let w = words[pos + 2 + k];
        proof {
            assert forall|t: HnswNode|
                node_fits(t, n as int, config) && #[trigger] holds_at(words@, pos as int, node_words(t))
                    implies w == t.vector@[k as int] as u64 by {}
        }
        if w > 0xffff_ffffu64 {
            return None;
        }
        vector.push(w as u32);
        k += 1;
        assert(words@.subrange(pos + 2, pos + 2 + k) =~= vector@.map_values(|x: u32| x as u64));
        proof {
            assert forall|t: HnswNode|
                node_fits(t, n as int, config) && #[trigger] holds_at(words@, pos as int, node_words(t))
                    implies vector@ == t.vector@.take(k as int) by {
                assert(words@[pos + 2 + (k - 1)] == t.vector@[k - 1] as u64);
                assert(vector@ =~= t.vector@.take(k as int));
            }
        }
    }
    let cur = pos + 2 + dim;
    if cur >= words.len() {
        return None;
    }
    let count = words[cur];
    if count < 1 || count > 0x8000_0000u64 {
        return None;
    }
    let count = count as usize;
    proof {
        assert forall|t: HnswNode|
            node_fits(t, n as int, config) && #[trigger] holds_at(words@, pos as int, node_words(t))
                implies t.neighbors.len() == count && holds_at(words@, cur + 1, lists_words(t.neighbors@))
                && vector@ == t.vector@ by {
            assert(t.vector@.take(dim as int) =~= t.vector@);
        }
        assert forall|t: HnswNode|
            node_fits(t, n as int, config) && #[trigger] holds_at(words@, pos as int, node_words(t))
                implies lists_words(t.neighbors@.take(0)).len() == 0 by {
            assert(t.neighbors@.take(0) =~= Seq::<Vec<usize>>::empty());
        }
    }
    let mut lists: Vec<Vec<usize>> = Vec::new();
    let mut at = cur + 1;
    let mut l: usize = 0;
    while l < count
        invariant
            cur + 1 <= at <= words.len(),
            cur == pos + 2 + dim,
            dim == config.dimension,
            vector.len() == dim,
            1 <= count <= 0x8000_0000,
            count as u64 == words@[cur as int],
            0 <= l <= count,
            lists.len() == l,
            words@.subrange(cur + 1, at as int) == lists_words(lists@),
            words@.subrange(pos + 2, cur as int) == vector@.map_values(|x: u32| x as u64),
            words@[pos as int] == id,
            words@[pos + 1] == dim as u64,
            forall|i: int| 0 <= i < l ==> (#[trigger] lists@[i]).len() <= config.cap(i),
            forall|i: int, j: int| 0 <= i < l && 0 <= j < lists@[i].len() ==> (#[trigger] lists@[i][j]) < n,
            forall|t: HnswNode|
                node_fits(t, n as int, config) && #[trigger] holds_at(words@, pos as int, node_words(t)) ==> {
                    &&& t.neighbors.len() == count
                    &&& holds_at(words@, cur + 1, lists_words(t.neighbors@))
                    &&& vector@ == t.vector@
                    &&& at == cur + 1 + lists_words(t.neighbors@.take(l as int)).len()
                    &&& forall|i: int| 0 <= i < l ==> (#[trigger] lists@[i])@ == t.neighbors[i]@
                },
        decreases count - l,
    {
        let cap = config.layer_cap(l);
        proof {
            assert forall|t: HnswNode|
                node_fits(t, n as int, config) && #[trigger] holds_at(words@, pos as int, node_words(t))
                    implies holds_at(words@, at as int, list_words(t.neighbors[l as int]@)) && t.neighbors.len() == count by {
                let ls = t.neighbors@;
                lemma_lists_prefix(ls, l + 1);
                assert(ls.take(l + 1).drop_last() =~= ls.take(l as int));
                let whole = lists_words(ls);
                let pre = lists_words(ls.take(l + 1));
                lemma_holds_split(words@, cur + 1, pre, whole.subrange(pre.len() as int, whole.len() as int));
                lemma_holds_split(words@, cur + 1, lists_words(ls.take(l as int)), list_words(ls[l as int]@));
            }
        }
        match read_list(words, at, n, cap) {
            None => {
                return None;
            },
            Some((list, end)) => {
                let ghost old_lists = lists@;
                lists.push(list);
                proof {
                    assert(lists@.drop_last() =~= old_lists);
                    assert(lists_words(lists@) == lists_words(old_lists) + list_words(list@));
                    assert(words@.subrange(cur + 1, end as int) =~= words@.subrange(cur + 1, at as int) + words@.subrange(at as int, end as int));
                    assert forall|t: HnswNode|
                        node_fits(t, n as int, config) && #[trigger] holds_at(words@, pos as int, node_words(t)) implies {
                            &&& t.neighbors.len() == count
                            &&& holds_at(words@, cur + 1, lists_words(t.neighbors@))
                            &&& vector@ == t.vector@
                            &&& end == cur + 1 + lists_words(t.neighbors@.take(l + 1)).len()
                            &&& forall|i: int| 0 <= i < l + 1 ==> (#[trigger] lists@[i])@ == t.neighbors[i]@
                        } by {
                        let ls = t.neighbors@;
                        assert(ls.take(l + 1).drop_last() =~= ls.take(l as int));
                        assert(t.neighbors[l as int].len() <= config.cap(l as int));
                        assert forall|j: int| 0 <= j < t.neighbors[l as int]@.len() implies #[trigger] t.neighbors[l as int]@[j] < n by {
                            assert(t.neighbors[l as int][j] < n);
                        }
                        assert forall|i: int| 0 <= i < l + 1 implies (#[trigger] lists@[i])@ == t.neighbors[i]@ by {
                            if i < l {
                                assert(lists@[i] == old_lists[i]);
                            }
                        }
                    }
                    assert forall|i: int, j: int| 0 <= i < l + 1 && 0 <= j < lists@[i].len() implies (#[trigger] lists@[i][j]) < n by {
                        if i < l {
                            assert(lists@[i] == old_lists[i]);
                        }
                    }
                }
                at = end;
            },
        }
        l += 1;
    }
    let node = HnswNode { id, vector, neighbors: lists };
    proof {
        assert(words@.subrange(pos as int, at as int) =~= seq![id, dim as u64] + words@.subrange(pos + 2, cur as int)
            + (seq![count as u64] + words@.subrange(cur + 1, at as int)));
        assert(node_words(node) =~= seq![node.id, node.vector.len() as u64] + node.vector@.map_values(|x: u32| x as u64)
            + (seq![node.neighbors.len() as u64] + lists_words(node.neighbors@)));
        assert forall|t: HnswNode|
            node_fits(t, n as int, config) && #[trigger] holds_at(words@, pos as int, node_words(t)) implies same_node(node, t)
                && at == pos + node_words(t).len() by {
            lemma_node_layout(t);
            assert(t.neighbors@.take(count as int) =~= t.neighbors@);
        }
    }
    Some((node, at))
}

pub(crate) proof fn lemma_nodes_prefix(ns: Seq<HnswNode>, i: int)
    requires
        0 <= i <= ns.len(),
    ensures
        nodes_words(ns) == nodes_words(ns.take(i)) + nodes_words(ns).subrange(
            nodes_words(ns.take(i)).len() as int,
            nodes_words(ns).len() as int,
        ),
        nodes_words(ns.take(i)).len() <= nodes_words(ns).len(),
    decreases ns.len() - i,
{
    if i == ns.len() {
        assert(ns.take(i) =~= ns);
        assert(nodes_words(ns) =~= nodes_words(ns.take(i)) + Seq::<u64>::empty());
    } else {
        lemma_nodes_prefix(ns, i + 1);
        assert(ns.take(i + 1).drop_last() =~= ns.take(i));
        let a = nodes_words(ns.take(i));
        let whole = nodes_words(ns);
        assert(nodes_words(ns.take(i + 1)) == a + node_words(ns[i]));
        assert(whole =~= a + whole.subrange(a.len() as int, whole.len() as int));
    }
}

} // verus!
