//! Hierarchical Navigable Small World graph index.
//!
//! Nodes live in a table and are addressed internally by their position in it;
//! the caller's 64-bit ids are mapped to positions on insertion. Distances are
//! produced by a caller-supplied metric that returns an order key (smaller is
//! closer), so the index itself only compares integers.
use vstd::prelude::*;
use std::collections::HashMap;
use crate::error::Error;
use crate::snapshot::{
    entry_word, holds_at, index_words, lemma_holds_split, lemma_nodes_prefix, node_fits, node_words, nodes_words, push_node,
    read_node, same_node,
};
use crate::wire::{begins_with_frame, decode_words, encode_words, error_text, framed, lemma_frame_unique};

verus! {

broadcast use vstd::std_specs::hash::group_hash_axioms;

/// Bit pattern of `1 / ln(16)` as a double.
pub const DEFAULT_ML_BITS: u64 = 0x3fd7_1547_652b_82fe;

/// Index parameters.
#[derive(Clone, Copy, Debug)]
pub struct HnswConfig {
    /// Length of every vector in the index.
    pub dimension: usize,
    /// Neighbor budget on the layers above 0.
    pub m: usize,
    /// Neighbor budget on layer 0.
    pub m_max_0: usize,
    /// Beam width used while inserting.
    pub ef_construction: usize,
    /// Bit pattern of the double-precision layer-draw scale `ml`
    /// (`1 / ln(m)` by default); the caller draws each node's layer with it.
    pub ml_bits: u64,
}

impl HnswConfig {
    /// Neighbor budget of a layer.
    pub open spec fn cap(&self, layer: int) -> int {
        if layer == 0 {
            self.m_max_0 as int
        } else {
            self.m as int
        }
    }

    /// The default parameters for vectors of the given length.
    pub fn with_dimension(dimension: usize) -> (c: HnswConfig)
        ensures
            c.dimension == dimension,
            c.m == 16,
            c.m_max_0 == 32,
            c.ef_construction == 200,
            c.ml_bits == DEFAULT_ML_BITS,
    {
        HnswConfig { dimension, m: 16, m_max_0: 32, ef_construction: 200, ml_bits: DEFAULT_ML_BITS }
    }

    pub(crate) fn layer_cap(&self, layer: usize) -> (r: usize)
        ensures
            r == self.cap(layer as int),
    {
        if layer == 0 {
            self.m_max_0
        } else {
            self.m
        }
    }
}

impl Default for HnswConfig {
    fn default() -> (c: HnswConfig)
        ensures
            c.dimension == 128,
            c.m == 16,
            c.m_max_0 == 32,
            c.ef_construction == 200,
            c.ml_bits == DEFAULT_ML_BITS,
    {
        HnswConfig::with_dimension(128)
    }
}

/// A node of the graph: its id, its vector, and its out-edges per layer.
/// `neighbors[l]` lists positions in the node table; its length is the
/// node's top layer plus one.
#[derive(Debug)]
pub struct HnswNode {
    pub id: u64,
    pub vector: Vec<u32>,
    pub neighbors: Vec<Vec<usize>>,
}

impl HnswNode {
    /// The node's top layer.
    pub open spec fn top(&self) -> int {
        self.neighbors.len() - 1
    }
}

/// One answer of a search: an id and its distance key to the query.
#[derive(Clone, Copy, Debug, PartialEq, Eq)]
pub struct Neighbor {
    pub id: u64,
    pub distance: u32,
}

/// Inserts `c` into an ascending list, after every entry that is not farther.
fn insert_ascending(v: &mut Vec<Candidate>, c: Candidate) -> (k: usize)
    requires
        ascending(old(v)@),
    ensures
        k <= old(v)@.len(),
        final(v)@ == old(v)@.insert(k as int, c),
        ascending(final(v)@),
{
    let mut k = v.len();
    while k > 0 && v[k - 1].distance > c.distance
        invariant
            0 <= k <= v.len(),
            ascending(v@),
            forall|i: int| k <= i < v.len() ==> v@[i].distance > c.distance,
        decreases k,
    {
        k -= 1;
    }
    v.insert(k, c);
    k
}

/// Inserts `c` into a descending list, after every entry that is not closer.
fn insert_descending(v: &mut Vec<Candidate>, c: Candidate) -> (k: usize)
    requires
        descending(old(v)@),
    ensures
        k <= old(v)@.len(),
        final(v)@ == old(v)@.insert(k as int, c),
        descending(final(v)@),
{
    let mut k = v.len();
    while k > 0 && v[k - 1].distance < c.distance
        invariant
            0 <= k <= v.len(),
            descending(v@),
            forall|i: int| k <= i < v.len() ==> v@[i].distance < c.distance,
        decreases k,
    {
        k -= 1;
    }
    v.insert(k, c);
    k
}

/// A node position with its distance key to the query being served.
#[derive(Clone, Copy, Debug)]
pub struct Candidate {
    pub position: usize,
    pub distance: u32,
}

/// The metric accepts every pair of vectors.
pub open spec fn total_metric<F: Fn(&Vec<u32>, &Vec<u32>) -> u32>(dist: &F) -> bool {
    forall|a: &Vec<u32>, b: &Vec<u32>| #[trigger] dist.requires((a, b))
}

/// `d` is a distance key that the metric returned for `(a, b)`.
pub open spec fn measured<F: Fn(&Vec<u32>, &Vec<u32>) -> u32>(
    dist: &F,
    a: &Vec<u32>,
    b: &Vec<u32>,
    d: u32,
) -> bool {
    dist.ensures((a, b), d)
}

/// Distances never decrease along `s`.
pub open spec fn ascending(s: Seq<Candidate>) -> bool {
    forall|i: int, j: int| 0 <= i < j < s.len() ==> s[i].distance <= s[j].distance
}

/// Distances never increase along `s`.
pub open spec fn descending(s: Seq<Candidate>) -> bool {
    forall|i: int, j: int| 0 <= i < j < s.len() ==> s[i].distance >= s[j].distance
}

/// Layer `layer` has an edge from node `a` to node `b`.
pub open spec fn edge(nodes: Seq<HnswNode>, layer: int, a: usize, b: usize) -> bool {
    a < nodes.len() && 0 <= layer < nodes[a as int].neighbors.len() && nodes[a as int].neighbors[layer]@.contains(b)
}

/// `path` follows layer-`layer` edges from node to node.
pub open spec fn walk(nodes: Seq<HnswNode>, layer: int, path: Seq<usize>) -> bool {
    forall|i: int| #![trigger path[i]] 0 <= i < path.len() - 1 ==> edge(nodes, layer, path[i], path[i + 1])
}

/// Node `to` can be reached from node `from` along layer-`layer` edges.
pub open spec fn reachable(nodes: Seq<HnswNode>, layer: int, from: usize, to: usize) -> bool {
    exists|path: Seq<usize>| path.len() >= 1 && path[0] == from && path.last() == to && #[trigger] walk(nodes, layer, path)
}

proof fn lemma_reach_step(nodes: Seq<HnswNode>, layer: int, from: usize, p: usize, j: int)
    requires
        reachable(nodes, layer, from, p),
        p < nodes.len(),
        0 <= layer < nodes[p as int].neighbors.len(),
        0 <= j < nodes[p as int].neighbors[layer].len(),
    ensures
        reachable(nodes, layer, from, nodes[p as int].neighbors[layer]@[j]),
{
    let path = choose|path: Seq<usize>| path.len() >= 1 && path[0] == from && path.last() == p && #[trigger] walk(nodes, layer, path);
    let q = nodes[p as int].neighbors[layer]@[j];
    let longer = path.push(q);
    assert(nodes[p as int].neighbors[layer]@.contains(q));
    assert forall|i: int| #![trigger longer[i]] 0 <= i < longer.len() - 1 implies edge(nodes, layer, longer[i], longer[i + 1]) by {
        if i < path.len() - 1 {
            assert(longer[i] == path[i] && longer[i + 1] == path[i + 1]);
            assert(edge(nodes, layer, path[i], path[i + 1]));
        } else {
            assert(longer[i] == p);
            assert(longer[i + 1] == q);
        }
    }
    assert(walk(nodes, layer, longer));
}

proof fn lemma_reach_self(nodes: Seq<HnswNode>, layer: int, from: usize)
    ensures
        reachable(nodes, layer, from, from),
{
    let path = seq![from];
    assert(walk(nodes, layer, path));
}

/// The positions along `s`.
pub open spec fn positions_of(s: Seq<Candidate>) -> Seq<usize> {
    s.map_values(|c: Candidate| c.position)
}

/// `kept` is the first `cap` entries of `list` once ranked by distance to
/// `from` (ascending): some arrangement of `list`, each entry with a key
/// the metric gave, is cut to `min(cap, |list|)`.
pub open spec fn nearest_kept<F: Fn(&Vec<u32>, &Vec<u32>) -> u32>(
    dist: &F,
    from: &Vec<u32>,
    nodes: Seq<HnswNode>,
    list: Seq<usize>,
    cap: int,
    kept: Seq<usize>,
) -> bool {
    exists|ranked: Seq<Candidate>|
        #[trigger] positions_of(ranked).to_multiset() == list.to_multiset() && ascending(ranked) && (forall|i: int|
            0 <= i < ranked.len() ==> (#[trigger] ranked[i]).position < nodes.len() && measured(
                dist,
                from,
                &nodes[ranked[i].position as int].vector,
                ranked[i].distance,
            )) && kept == positions_of(ranked).take(if cap < list.len() { cap } else { list.len() as int })
}

/// `after` is what the list `before` of node `s` becomes when the edge to
/// `new` is added under a budget of `cap`: `before` then `new` when that
/// fits, otherwise the `cap` entries of it nearest to `s`.
pub open spec fn relinked<F: Fn(&Vec<u32>, &Vec<u32>) -> u32>(
    dist: &F,
    nodes: Seq<HnswNode>,
    s: int,
    before: Seq<usize>,
    new: usize,
    cap: int,
    after: Seq<usize>,
) -> bool {
    let grown = before.push(new);
    if grown.len() <= cap {
        after == grown
    } else {
        nearest_kept(dist, &nodes[s].vector, nodes, grown, cap, after)
    }
}

proof fn lemma_kept_transfer<F: Fn(&Vec<u32>, &Vec<u32>) -> u32>(
    dist: &F,
    from: &Vec<u32>,
    a: Seq<HnswNode>,
    b: Seq<HnswNode>,
    list: Seq<usize>,
    cap: int,
    kept: Seq<usize>,
)
    requires
        nearest_kept(dist, from, a, list, cap, kept),
        a.len() == b.len(),
        forall|p: int| 0 <= p < a.len() ==> (#[trigger] a[p]).vector == b[p].vector,
    ensures
        nearest_kept(dist, from, b, list, cap, kept),
{
    let ranked = choose|ranked: Seq<Candidate>|
        #[trigger] positions_of(ranked).to_multiset() == list.to_multiset() && ascending(ranked) && (forall|i: int|
            0 <= i < ranked.len() ==> (#[trigger] ranked[i]).position < a.len() && measured(
                dist,
                from,
                &a[ranked[i].position as int].vector,
                ranked[i].distance,
            )) && kept == positions_of(ranked).take(if cap < list.len() { cap } else { list.len() as int });
    assert forall|i: int| 0 <= i < ranked.len() implies (#[trigger] ranked[i]).position < b.len() && measured(
        dist,
        from,
        &b[ranked[i].position as int].vector,
        ranked[i].distance,
    ) by {
        assert(a[ranked[i].position as int].vector == b[ranked[i].position as int].vector);
    }
}

proof fn lemma_insert_multiset(s: Seq<Candidate>, k: int, c: Candidate)
    requires
        0 <= k <= s.len(),
    ensures
        positions_of(s.insert(k, c)).to_multiset() == positions_of(s).to_multiset().insert(c.position),
{
    broadcast use vstd::seq_lib::group_to_multiset_ensures;
    broadcast use vstd::multiset::group_multiset_axioms;

    let t = positions_of(s.insert(k, c));
    assert(t =~= positions_of(s).insert(k, c.position));
    assert(t.remove(k) =~= positions_of(s));
    assert(t[k] == c.position);
    assert(t.to_multiset().count(c.position) > 0);
    assert(t.to_multiset() =~= positions_of(s).to_multiset().insert(c.position));
}

/// `w` has the shape of a beam-search result for `q`: between one and
/// `max(ef, 1)` distinct nodes below `bound`, ascending by the key that the
/// metric gave for each.
#[verifier::opaque]
pub open spec fn beam_shape<F: Fn(&Vec<u32>, &Vec<u32>) -> u32>(
    dist: &F,
    nodes: Seq<HnswNode>,
    q: &Vec<u32>,
    ef: int,
    bound: int,
    w: Seq<Candidate>,
) -> bool {
    &&& 1 <= w.len()
    &&& (w.len() <= ef || w.len() == 1)
    &&& ascending(w)
    &&& forall|i: int, j: int| 0 <= i < j < w.len() ==> w[i].position != w[j].position
    &&& forall|i: int|
        0 <= i < w.len() ==> (#[trigger] w[i]).position < bound && bound <= nodes.len() && measured(
            dist,
            q,
            &nodes[w[i].position as int].vector,
            w[i].distance,
        )
}

/// `list` is the first `min(cap, |w|)` positions of some beam-search result
/// `w` for `q` (see `beam_shape`).
#[verifier::opaque]
pub open spec fn chosen_from_beam<F: Fn(&Vec<u32>, &Vec<u32>) -> u32>(
    dist: &F,
    nodes: Seq<HnswNode>,
    q: &Vec<u32>,
    ef: int,
    bound: int,
    cap: int,
    list: Seq<usize>,
) -> bool {
    exists|w: Seq<Candidate>|
        #[trigger] beam_shape(dist, nodes, q, ef, bound, w) && list == positions_of(w).take(
            if cap < w.len() { cap } else { w.len() as int },
        )
}

/// `w` names every node reachable from `start` on layer `layer`.
pub open spec fn covers(nodes: Seq<HnswNode>, layer: int, start: usize, w: Seq<Candidate>) -> bool {
    forall|p: usize| #[trigger] reachable(nodes, layer, start, p) ==> exists|i: int| 0 <= i < w.len() && w[i].position == p
}

/// `v` is the first `min(k, |w|)` entries of some beam-search result `w`
/// for `q` of width `ef` (see `beam_shape`) on layer 0, each given as its
/// node's id and distance key; unless `w` is full (`ef` entries), it holds
/// every node reachable on layer 0 from the node the search started at.
#[verifier::opaque]
pub open spec fn answers_from_beam<F: Fn(&Vec<u32>, &Vec<u32>) -> u32>(
    dist: &F,
    nodes: Seq<HnswNode>,
    q: &Vec<u32>,
    ef: int,
    k: int,
    v: Seq<Neighbor>,
) -> bool {
    exists|w: Seq<Candidate>|
        #[trigger] beam_shape(dist, nodes, q, ef, nodes.len() as int, w) && v.len() == (if k < w.len() { k } else { w.len() as int })
            && (w.len() >= ef || exists|start: usize| start < nodes.len() && #[trigger] covers(nodes, 0, start, w))
            && forall|i: int|
            0 <= i < v.len() ==> (#[trigger] v[i]).id == nodes[w[i].position as int].id && v[i].distance == w[i].distance
}

proof fn lemma_beam_transfer<F: Fn(&Vec<u32>, &Vec<u32>) -> u32>(
    dist: &F,
    a: Seq<HnswNode>,
    b: Seq<HnswNode>,
    q: &Vec<u32>,
    ef: int,
    bound: int,
    w: Seq<Candidate>,
)
    requires
        beam_shape(dist, a, q, ef, bound, w),
        a.len() == b.len(),
        forall|p: int| 0 <= p < a.len() ==> (#[trigger] a[p]).vector == b[p].vector,
    ensures
        beam_shape(dist, b, q, ef, bound, w),
{
    reveal(beam_shape);
    assert forall|i: int| 0 <= i < w.len() implies (#[trigger] w[i]).position < bound && bound <= b.len() && measured(
        dist,
        q,
        &b[w[i].position as int].vector,
        w[i].distance,
    ) by {
        assert(a[w[i].position as int].vector == b[w[i].position as int].vector);
    }
}

proof fn lemma_relinked_transfer<F: Fn(&Vec<u32>, &Vec<u32>) -> u32>(
    dist: &F,
    a: Seq<HnswNode>,
    b: Seq<HnswNode>,
    s: int,
    before: Seq<usize>,
    new: usize,
    cap: int,
    after: Seq<usize>,
)
    requires
        relinked(dist, a, s, before, new, cap, after),
        0 <= s < a.len(),
        a.len() == b.len(),
        forall|p: int| 0 <= p < a.len() ==> (#[trigger] a[p]).vector == b[p].vector,
    ensures
        relinked(dist, b, s, before, new, cap, after),
{
    assert(a[s].vector == b[s].vector);
    if before.push(new).len() > cap {
        lemma_kept_transfer(dist, &a[s].vector, a, b, before.push(new), cap, after);
    }
}

proof fn lemma_unreach(nodes: Seq<HnswNode>, layer: int, from: usize, to: usize, x: usize)
    requires
        reachable(nodes, layer, from, to),
        from != x,
        forall|a: usize| !(#[trigger] edge(nodes, layer, a, x)),
    ensures
        to != x,
{
    let path = choose|path: Seq<usize>| path.len() >= 1 && path[0] == from && path.last() == to && #[trigger] walk(nodes, layer, path);
    if to == x {
        assert(path.len() >= 2);
        let i = path.len() - 2;
        assert(edge(nodes, layer, path[i], path[i + 1]));
    }
}

proof fn lemma_insert_keeps(s: Seq<Candidate>, k: int, c: Candidate)
    requires
        0 <= k <= s.len(),
    ensures
        forall|x: Candidate| s.contains(x) ==> #[trigger] s.insert(k, c).contains(x),
        s.insert(k, c).contains(c),
{
    let t = s.insert(k, c);
    assert(t[k] == c);
    assert forall|x: Candidate| s.contains(x) implies #[trigger] t.contains(x) by {
        let i = choose|i: int| 0 <= i < s.len() && s[i] == x;
        if i < k {
            assert(t[i] == x);
        } else {
            assert(t[i + 1] == x);
        }
    }
}

proof fn lemma_closed_prefix(nodes: Seq<HnswNode>, layer: int, s: Set<int>, path: Seq<usize>, k: int)
    requires
        walk(nodes, layer, path),
        0 <= k < path.len(),
        s.contains(path[0] as int),
        forall|a: usize, b: usize| s.contains(a as int) && #[trigger] edge(nodes, layer, a, b) ==> s.contains(b as int),
    ensures
        s.contains(path[k] as int),
    decreases k,
{
    if k > 0 {
        lemma_closed_prefix(nodes, layer, s, path, k - 1);
        assert(edge(nodes, layer, path[k - 1], path[k]));
    }
}

/// A set that holds `from` and is closed under layer-`layer` edges holds
/// every node reachable from `from`.
proof fn lemma_closed(nodes: Seq<HnswNode>, layer: int, from: usize, s: Set<int>, to: usize)
    requires
        s.contains(from as int),
        forall|a: usize, b: usize| s.contains(a as int) && #[trigger] edge(nodes, layer, a, b) ==> s.contains(b as int),
        reachable(nodes, layer, from, to),
    ensures
        s.contains(to as int),
{
    let path = choose|path: Seq<usize>| path.len() >= 1 && path[0] == from && path.last() == to && #[trigger] walk(nodes, layer, path);
    lemma_closed_prefix(nodes, layer, s, path, path.len() - 1);
}

/// The abstract state of an index.
pub struct IndexView {
    pub config: HnswConfig,
    pub nodes: Seq<HnswNode>,
    pub entry_point: Option<usize>,
    pub max_layer: int,
}

impl IndexView {
    /// Some node carries `id`.
    pub open spec fn contains_id(&self, id: u64) -> bool {
        exists|i: int| 0 <= i < self.nodes.len() && self.nodes[i].id == id
    }

    /// Two views hold the same parameters, entry point, top layer and nodes.
    pub open spec fn same_as(&self, other: IndexView) -> bool {
        &&& self.config == other.config
        &&& self.entry_point == other.entry_point
        &&& self.max_layer == other.max_layer
        &&& self.nodes.len() == other.nodes.len()
        &&& forall|i: int| 0 <= i < self.nodes.len() ==> same_node(#[trigger] self.nodes[i], other.nodes[i])
    }

    /// A valid state that fits the machine: fewer than `usize::MAX` nodes and
    /// a top layer that fits in an `i32`.
    pub open spec fn storable(&self) -> bool {
        &&& self.valid()
        &&& self.nodes.len() < usize::MAX
        &&& self.max_layer <= i32::MAX
    }

    /// The invariants of the graph: every node has the index's dimension and
    /// at least layer 0; every edge names a node of the table; every list
    /// respects its layer's budget; the entry point is present exactly when
    /// the table is non-empty, and it sits on the top layer, which is the
    /// highest layer of any node (`-1` when empty); ids are unique.
    pub open spec fn valid(&self) -> bool {
        let n = self.nodes.len();
        &&& forall|i: int| 0 <= i < n ==> (#[trigger] self.nodes[i]).vector@.len() == self.config.dimension
        &&& forall|i: int| 0 <= i < n ==> 1 <= (#[trigger] self.nodes[i]).neighbors.len()
        &&& forall|i: int| 0 <= i < n ==> (#[trigger] self.nodes[i]).top() <= self.max_layer
        &&& forall|i: int, l: int|
            0 <= i < n && 0 <= l < self.nodes[i].neighbors.len()
                ==> (#[trigger] self.nodes[i].neighbors[l]).len() <= self.config.cap(l)
        &&& forall|i: int, l: int, j: int|
            0 <= i < n && 0 <= l < self.nodes[i].neighbors.len() && 0 <= j
                < self.nodes[i].neighbors[l].len() ==> (#[trigger] self.nodes[i].neighbors[l][j]) < n
        &&& forall|i: int, j: int| 0 <= i < j < n ==> self.nodes[i].id != self.nodes[j].id
        &&& (self.entry_point is None) <==> n == 0
        &&& (n == 0) <==> self.max_layer == -1
        &&& self.entry_point matches Some(e) ==> e < n && self.nodes[e as int].top() == self.max_layer
    }
}

fn malformed() -> (e: Error)
    ensures
        e matches Error::Index(_),
{
    Error::Index(String::from_str("malformed index snapshot"))
}

/// A hierarchical proximity graph over vectors of one dimension.
#[derive(Debug)]
pub struct HnswIndex {
    config: HnswConfig,
    nodes: Vec<HnswNode>,
    positions: HashMap<u64, usize>,
    entry_point: Option<usize>,
    max_layer: i32,
}

impl View for HnswIndex {
    type V = IndexView;

    closed spec fn view(&self) -> IndexView {
        IndexView {
            config: self.config,
            nodes: self.nodes@,
            entry_point: self.entry_point,
            max_layer: self.max_layer as int,
        }
    }
}

impl HnswIndex {
    /// The index is in a consistent state.
    pub closed spec fn wf(&self) -> bool {
        &&& self@.valid()
        &&& self.nodes.len() < usize::MAX
        &&& forall|i: int|
            0 <= i < self.nodes.len() ==> self.positions@.contains_key(
                (#[trigger] self.nodes[i]).id,
            ) && self.positions@[self.nodes[i].id] == i
        &&& forall|id: u64|
            #[trigger] self.positions@.contains_key(id) ==> self.positions@[id] < self.nodes.len()
                && self.nodes[self.positions@[id] as int].id == id
    }

    /// An empty index.
    pub fn new(config: HnswConfig) -> (r: HnswIndex)
        ensures
            r.wf(),
            r@.config == config,
            r@.nodes.len() == 0,
            r@.entry_point is None,
            r@.max_layer == -1,
    {
        HnswIndex {
            config,
            nodes: Vec::new(),
            positions: HashMap::new(),
            entry_point: None,
            max_layer: -1,
        }
    }

    /// Number of vectors held.
    pub fn len(&self) -> (r: usize)
        ensures
            r == self@.nodes.len(),
    {
        self.nodes.len()
    }

    /// The index holds no vector.
    pub fn is_empty(&self) -> (r: bool)
        ensures
            r == (self@.nodes.len() == 0),
    {
        self.nodes.len() == 0
    }

    /// The index's parameters.
    pub fn config(&self) -> (r: HnswConfig)
        ensures
            r == self@.config,
    {
        self.config
    }

    /// Adds node `id` with `vector` on layers `0..=level`. On each layer `l`
    /// that the graph already has, a beam search of width `ef_construction`
    /// from the current descent point gives a result `W` (see `beam_shape`);
    /// the new node's layer-`l` list is the first `min(cap(l), |W|)`
    /// positions of `W`, the first of them is the next descent point, and
    /// every chosen neighbor that reaches layer `l` gets the edge back
    /// (see `relinked`). Lists on layers above the old top layer stay empty.
    /// The level is drawn by the caller (geometrically distributed); a level
    /// above the current top layer makes the new node the entry point.
    #[verifier::spinoff_prover]
    pub fn insert<F: Fn(&Vec<u32>, &Vec<u32>) -> u32>(
        &mut self,
        id: u64,
        vector: Vec<u32>,
        level: u16,
        dist: &F,
    ) -> (r: Result<(), Error>)
        requires
            old(self).wf(),
            total_metric(dist),
        ensures
            final(self).wf(),
            vector@.len() != old(self)@.config.dimension ==> r == Err::<(), Error>(
                Error::DimensionMismatch {
                    expected: old(self)@.config.dimension,
                    actual: vector@.len() as usize,
                },
            ),
            vector@.len() == old(self)@.config.dimension && old(self)@.contains_id(id) ==> r matches Err(
                Error::Index(_),
            ),
            vector@.len() == old(self)@.config.dimension && !old(self)@.contains_id(id)
                && old(self)@.nodes.len() + 2 < usize::MAX ==> r is Ok,
            r is Err ==> final(self)@ == old(self)@,
            r is Ok ==> {
                let n = old(self)@.nodes.len();
                let fin = final(self)@.nodes;
                &&& final(self)@.config == old(self)@.config
                &&& fin.len() == n + 1
                &&& fin[n as int].id == id
                &&& fin[n as int].vector == vector
                &&& fin[n as int].top() == level
                &&& forall|i: int|
                    0 <= i < n ==> (#[trigger] fin[i]).id == old(self)@.nodes[i].id
                        && fin[i].vector == old(self)@.nodes[i].vector
                        && fin[i].top() == old(self)@.nodes[i].top()
                &&& if level > old(self)@.max_layer {
                    final(self)@.max_layer == level && final(self)@.entry_point == Some(n as usize)
                } else {
                    final(self)@.max_layer == old(self)@.max_layer
                        && final(self)@.entry_point == old(self)@.entry_point
                }
                &&& forall|l: int|
                    0 <= l <= level && l > old(self)@.max_layer ==> (#[trigger] fin[n as int].neighbors[l])@.len() == 0
                &&& forall|l: int|
                    0 <= l <= level && l <= old(self)@.max_layer ==> chosen_from_beam(
                        dist,
                        fin,
                        &vector,
                        old(self)@.config.ef_construction as int,
                        n as int,
                        old(self)@.config.cap(l),
                        (#[trigger] fin[n as int].neighbors[l])@,
                    )
                &&& forall|i: int, l: int|
                    0 <= i < n && 0 <= l < old(self)@.nodes[i].neighbors.len() ==> if l <= level
                        && fin[n as int].neighbors[l]@.contains(i as usize) {
                        relinked(
                            dist,
                            fin,
                            i,
                            old(self)@.nodes[i].neighbors[l]@,
                            n as usize,
                            old(self)@.config.cap(l),
                            (#[trigger] fin[i].neighbors[l])@,
                        )
                    } else {
                        fin[i].neighbors[l]@ == old(self)@.nodes[i].neighbors[l]@
                    }
            },
    {
        if vector.len() != self.config.dimension {
            return Err(Error::DimensionMismatch { expected: self.config.dimension, actual: vector.len() });
        }
        if self.positions.contains_key(&id) {
            proof {
                let p = self.positions@[id];
                assert(self@.nodes[p as int].id == id);
            }
            return Err(Error::Index(String::from_str("a vector with this id is already indexed")));
        }
        proof {
            assert forall|i: int| 0 <= i < self@.nodes.len() implies self@.nodes[i].id != id by {
                assert(self.positions@.contains_key(self.nodes@[i].id));
            }
        }
        let n = self.nodes.len();
        if n >= usize::MAX - 2 {
            return Err(Error::Index(String::from_str("the index is full")));
        }
        let lvl = level as usize;
        let mut layers: Vec<Vec<usize>> = Vec::new();
        let mut i: usize = 0;
        while i <= lvl
            invariant
                0 <= i <= lvl + 1,
                lvl == level as usize,
                layers.len() == i,
                forall|l: int| 0 <= l < i ==> (#[trigger] layers@[l]).len() == 0,
            decreases lvl + 1 - i,
        {
            layers.push(Vec::new());
            i += 1;
        }
        let ghost old_view = self@;
        match self.entry_point {
            None => {
                self.nodes.push(HnswNode { id, vector, neighbors: layers });
                self.positions.insert(id, n);
                self.entry_point = Some(n);
                self.max_layer = level as i32;
                proof {
                    assert(old_view.max_layer == -1);
                    assert(self@.nodes.len() == 1);
                    assert(self@.nodes[0].top() == level);
                    assert forall|l: int| 0 <= l <= level implies (#[trigger] self@.nodes[0].neighbors[l])@.len() == 0 by {
                        assert(self@.nodes[0].neighbors[l] == layers@[l]);
                    }
                }
                Ok(())
            }
            Some(entry) => {
                let top_old = self.max_layer as usize;
                let d = dist(&vector, &self.nodes[entry].vector);
                let mut ep = Candidate { position: entry, distance: d };
                let mut l = top_old;
                while l > lvl
                    invariant
                        self.wf(),
                        self@ == old_view,
                        total_metric(dist),
                        ep.position < n,
                        n == self.nodes.len(),
                        measured(dist, &vector, &self.nodes[ep.position as int].vector, ep.distance),
                    decreases l,
                {
                    ep = self.greedy_closest(&vector, ep, l, dist);
                    l -= 1;
                }
                let ghost prev = self.nodes@;
                self.nodes.push(HnswNode { id, vector, neighbors: layers });
                self.positions.insert(id, n);
                if level as i32 > self.max_layer {
                    self.max_layer = level as i32;
                    self.entry_point = Some(n);
                }
                proof {
                    assert forall|i: int| 0 <= i < n implies #[trigger] self.nodes@[i] == prev[i] by {}
                    assert forall|i: int, l: int|
                        0 <= i < self@.nodes.len() && 0 <= l < self@.nodes[i].neighbors.len()
                            implies (#[trigger] self@.nodes[i].neighbors[l]).len() <= self@.config.cap(l) by {
                        if i < n {
                            assert(self@.nodes[i] == prev[i]);
                        } else {
                            assert(self@.nodes[i].neighbors[l] == layers@[l]);
                        }
                    }
                    assert forall|i: int, l: int, j: int|
                        0 <= i < self@.nodes.len() && 0 <= l < self@.nodes[i].neighbors.len() && 0 <= j
                            < self@.nodes[i].neighbors[l].len() implies (#[trigger] self@.nodes[i].neighbors[l][j]) < self@.nodes.len() by {
                        if i < n {
                            assert(self@.nodes[i] == prev[i]);
                        } else {
                            assert(self@.nodes[i].neighbors[l] == layers@[l]);
                        }
                    }
                    assert forall|id2: u64| #[trigger] self.positions@.contains_key(id2) implies self.positions@[id2] < self.nodes.len()
                        && self.nodes[self.positions@[id2] as int].id == id2 by {
                        if id2 != id {
                            assert(old_view.nodes[self.positions@[id2] as int].id == id2);
                        }
                    }
                    assert forall|l2: int| 0 <= l2 <= lvl implies (#[trigger] self@.nodes[n as int].neighbors[l2])@.len() == 0 by {
                        assert(self@.nodes[n as int].neighbors[l2] == layers@[l2]);
                    }
                    assert forall|i: int, l2: int|
                        0 <= i < n && 0 <= l2 < old_view.nodes[i].neighbors.len() implies (#[trigger] self@.nodes[i].neighbors[l2])@
                            == old_view.nodes[i].neighbors[l2]@ by {
                        assert(self@.nodes[i] == prev[i]);
                    }
                }
                let ghost mut beams: Map<int, Seq<Candidate>> = Map::empty();
                let top = if lvl < top_old { lvl } else { top_old };
                let mut l = top + 1;
                while l > 0
                    invariant
                        self.wf(),
                        total_metric(dist),
                        self.nodes.len() == n + 1,
                        old_view.nodes.len() == n,
                        old_view.valid(),
                        ep.position < n,
                        l <= top + 1,
                        top <= lvl,
                        lvl == level as usize,
                        top as int <= old_view.max_layer,
                        top_old as int == old_view.max_layer,
                        top == if lvl < top_old { lvl } else { top_old },
                        self.nodes[n as int].neighbors.len() == lvl + 1,
                        self.config == old_view.config,
                        self.nodes[n as int].id == id,
                        self.nodes[n as int].vector == vector,
                        forall|i: int|
                            0 <= i < n ==> (#[trigger] self@.nodes[i]).id == old_view.nodes[i].id
                                && self@.nodes[i].vector == old_view.nodes[i].vector
                                && self@.nodes[i].top() == old_view.nodes[i].top(),
                        if level > old_view.max_layer {
                            self@.max_layer == level && self@.entry_point == Some(n as usize)
                        } else {
                            self@.max_layer == old_view.max_layer
                                && self@.entry_point == old_view.entry_point
                        },
                        forall|l2: int|
                            0 <= l2 <= lvl && (l2 < l || l2 > top) ==> (#[trigger] self@.nodes[n as int].neighbors[l2])@.len() == 0,
                        forall|l2: int|
                            l <= l2 <= top ==> #[trigger] beams.contains_key(l2) && beam_shape(dist, self@.nodes, &vector, old_view.config.ef_construction as int, n as int, beams[l2])
                                && self@.nodes[n as int].neighbors[l2]@ == positions_of(beams[l2]).take(
                                if old_view.config.cap(l2) < beams[l2].len() { old_view.config.cap(l2) } else { beams[l2].len() as int },
                            ),
                        forall|i: int, l2: int|
                            0 <= i < n && 0 <= l2 < old_view.nodes[i].neighbors.len() ==> if l2 <= lvl
                                && self@.nodes[n as int].neighbors[l2]@.contains(i as usize) {
                                relinked(dist, self@.nodes, i, old_view.nodes[i].neighbors[l2]@, n as usize, old_view.config.cap(l2), (#[trigger] self@.nodes[i].neighbors[l2])@)
                            } else {
                                self@.nodes[i].neighbors[l2]@ == old_view.nodes[i].neighbors[l2]@
                            },
                    decreases l,
                {
                    l -= 1;
                    proof {
                        assert(self@.nodes[n as int].neighbors[l as int]@.len() == 0);
                        assert forall|a: usize| !(#[trigger] edge(self@.nodes, l as int, a, n)) by {
                            if a < n && (l as int) < self@.nodes[a as int].neighbors.len() {
                                assert(self@.nodes[a as int].neighbors[l as int]@ == old_view.nodes[a as int].neighbors[l as int]@);
                                if self@.nodes[a as int].neighbors[l as int]@.contains(n) {
                                    let j = choose|j: int| 0 <= j < old_view.nodes[a as int].neighbors[l as int]@.len()
                                        && old_view.nodes[a as int].neighbors[l as int]@[j] == n;
                                    assert(old_view.nodes[a as int].neighbors[l as int][j] < n);
                                }
                            } else if a == n {
                                assert(self@.nodes[n as int].neighbors[l as int]@.len() == 0);
                            }
                        }
                    }
                    let found = self.search_layer(&self.nodes[n].vector, ep.position, self.config.ef_construction, l, dist);
                    proof {
                        assert forall|t: int| 0 <= t < found.len() implies (#[trigger] found@[t]).position < n by {
                            lemma_unreach(self@.nodes, l as int, ep.position, found@[t].position, n);
                        }
                    }
                    let cap = self.config.layer_cap(l);
                    let mut picked: Vec<usize> = Vec::new();
                    let mut j: usize = 0;
                    while j < found.len() && j < cap
                        invariant
                            0 <= j <= found.len(),
                            j <= cap,
                            picked@ == positions_of(found@).take(j as int),
                            forall|t: int| 0 <= t < found.len() ==> (#[trigger] found@[t]).position < n,
                        decreases found.len() - j,
                    {
                        picked.push(found[j].position);
                        j += 1;
                        assert(picked@ =~= positions_of(found@).take(j as int));
                    }
                    proof {
                        assert(picked@ == positions_of(found@).take(
                            if old_view.config.cap(l as int) < found@.len() { old_view.config.cap(l as int) } else { found@.len() as int }));
                        assert forall|u: int, v: int| 0 <= u < v < picked.len() implies picked@[u] != picked@[v] by {
                            assert(picked@[u] == found@[u].position && picked@[v] == found@[v].position);
                        }
                        assert forall|u: int| 0 <= u < picked.len() implies #[trigger] picked@[u] < n by {
                            assert(picked@[u] == found@[u].position);
                        }
                    }
                    let ghost mid = self@.nodes;
                    let ghost mid_top = self@.max_layer;
                    let ghost mid_entry = self@.entry_point;
                    proof {

                        assert forall|l2: int| l + 1 <= l2 <= top implies #[trigger] beams.contains_key(l2) && beam_shape(dist, mid, &vector, old_view.config.ef_construction as int, n as int, beams[l2])
                            && mid[n as int].neighbors[l2]@ == positions_of(beams[l2]).take(
                            if old_view.config.cap(l2) < beams[l2].len() { old_view.config.cap(l2) } else { beams[l2].len() as int }) by {
                            assert(beams.contains_key(l2));
                            assert(self@.nodes[n as int].neighbors[l2] == mid[n as int].neighbors[l2]);
                        }
                    }
                    let mut t: usize = 0;
                    while t < picked.len()
                        invariant
                            self.wf(),
                            total_metric(dist),
                            self.nodes.len() == n + 1,
                            old_view.nodes.len() == n,
                            old_view.valid(),
                            mid.len() == n + 1,
                            forall|u: int| 0 <= u < picked.len() ==> #[trigger] picked@[u] < n,
                            forall|u: int, v: int| 0 <= u < v < picked.len() ==> picked@[u] != picked@[v],
                            0 <= t <= picked.len(),
                            l < top + 1,
                            top <= lvl,
                            self.config == old_view.config,
                            self@.max_layer == mid_top,
                            self@.entry_point == mid_entry,
                            mid[n as int].neighbors.len() == lvl + 1,
                            self@.nodes[n as int].neighbors.len() == lvl + 1,
                            top <= lvl,
                            lvl == level as usize,
                            forall|i: int| 0 <= i < n ==> (#[trigger] mid[i]).id == old_view.nodes[i].id
                                && mid[i].vector == old_view.nodes[i].vector
                                && mid[i].top() == old_view.nodes[i].top(),
                            mid[n as int].id == id,
                            mid[n as int].vector == vector,
                            ep.position < n,
                            forall|l2: int|
                                0 <= l2 <= lvl && (l2 < l + 1 || l2 > top) ==> (#[trigger] mid[n as int].neighbors[l2])@.len() == 0,
                            forall|l2: int|
                                l + 1 <= l2 <= top ==> #[trigger] beams.contains_key(l2) && beam_shape(dist, mid, &vector, old_view.config.ef_construction as int, n as int, beams[l2])
                                    && mid[n as int].neighbors[l2]@ == positions_of(beams[l2]).take(
                                    if old_view.config.cap(l2) < beams[l2].len() { old_view.config.cap(l2) } else { beams[l2].len() as int },
                                ),
                            forall|i: int, l2: int|
                                0 <= i < n && 0 <= l2 < old_view.nodes[i].neighbors.len() ==> if l2 <= lvl
                                    && mid[n as int].neighbors[l2]@.contains(i as usize) {
                                    relinked(dist, mid, i, old_view.nodes[i].neighbors[l2]@, n as usize, old_view.config.cap(l2), (#[trigger] mid[i].neighbors[l2])@)
                                } else {
                                    mid[i].neighbors[l2]@ == old_view.nodes[i].neighbors[l2]@
                                },
                            forall|i: int|
                                0 <= i < n + 1 ==> (#[trigger] self@.nodes[i]).id == mid[i].id
                                    && self@.nodes[i].vector == mid[i].vector
                                    && self@.nodes[i].neighbors.len() == mid[i].neighbors.len(),
                            forall|i: int, l2: int|
                                0 <= i < n + 1 && 0 <= l2 < mid[i].neighbors.len() && (l2 != l || i == n)
                                    ==> (#[trigger] self@.nodes[i].neighbors[l2])@ == mid[i].neighbors[l2]@,
                            forall|i: int|
                                0 <= i < n && (l as int) < mid[i].neighbors.len() ==> if picked@.take(t as int).contains(i as usize) {
                                    relinked(dist, self@.nodes, i, mid[i].neighbors[l as int]@, n as usize, old_view.config.cap(l as int), (#[trigger] self@.nodes[i].neighbors[l as int])@)
                                } else {
                                    self@.nodes[i].neighbors[l as int]@ == mid[i].neighbors[l as int]@
                                },
                        decreases picked.len() - t,
                    {
                        let ghost before = self@.nodes;
                        self.link(picked[t], n, l, dist);
                        t += 1;
                        proof {
                            assert forall|i: int|
                                0 <= i < n && (l as int) < mid[i].neighbors.len() implies if picked@.take(t as int).contains(i as usize) {
                                    relinked(dist, self@.nodes, i, mid[i].neighbors[l as int]@, n as usize, old_view.config.cap(l as int), (#[trigger] self@.nodes[i].neighbors[l as int])@)
                                } else {
                                    self@.nodes[i].neighbors[l as int]@ == mid[i].neighbors[l as int]@
                                } by {
                                let s0 = picked@[t - 1];
                                assert(picked@.take(t as int) =~= picked@.take(t - 1).push(s0));
                                assert(picked@.take(t as int)[t - 1] == s0);
                                if i == s0 as int {
                                    if picked@.take(t - 1).contains(i as usize) {
                                        let u = choose|u: int| 0 <= u < t - 1 && #[trigger] picked@.take(t - 1)[u] == i as usize;
                                        assert(picked@[u] == picked@[t - 1]);
                                    }
                                    assert(before[i].neighbors[l as int]@ == mid[i].neighbors[l as int]@);
                                    assert(picked@.take(t as int).contains(i as usize));
                                } else {
                                    assert(self@.nodes[i].neighbors[l as int]@ == before[i].neighbors[l as int]@);
                                    if picked@.take(t as int).contains(i as usize) {
                                        let u = choose|u: int| 0 <= u < t && #[trigger] picked@.take(t as int)[u] == i as usize;
                                        assert(u < t - 1);
                                        assert(picked@.take(t - 1)[u] == i as usize);
                                        assert(picked@.take(t - 1).contains(i as usize));
                                        lemma_relinked_transfer(dist, before, self@.nodes, i, mid[i].neighbors[l as int]@, n as usize, old_view.config.cap(l as int), self@.nodes[i].neighbors[l as int]@);
                                    } else {
                                        if picked@.take(t - 1).contains(i as usize) {
                                            let u = choose|u: int| 0 <= u < t - 1 && #[trigger] picked@.take(t - 1)[u] == i as usize;
                                            assert(picked@.take(t as int)[u] == i as usize);
                                        }
                                    }
                                }
                            }
                        }
                    }
                    if picked.len() > 0 {
                        ep = Candidate { position: picked[0], distance: 0 };
                    }
                    let ghost prev = self.nodes@;
                    self.nodes[n].neighbors[l] = picked;
                    proof {
                        beams = beams.insert(l as int, found@);
                        assert(self.nodes@[n as int].neighbors@ == prev[n as int].neighbors@.update(l as int, picked));
                        assert forall|l2: int| 0 <= l2 < self.nodes@[n as int].neighbors.len() && l2 != l implies
                            (#[trigger] self.nodes@[n as int].neighbors[l2])@ == mid[n as int].neighbors[l2]@ by {
                            assert(self.nodes@[n as int].neighbors[l2] == prev[n as int].neighbors[l2]);
                        }
                        assert forall|i: int| 0 <= i < n implies #[trigger] self.nodes@[i] == prev[i] by {}
                        assert forall|i: int, l2: int|
                            0 <= i < self@.nodes.len() && 0 <= l2 < self@.nodes[i].neighbors.len()
                                implies (#[trigger] self@.nodes[i].neighbors[l2]).len() <= self@.config.cap(l2) by {
                            if i != n || l2 != l {
                                assert(self@.nodes[i].neighbors[l2] == prev[i].neighbors[l2]);
                            }
                        }
                        assert forall|i: int, l2: int, j2: int|
                            0 <= i < self@.nodes.len() && 0 <= l2 < self@.nodes[i].neighbors.len() && 0 <= j2
                                < self@.nodes[i].neighbors[l2].len() implies (#[trigger] self@.nodes[i].neighbors[l2][j2]) < self@.nodes.len() by {
                            if i != n || l2 != l {
                                assert(self@.nodes[i].neighbors[l2] == prev[i].neighbors[l2]);
                            }
                        }
                        assert forall|i: int| 0 <= i < self.nodes.len() implies self.positions@.contains_key(
                            (#[trigger] self.nodes[i]).id) && self.positions@[self.nodes[i].id] == i by {
                            assert(self.nodes[i].id == prev[i].id);
                        }
                        assert(picked@.take(picked.len() as int) =~= picked@);
                        assert forall|l2: int|
                            0 <= l2 <= lvl && (l2 < l || l2 > top) implies (#[trigger] self@.nodes[n as int].neighbors[l2])@.len() == 0 by {
                            assert(self@.nodes[n as int].neighbors[l2]@ == mid[n as int].neighbors[l2]@);
                        }
                        assert forall|l2: int|
                            l <= l2 <= top implies #[trigger] beams.contains_key(l2) && beam_shape(dist, self@.nodes, &vector, old_view.config.ef_construction as int, n as int, beams[l2])
                                && self@.nodes[n as int].neighbors[l2]@ == positions_of(beams[l2]).take(
                                if old_view.config.cap(l2) < beams[l2].len() { old_view.config.cap(l2) } else { beams[l2].len() as int },
                            ) by {
                            if l2 == l {
                                assert(beam_shape(dist, mid, &vector, old_view.config.ef_construction as int, n as int, found@)) by {
                                    reveal(beam_shape);
                                }
                                lemma_beam_transfer(dist, mid, self@.nodes, &vector, old_view.config.ef_construction as int, n as int, found@);
                            } else {
                                assert(beams.contains_key(l2));
                                assert(self@.nodes[n as int].neighbors[l2]@ == mid[n as int].neighbors[l2]@);
                                lemma_beam_transfer(dist, mid, self@.nodes, &vector, old_view.config.ef_construction as int, n as int, beams[l2]);
                            }
                        }
                        assert forall|i: int, l2: int|
                            0 <= i < n && 0 <= l2 < old_view.nodes[i].neighbors.len() implies if l2 <= lvl
                                && self@.nodes[n as int].neighbors[l2]@.contains(i as usize) {
                                relinked(dist, self@.nodes, i, old_view.nodes[i].neighbors[l2]@, n as usize, old_view.config.cap(l2), (#[trigger] self@.nodes[i].neighbors[l2])@)
                            } else {
                                self@.nodes[i].neighbors[l2]@ == old_view.nodes[i].neighbors[l2]@
                            } by {
                            assert(self@.nodes[i] == prev[i]);
                            if l2 == l {
                                assert(!mid[n as int].neighbors[l as int]@.contains(i as usize));
                                assert(mid[i].neighbors[l2]@ == old_view.nodes[i].neighbors[l2]@);
                                if picked@.contains(i as usize) {
                                    lemma_relinked_transfer(dist, prev, self@.nodes, i, mid[i].neighbors[l as int]@, n as usize, old_view.config.cap(l as int), self@.nodes[i].neighbors[l as int]@);
                                }
                            } else {
                                if l2 <= lvl {
                                    assert(self@.nodes[n as int].neighbors[l2]@ == mid[n as int].neighbors[l2]@);
                                }
                                assert(self@.nodes[i].neighbors[l2]@ == mid[i].neighbors[l2]@);
                                if l2 <= lvl && mid[n as int].neighbors[l2]@.contains(i as usize) {
                                    lemma_relinked_transfer(dist, mid, self@.nodes, i, old_view.nodes[i].neighbors[l2]@, n as usize, old_view.config.cap(l2), self@.nodes[i].neighbors[l2]@);
                                }
                            }
                        }
                    }
                }
                proof {
                    assert forall|l2: int| 0 <= l2 <= level && l2 <= old_view.max_layer implies chosen_from_beam(
                        dist,
                        self@.nodes,
                        &vector,
                        old_view.config.ef_construction as int,
                        n as int,
                        old_view.config.cap(l2),
                        (#[trigger] self@.nodes[n as int].neighbors[l2])@,
                    ) by {
                        assert(l2 <= top);
                        assert(beams.contains_key(l2));
                        let w = beams[l2];
                        reveal(chosen_from_beam);
                        assert(beam_shape(dist, self@.nodes, &vector, old_view.config.ef_construction as int, n as int, w)
                            && self@.nodes[n as int].neighbors[l2]@ == positions_of(w).take(
                            if old_view.config.cap(l2) < w.len() { old_view.config.cap(l2) } else { w.len() as int }));
                    }
                }
                Ok(())
            }
        }
    }

    /// Approximate `k` nearest neighbors of `query`: a greedy descent from
    /// the entry point down to layer 1, then a beam search of width
    /// `max(ef, k)` on layer 0. The answers are ascending by distance key
    /// (descending by similarity), name distinct indexed ids, and carry the
    /// key that the metric gave for each.
    pub fn search<F: Fn(&Vec<u32>, &Vec<u32>) -> u32>(
        &self,
        query: &Vec<u32>,
        k: usize,
        ef: usize,
        dist: &F,
    ) -> (r: Result<Vec<Neighbor>, Error>)
        requires
            self.wf(),
            total_metric(dist),
        ensures
            query@.len() != self@.config.dimension ==> r == Err::<Vec<Neighbor>, Error>(
                Error::DimensionMismatch { expected: self@.config.dimension, actual: query@.len() as usize },
            ),
            query@.len() == self@.config.dimension ==> r is Ok,
            r is Ok && self@.nodes.len() > 0 ==> answers_from_beam(
                dist,
                self@.nodes,
                query,
                if ef > k { ef as int } else { k as int },
                k as int,
                r->Ok_0@,
            ),
            r matches Ok(v) ==> {
                &&& v.len() <= k
                &&& self@.nodes.len() == 0 ==> v.len() == 0
                &&& self@.nodes.len() > 0 && k > 0 ==> v.len() >= 1
                &&& forall|i: int, j: int| 0 <= i < j < v.len() ==> v@[i].distance <= v@[j].distance
                &&& forall|i: int, j: int| 0 <= i < j < v.len() ==> v@[i].id != v@[j].id
                &&& forall|i: int|
                    0 <= i < v.len() ==> exists|p: int|
                        0 <= p < self@.nodes.len() && self@.nodes[p].id == (#[trigger] v@[i]).id
                            && measured(dist, query, &self@.nodes[p].vector, v@[i].distance)
            },
    {
        if query.len() != self.config.dimension {
            return Err(Error::DimensionMismatch { expected: self.config.dimension, actual: query.len() });
        }
        let mut out: Vec<Neighbor> = Vec::new();
        match self.entry_point {
            None => Ok(out),
            Some(entry) => {
                let d = dist(query, &self.nodes[entry].vector);
                let mut ep = Candidate { position: entry, distance: d };
                let mut l = self.max_layer as usize;
                while l > 0
                    invariant
                        self.wf(),
                        total_metric(dist),
                        ep.position < self.nodes.len(),
                        measured(dist, query, &self.nodes[ep.position as int].vector, ep.distance),
                    decreases l,
                {
                    ep = self.greedy_closest(query, ep, l, dist);
                    l -= 1;
                }
                let width = if ef > k { ef } else { k };
                let found = self.search_layer(query, ep.position, width, 0, dist);
                let mut i: usize = 0;
                while i < found.len() && i < k
                    invariant
                        self.wf(),
                        0 <= i <= found.len(),
                        i <= k,
                        out.len() == i,
                        ascending(found@),
                        forall|a: int, b: int|
                            0 <= a < b < found.len() ==> found@[a].position != found@[b].position,
                        forall|a: int|
                            0 <= a < found.len() ==> (#[trigger] found@[a]).position < self.nodes.len()
                                && measured(dist, query, &self.nodes[found@[a].position as int].vector, found@[a].distance),
                        forall|a: int|
                            0 <= a < i ==> (#[trigger] out@[a]).id == self.nodes[found@[a].position as int].id
                                && out@[a].distance == found@[a].distance,
                    decreases found.len() - i,
                {
                    let c = found[i];
                    out.push(Neighbor { id: self.nodes[c.position].id, distance: c.distance });
                    i += 1;
                }
                proof {
                    assert(answers_from_beam(dist, self@.nodes, query, width as int, k as int, out@)) by {
                        reveal(answers_from_beam);
                        assert(beam_shape(dist, self@.nodes, query, width as int, self@.nodes.len() as int, found@)) by {
                            reveal(beam_shape);
                        }
                        if found.len() < width {
                            assert(covers(self@.nodes, 0, ep.position, found@));
                        }
                    }
                    assert forall|a: int| 0 <= a < out.len() implies exists|p: int|
                        0 <= p < self@.nodes.len() && self@.nodes[p].id == (#[trigger] out@[a]).id
                            && measured(dist, query, &self@.nodes[p].vector, out@[a].distance) by {
                        let p = found@[a].position as int;
                        assert(self@.nodes[p].id == out@[a].id);
                    }
                    assert forall|a: int, b: int| 0 <= a < b < out.len() implies out@[a].id != out@[b].id by {
                        assert(out@[a].id == self@.nodes[found@[a].position as int].id);
                        assert(out@[b].id == self@.nodes[found@[b].position as int].id);
                        let pa = found@[a].position as int;
                        let pb = found@[b].position as int;
                        if pa < pb {
                            assert(self@.nodes[pa].id != self@.nodes[pb].id);
                        } else {
                            assert(self@.nodes[pb].id != self@.nodes[pa].id);
                        }
                    }
                }
                Ok(out)
            }
        }
    }

    /// The index as a sequence of words (see `index_words`).
    pub fn to_words(&self) -> (w: Vec<u64>)
        requires
            self.wf(),
        ensures
            w@ == index_words(self@),
    {
        let mut w: Vec<u64> = Vec::new();
        w.push(self.config.dimension as u64);
        w.push(self.config.m as u64);
        w.push(self.config.m_max_0 as u64);
        w.push(self.config.ef_construction as u64);
        match self.entry_point {
            None => w.push(0),
            Some(p) => w.push((p + 1) as u64),
        }
        w.push(self.nodes.len() as u64);
        w.push(self.config.ml_bits);
        let ghost base = w@;
        let mut i: usize = 0;
        while i < self.nodes.len()
            invariant
                0 <= i <= self.nodes.len(),
                w@ == base + nodes_words(self.nodes@.take(i as int)),
            decreases self.nodes.len() - i,
        {
            push_node(&mut w, &self.nodes[i]);
            i += 1;
            assert(self.nodes@.take(i as int).drop_last() =~= self.nodes@.take(i - 1));
        }
        assert(self.nodes@.take(self.nodes.len() as int) =~= self.nodes@);
        assert(w@ =~= index_words(self@));
        w
    }

    /// Rebuilds an index from its word encoding. Malformed words (short,
    /// trailing, out of range, violating a graph invariant, repeating an id)
    /// are an `Index` error; the words of any storable index give it back.
    pub fn from_words(words: &Vec<u64>) -> (r: Result<HnswIndex, Error>)
        ensures
            r matches Ok(idx) ==> idx.wf() && words@ == index_words(idx@),
            r is Err ==> r matches Err(Error::Index(_)),
            forall|v: IndexView|
                v.storable() && words@ == #[trigger] index_words(v) ==> (r matches Ok(idx) && idx@.same_as(v)),
    {
        proof {
            assert forall|v: IndexView| v.storable() && words@ == #[trigger] index_words(v) implies {
                &&& words.len() >= 7
                &&& words@[0] == v.config.dimension as u64
                &&& words@[1] == v.config.m as u64
                &&& words@[2] == v.config.m_max_0 as u64
                &&& words@[3] == v.config.ef_construction as u64
                &&& words@[4] == entry_word(v.entry_point)
                &&& words@[5] == v.nodes.len() as u64
                &&& words@[6] == v.config.ml_bits
                &&& holds_at(words@, 7, nodes_words(v.nodes))
            } by {
                assert(words@.subrange(7, 7 + nodes_words(v.nodes).len() as int) =~= nodes_words(v.nodes));
            }
        }
        if words.len() < 7 || words[0] > usize::MAX as u64 || words[1] > usize::MAX as u64
            || words[2] > usize::MAX as u64 || words[3] > usize::MAX as u64 || words[5] >= usize::MAX as u64 {
            return Err(malformed());
        }
        let config = HnswConfig {
            dimension: words[0] as usize,
            m: words[1] as usize,
            m_max_0: words[2] as usize,
            ef_construction: words[3] as usize,
            ml_bits: words[6],
        };
        let entry_code = words[4];
        let n = words[5] as usize;
        let mut nodes: Vec<HnswNode> = Vec::new();
        let mut positions: HashMap<u64, usize> = HashMap::new();
        let mut at: usize = 7;
        let mut i: usize = 0;
        proof {
            assert forall|v: IndexView| v.storable() && words@ == #[trigger] index_words(v) implies at == 7
                + nodes_words(v.nodes.take(0)).len() by {
                assert(v.nodes.take(0) =~= Seq::<HnswNode>::empty());
            }
        }
        while i < n
            invariant
                7 <= at <= words.len(),
                n < usize::MAX,
                n as u64 == words@[5],
                0 <= i <= n,
                nodes.len() == i,
                words@.subrange(7, at as int) == nodes_words(nodes@),
                config.dimension as u64 == words@[0],
                config.m as u64 == words@[1],
                config.m_max_0 as u64 == words@[2],
                config.ef_construction as u64 == words@[3],
                config.ml_bits == words@[6],
                forall|j: int| 0 <= j < i ==> node_fits(#[trigger] nodes@[j], n as int, config),
                forall|j: int|
                    0 <= j < i ==> positions@.contains_key((#[trigger] nodes@[j]).id) && positions@[nodes@[j].id] == j,
                forall|id: u64|
                    #[trigger] positions@.contains_key(id) ==> positions@[id] < i && nodes@[positions@[id] as int].id == id,
                forall|v: IndexView|
                    v.storable() && words@ == #[trigger] index_words(v) ==> {
                        &&& v.nodes.len() == n
                        &&& v.config == config
                        &&& holds_at(words@, 7, nodes_words(v.nodes))
                        &&& at == 7 + nodes_words(v.nodes.take(i as int)).len()
                        &&& forall|j: int| 0 <= j < i ==> same_node(#[trigger] nodes@[j], v.nodes[j])
                    },
            decreases n - i,
        {
            proof {
                assert forall|v: IndexView| v.storable() && words@ == #[trigger] index_words(v) implies node_fits(
                    v.nodes[i as int],
                    n as int,
                    config,
                ) && holds_at(words@, at as int, node_words(v.nodes[i as int])) by {
                    lemma_nodes_prefix(v.nodes, i + 1);
                    assert(v.nodes.take(i + 1).drop_last() =~= v.nodes.take(i as int));
                    let whole = nodes_words(v.nodes);
                    let pre = nodes_words(v.nodes.take(i + 1));
                    lemma_holds_split(words@, 7, pre, whole.subrange(pre.len() as int, whole.len() as int));
                    lemma_holds_split(words@, 7, nodes_words(v.nodes.take(i as int)), node_words(v.nodes[i as int]));
                    let t = v.nodes[i as int];
                    assert(t.neighbors.len() >= 1);
                    assert forall|l: int| 0 <= l < t.neighbors.len() implies (#[trigger] t.neighbors[l]).len() <= config.cap(l) by {
                        assert(v.nodes[i as int].neighbors[l].len() <= v.config.cap(l));
                    }
                    assert forall|l: int, j: int|
                        0 <= l < t.neighbors.len() && 0 <= j < t.neighbors[l].len() implies (#[trigger] t.neighbors[l][j]) < n by {
                        assert(v.nodes[i as int].neighbors[l][j] < v.nodes.len());
                    }
                    assert(t.top() <= v.max_layer);
                }
            }
            match read_node(words, at, n, config) {
                None => {
                    return Err(malformed());
                },
                Some((node, end)) => {
                    if positions.contains_key(&node.id) {
                        proof {
                            assert forall|v: IndexView| v.storable() && words@ == #[trigger] index_words(v) implies false by {
                                let p = positions@[node.id] as int;
                                assert(same_node(nodes@[p], v.nodes[p]));
                                assert(v.nodes[p].id != v.nodes[i as int].id);
                            }
                        }
                        return Err(malformed());
                    }
                    let ghost old_nodes = nodes@;
                    positions.insert(node.id, i);
                    nodes.push(node);
                    proof {
                        assert(nodes@.drop_last() =~= old_nodes);
                        assert(nodes_words(nodes@) == nodes_words(old_nodes) + node_words(nodes@[i as int]));
                        assert(words@.subrange(7, end as int) =~= words@.subrange(7, at as int) + words@.subrange(at as int, end as int));
                        assert forall|j: int| 0 <= j < i + 1 implies positions@.contains_key((#[trigger] nodes@[j]).id)
                            && positions@[nodes@[j].id] == j by {
                            if j < i {
                                assert(nodes@[j] == old_nodes[j]);
                            }
                        }
                        assert forall|v: IndexView| v.storable() && words@ == #[trigger] index_words(v) implies {
                            &&& end == 7 + nodes_words(v.nodes.take(i + 1)).len()
                            &&& forall|j: int| 0 <= j < i + 1 ==> same_node(#[trigger] nodes@[j], v.nodes[j])
                        } by {
                            assert(v.nodes.take(i + 1).drop_last() =~= v.nodes.take(i as int));
                            assert forall|j: int| 0 <= j < i + 1 implies same_node(#[trigger] nodes@[j], v.nodes[j]) by {
                                if j < i {
                                    assert(nodes@[j] == old_nodes[j]);
                                }
                            }
                        }
                    }
                    at = end;
                },
            }
            i += 1;
        }
        proof {
            assert forall|v: IndexView| v.storable() && words@ == #[trigger] index_words(v) implies at == words.len() by {
                assert(v.nodes.take(n as int) =~= v.nodes);
            }
        }
        if at != words.len() {
            return Err(malformed());
        }
        let (entry_point, max_layer) = if entry_code == 0 {
            if n != 0 {
                return Err(malformed());
            }
            (None, -1i32)
        } else {
            let p = entry_code - 1;
            if p >= n as u64 {
                return Err(malformed());
            }
            let p = p as usize;
            let top = nodes[p].neighbors.len() - 1;
            let mut j: usize = 0;
            while j < n
                invariant
                    0 <= j <= n,
                    nodes.len() == n,
                    p < n,
                    p + 1 == entry_code,
                    forall|q: int| 0 <= q < n ==> node_fits(#[trigger] nodes@[q], n as int, config),
                    forall|v: IndexView|
                        v.storable() && words@ == #[trigger] index_words(v) ==> {
                            &&& v.nodes.len() == n
                            &&& v.config == config
                            &&& entry_word(v.entry_point) == entry_code
                            &&& forall|q: int| 0 <= q < n ==> same_node(#[trigger] nodes@[q], v.nodes[q])
                        },
                    top == nodes@[p as int].neighbors.len() - 1,
                    forall|q: int| 0 <= q < j ==> (#[trigger] nodes@[q]).top() <= top,
                decreases n - j,
            {
                if nodes[j].neighbors.len() - 1 > top {
                    proof {
                        assert forall|v: IndexView| v.storable() && words@ == #[trigger] index_words(v) implies false by {
                            assert(same_node(nodes@[j as int], v.nodes[j as int]));
                            assert(same_node(nodes@[p as int], v.nodes[p as int]));
                            assert(v.entry_point == Some(p));
                        }
                    }
                    return Err(malformed());
                }
                j += 1;
            }
            (Some(p), top as i32)
        };
        let idx = HnswIndex { config, nodes, positions, entry_point, max_layer };
        proof {
            assert(words@ =~= seq![words@[0], words@[1], words@[2], words@[3], words@[4], words@[5], words@[6]] + words@.subrange(7, at as int));
            assert(words@ =~= index_words(idx@));
            assert forall|a: int, b: int| 0 <= a < b < idx@.nodes.len() implies idx@.nodes[a].id != idx@.nodes[b].id by {
                assert(idx.positions@[idx.nodes@[a].id] == a);
                assert(idx.positions@[idx.nodes@[b].id] == b);
            }
            assert forall|v: IndexView| v.storable() && words@ == #[trigger] index_words(v) implies idx@.same_as(v) by {
                if entry_code == 0 {
                    assert(v.entry_point is None);
                } else {
                    let p = (entry_code - 1) as int;
                    assert(v.entry_point == Some(p as usize));
                    assert(same_node(idx.nodes@[p], v.nodes[p]));
                }
            }
        }
        Ok(idx)
    }

    /// The index as bytes: its word encoding (see `index_words`), framed by
    /// bincode. Encoding always succeeds.
    pub fn serialize(&self) -> (r: Result<Vec<u8>, Error>)
        requires
            self.wf(),
        ensures
            r is Ok,
            r matches Ok(b) ==> b@ == framed(index_words(self@)) && index_words(self@).len() <= usize::MAX,
    {
        let words = self.to_words();
        assert(words@.len() == words.len());
        match encode_words(&words) {
            Ok(bytes) => Ok(bytes),
            Err(e) => Err(Error::Index(error_text(&e))),
        }
    }

    /// Rebuilds an index from bytes made by `serialize`. It succeeds only
    /// when the bytes begin with the framed words of the index it returns;
    /// anything else (empty, truncated, out of range, violating a graph
    /// invariant) is an `Index` error. The bytes of any storable index give
    /// back the same parameters, entry point, top layer and nodes.
    pub fn deserialize(bytes: &[u8]) -> (r: Result<HnswIndex, Error>)
        ensures
            r matches Ok(idx) ==> idx.wf() && begins_with_frame(bytes@, index_words(idx@)),
            r is Err ==> r matches Err(Error::Index(_)),
            forall|v: IndexView|
                v.storable() && index_words(v).len() <= usize::MAX && bytes@ == #[trigger] framed(index_words(v))
                    ==> (r matches Ok(idx) && idx@.same_as(v)),
    {
        proof {
            assert forall|v: IndexView|
                v.storable() && index_words(v).len() <= usize::MAX && bytes@ == #[trigger] framed(index_words(v))
                    implies begins_with_frame(bytes@, index_words(v)) by {
                assert(bytes@.subrange(0, bytes@.len() as int) =~= bytes@);
            }
        }
        let decoded = decode_words(bytes);
        proof {
            assert forall|v: IndexView|
                v.storable() && index_words(v).len() <= usize::MAX && bytes@ == #[trigger] framed(index_words(v))
                    implies decoded is Ok by {
                assert(begins_with_frame(bytes@, index_words(v)));
            }
        }
        match decoded {
            Ok(words) => {
                proof {
                    assert forall|v: IndexView|
                        v.storable() && index_words(v).len() <= usize::MAX && bytes@ == #[trigger] framed(
                            index_words(v),
                        ) implies words@ == index_words(v) by {
                        assert(words@.len() == words.len());
                        lemma_frame_unique(bytes@, words@, index_words(v));
                    }
                }
                HnswIndex::from_words(&words)
            },
            Err(e) => Err(Error::Index(error_text(&e))),
        }
    }

    /// Greedy descent on one layer: hop to any neighbor closer than the
    /// current best until no neighbor improves.
    fn greedy_closest<F: Fn(&Vec<u32>, &Vec<u32>) -> u32>(
        &self,
        q: &Vec<u32>,
        start: Candidate,
        layer: usize,
        dist: &F,
    ) -> (r: Candidate)
        requires
            self.wf(),
            total_metric(dist),
            start.position < self.nodes.len(),
            measured(dist, q, &self.nodes[start.position as int].vector, start.distance),
        ensures
            r.position < self.nodes.len(),
            r.distance <= start.distance,
            measured(dist, q, &self.nodes[r.position as int].vector, r.distance),
    {
        let mut cur = start;
        loop
            invariant
                self.wf(),
                total_metric(dist),
                cur.position < self.nodes.len(),
                cur.distance <= start.distance,
                measured(dist, q, &self.nodes[cur.position as int].vector, cur.distance),
            decreases cur.distance,
        {
            let ghost before = cur.distance;
            let ghost origin = cur.position as int;
            let mut changed = false;
            if layer < self.nodes[cur.position].neighbors.len() {
                let list = &self.nodes[cur.position].neighbors[layer];
                let mut j: usize = 0;
                while j < list.len()
                    invariant
                        self.wf(),
                        total_metric(dist),
                        0 <= origin < self.nodes.len(),
                        layer < self.nodes[origin].neighbors.len(),
                        list == &self.nodes[origin].neighbors[layer as int],
                        0 <= j <= list.len(),
                        cur.position < self.nodes.len(),
                        cur.distance <= before,
                        before <= start.distance,
                        changed ==> cur.distance < before,
                        measured(dist, q, &self.nodes[cur.position as int].vector, cur.distance),
                    decreases list.len() - j,
                {
                    let nb = list[j];
                    proof {
                        assert(self@.nodes[origin].neighbors[layer as int][j as int] < self@.nodes.len());
                    }
                    let d = dist(q, &self.nodes[nb].vector);
                    if d < cur.distance {
                        cur = Candidate { position: nb, distance: d };
                        changed = true;
                    }
                    j += 1;
                }
            }
            if !changed {
                break;
            }
        }
        cur
    }

    /// Best-first beam search on one layer from `ep`, keeping at most
    /// `max(ef, 1)` of the closest nodes met; the result is ascending by
    /// distance and names each node once.
    #[verifier::spinoff_prover]
    #[verifier::rlimit(100)]
    fn search_layer<F: Fn(&Vec<u32>, &Vec<u32>) -> u32>(
        &self,
        q: &Vec<u32>,
        ep: usize,
        ef: usize,
        layer: usize,
        dist: &F,
    ) -> (found: Vec<Candidate>)
        requires
            self.wf(),
            total_metric(dist),
            ep < self.nodes.len(),
        ensures
            1 <= found.len(),
            found.len() <= ef || found.len() == 1,
            ascending(found@),
            forall|i: int, j: int|
                0 <= i < j < found.len() ==> found@[i].position != found@[j].position,
            forall|i: int|
                0 <= i < found.len() ==> (#[trigger] found@[i]).position < self.nodes.len()
                    && measured(dist, q, &self.nodes[found@[i].position as int].vector, found@[i].distance)
                    && reachable(self@.nodes, layer as int, ep, found@[i].position),
            exists|d: u32| measured(dist, q, &self.nodes[ep as int].vector, d) && found@[0].distance <= d,
            found.len() >= ef || forall|p: usize|
                #[trigger] reachable(self@.nodes, layer as int, ep, p) ==> exists|i: int|
                    0 <= i < found.len() && found@[i].position == p,
    {
        let n = self.nodes.len();
        let mut visited: Vec<bool> = Vec::new();
        let mut i: usize = 0;
        while i < n
            invariant
                0 <= i <= n,
                visited.len() == i,
                forall|p: int| 0 <= p < i ==> !visited@[p],
            decreases n - i,
        {
            visited.push(false);
            i += 1;
        }
        visited.set(ep, true);
        let ghost mut seen: Set<int> = set![ep as int];
        let d0 = dist(q, &self.nodes[ep].vector);
        let first = Candidate { position: ep, distance: d0 };
        let mut candidates: Vec<Candidate> = Vec::new();
        candidates.push(first);
        let mut found: Vec<Candidate> = Vec::new();
        found.push(first);
        let ghost mut full: bool = found.len() >= ef;
        let ghost mut expanded: Set<int> = Set::empty();
        proof {
            assert(found@[0] == first);
            lemma_reach_self(self@.nodes, layer as int, ep);
            vstd::set_lib::lemma_int_range(0, n as int);
            assert(seen.subset_of(vstd::set_lib::set_int_range(0, n as int)));
            vstd::set_lib::lemma_len_subset(seen, vstd::set_lib::set_int_range(0, n as int));
        }
        let mut stop = false;
        while !stop && candidates.len() > 0
            invariant
                stop ==> full,
                seen.contains(ep as int),
                self.wf(),
                total_metric(dist),
                n == self.nodes.len(),
                visited.len() == n,
                seen.finite(),
                seen.len() <= n,
                forall|p: int| 0 <= p < n ==> (visited@[p] <==> seen.contains(p)),
                forall|p: int| seen.contains(p) ==> 0 <= p < n,
                descending(candidates@),
                forall|i: int|
                    0 <= i < candidates.len() ==> (#[trigger] candidates@[i]).position < n,
                forall|p: int| seen.contains(p) ==> reachable(self@.nodes, layer as int, ep, p as usize),
                forall|i: int| 0 <= i < candidates.len() ==> visited@[(#[trigger] candidates@[i]).position as int],
                measured(dist, q, &self.nodes[ep as int].vector, d0),
                found@[0].distance <= d0,
                full ==> found.len() >= ef,
                !full ==> found.len() < ef,
                !full ==> forall|p: int| seen.contains(p) ==> exists|i: int| 0 <= i < found.len() && found@[i].position == p,
                !full ==> forall|i: int| 0 <= i < candidates.len() ==> found@.contains(#[trigger] candidates@[i]),
                forall|p: int| expanded.contains(p) ==> seen.contains(p),
                forall|a: usize, b: usize| expanded.contains(a as int) && #[trigger] edge(self@.nodes, layer as int, a, b) ==> seen.contains(b as int),
                !full ==> forall|p: int| seen.contains(p) ==> expanded.contains(p) || exists|i: int| 0 <= i < candidates.len() && candidates@[i].position == p,
                1 <= found.len(),
                found.len() <= ef || found.len() == 1,
                ascending(found@),
                forall|i: int, j: int|
                    0 <= i < j < found.len() ==> found@[i].position != found@[j].position,
                forall|i: int|
                    0 <= i < found.len() ==> (#[trigger] found@[i]).position < n
                        && visited@[found@[i].position as int]
                        && measured(dist, q, &self.nodes[found@[i].position as int].vector, found@[i].distance),
            decreases 2 * (n - seen.len()) + candidates.len(),
        {
            let ghost before_pop = candidates@;
            let cur = candidates.pop().unwrap();
            proof {
                assert(cur == before_pop[before_pop.len() - 1]);
                assert(visited@[cur.position as int]);
                assert(seen.contains(cur.position as int));
            }
            let ghost budget = 2 * (n - seen.len()) + candidates.len();
            proof {
                if !full {
                    assert(found@.contains(cur));
                    let i = choose|i: int| 0 <= i < found.len() && found@[i] == cur;
                    assert(found@[i].distance <= found@[found.len() - 1].distance);
                    assert forall|p: int| seen.contains(p) implies p == cur.position || expanded.contains(p) || exists|i: int| 0 <= i < candidates.len() && candidates@[i].position == p by {
                        if !expanded.contains(p) && p != cur.position {
                            let i = choose|i: int| 0 <= i < before_pop.len() && before_pop[i].position == p;
                            assert(i != before_pop.len() - 1);
                            assert(candidates@[i] == before_pop[i]);
                        }
                    }
                    assert forall|i: int| 0 <= i < candidates.len() implies found@.contains(#[trigger] candidates@[i]) by {
                        assert(candidates@[i] == before_pop[i]);
                    }
                }
            }
            let ghost origin = cur.position as int;
            if cur.distance > found[found.len() - 1].distance {
                stop = true;
            } else if layer < self.nodes[cur.position].neighbors.len() {
                let list = &self.nodes[cur.position].neighbors[layer];
                let mut j: usize = 0;
                while j < list.len()
                    invariant
                        self.wf(),
                        total_metric(dist),
                        n == self.nodes.len(),
                        0 <= origin < n,
                        layer < self.nodes[origin].neighbors.len(),
                        list == &self.nodes[origin].neighbors[layer as int],
                        0 <= j <= list.len(),
                        visited.len() == n,
                        seen.finite(),
                        seen.len() <= n,
                        2 * (n - seen.len()) + candidates.len() <= budget,
                        forall|p: int| 0 <= p < n ==> (visited@[p] <==> seen.contains(p)),
                        forall|p: int| seen.contains(p) ==> 0 <= p < n,
                        descending(candidates@),
                        forall|i: int|
                            0 <= i < candidates.len() ==> (#[trigger] candidates@[i]).position < n,
                        reachable(self@.nodes, layer as int, ep, origin as usize),
                        forall|p: int| seen.contains(p) ==> reachable(self@.nodes, layer as int, ep, p as usize),
                        forall|i: int| 0 <= i < candidates.len() ==> visited@[(#[trigger] candidates@[i]).position as int],
                        measured(dist, q, &self.nodes[ep as int].vector, d0),
                        found@[0].distance <= d0,
                        full ==> found.len() >= ef,
                        !full ==> found.len() < ef,
                        !full ==> forall|p: int| seen.contains(p) ==> exists|i: int| 0 <= i < found.len() && found@[i].position == p,
                        !full ==> forall|i: int| 0 <= i < candidates.len() ==> found@.contains(#[trigger] candidates@[i]),
                        forall|p: int| expanded.contains(p) ==> seen.contains(p),
                        forall|a: usize, b: usize| expanded.contains(a as int) && #[trigger] edge(self@.nodes, layer as int, a, b) ==> seen.contains(b as int),
                        !full ==> forall|p: int| seen.contains(p) ==> p == origin || expanded.contains(p) || exists|i: int| 0 <= i < candidates.len() && candidates@[i].position == p,
                        forall|jj: int| 0 <= jj < j ==> seen.contains(list@[jj] as int),
                        seen.contains(origin),
                        seen.contains(ep as int),
                        1 <= found.len(),
                        found.len() <= ef || found.len() == 1,
                        ascending(found@),
                        forall|i: int, j: int|
                            0 <= i < j < found.len() ==> found@[i].position != found@[j].position,
                        forall|i: int|
                            0 <= i < found.len() ==> (#[trigger] found@[i]).position < n
                                && visited@[found@[i].position as int]
                                && measured(dist, q, &self.nodes[found@[i].position as int].vector, found@[i].distance),
                    decreases list.len() - j,
                {
                    let nb = list[j];
                    proof {
                        assert(self@.nodes[origin].neighbors[layer as int][j as int] < self@.nodes.len());
                    }
                    if !visited[nb] {
                        visited.set(nb, true);
                        proof {
                            assert(!seen.contains(nb as int));
                            lemma_reach_step(self@.nodes, layer as int, ep, origin as usize, j as int);
                            seen = seen.insert(nb as int);
                            vstd::set_lib::lemma_int_range(0, n as int);
                            assert(seen.subset_of(vstd::set_lib::set_int_range(0, n as int)));
                            vstd::set_lib::lemma_len_subset(seen, vstd::set_lib::set_int_range(0, n as int));
                        }
                        let d = dist(q, &self.nodes[nb].vector);
                        let c = Candidate { position: nb, distance: d };
                        if d < found[found.len() - 1].distance || found.len() < ef {
                            let ghost old_cands = candidates@;
                            let kc = insert_descending(&mut candidates, c);
                            let ghost old_found = found@;
                            let k = insert_ascending(&mut found, c);
                            proof {
                                lemma_insert_keeps(old_found, k as int, c);
                                lemma_insert_keeps(old_cands, kc as int, c);
                                if !full {
                                    assert forall|i: int| 0 <= i < candidates.len() implies found@.contains(#[trigger] candidates@[i]) by {
                                        if i != kc {
                                            let oi = if i < kc { i } else { i - 1 };
                                            assert(candidates@[i] == old_cands[oi]);
                                            assert(old_found.contains(old_cands[oi]));
                                        }
                                    }
                                    assert forall|p: int| seen.contains(p) implies exists|i: int| 0 <= i < found.len() && found@[i].position == p by {
                                        if p == nb as int {
                                            assert(found@[k as int].position == nb);
                                        } else {
                                            let i = choose|i: int| 0 <= i < old_found.len() && old_found[i].position == p;
                                            let ni = if i < k { i } else { i + 1 };
                                            assert(found@[ni] == old_found[i]);
                                        }
                                    }
                                    assert forall|p: int| seen.contains(p) implies p == origin || expanded.contains(p) || exists|i: int| 0 <= i < candidates.len() && candidates@[i].position == p by {
                                        if p == nb as int {
                                            assert(candidates@[kc as int].position == nb);
                                        } else if p != origin && !expanded.contains(p) {
                                            let i = choose|i: int| 0 <= i < old_cands.len() && old_cands[i].position == p;
                                            let ni = if i < kc { i } else { i + 1 };
                                            assert(candidates@[ni] == old_cands[i]);
                                        }
                                    }
                                }
                            }
                            proof {
                                if k == 0 {
                                    assert(found@[1] == old_found[0]);
                                } else {
                                    assert(found@[0] == old_found[0]);
                                }
                                assert forall|i: int|
                                    0 <= i < found.len() implies (#[trigger] found@[i]).position < n
                                        && visited@[found@[i].position as int]
                                        && measured(dist, q, &self.nodes[found@[i].position as int].vector, found@[i].distance) by {
                                    if i < k {
                                        assert(found@[i] == old_found[i]);
                                    } else if i > k {
                                        assert(found@[i] == old_found[i - 1]);
                                    }
                                }
                                assert forall|i: int, j: int|
                                    0 <= i < j < found.len() implies found@[i].position != found@[j].position by {
                                    if i != k && j != k {
                                        let oi = if i < k { i } else { i - 1 };
                                        let oj = if j < k { j } else { j - 1 };
                                        assert(found@[i] == old_found[oi]);
                                        assert(found@[j] == old_found[oj]);
                                    } else if i == k {
                                        let oj = if j < k { j } else { j - 1 };
                                        assert(found@[j] == old_found[oj]);
                                        assert(visited@[old_found[oj].position as int]);
                                    } else {
                                        let oi = if i < k { i } else { i - 1 };
                                        assert(found@[i] == old_found[oi]);
                                        assert(visited@[old_found[oi].position as int]);
                                    }
                                }
                            }
                            if found.len() > ef {
                                let ghost whole = found@;
                                found.pop();
                                assert(found@[0] == whole[0]);
                            }
                            proof {
                                full = full || found.len() >= ef;
                            }
                        } else {
                            proof {
                                assert(full);
                            }
                        }
                    }
                    j += 1;
                }
                proof {
                    assert forall|a: usize, b: usize| (expanded.insert(origin)).contains(a as int) && #[trigger] edge(self@.nodes, layer as int, a, b)
                        implies seen.contains(b as int) by {
                        if a as int == origin {
                            let jj = choose|jj: int| 0 <= jj < list@.len() && list@[jj] == b;
                            assert(seen.contains(list@[jj] as int));
                        }
                    }
                    expanded = expanded.insert(origin);
                }
            } else {
                proof {
                    expanded = expanded.insert(origin);
                }
            }
        }
        proof {
            if !full {
                assert(seen.contains(ep as int));
                assert(expanded.contains(ep as int));
                assert forall|p: usize| #[trigger] reachable(self@.nodes, layer as int, ep, p) implies exists|i: int|
                    0 <= i < found.len() && found@[i].position == p by {
                    lemma_closed(self@.nodes, layer as int, ep, expanded, p);
                    assert(seen.contains(p as int));
                }
            }
            assert forall|i: int| 0 <= i < found.len() implies reachable(self@.nodes, layer as int, ep, (#[trigger] found@[i]).position) by {
                assert(seen.contains(found@[i].position as int));
            }
        }
        found
    }

    /// The entries of `list`, ranked by distance to the vector of node `s`
    /// (ascending, ties kept in list order), cut to the first `cap`.
    fn nearest_to<F: Fn(&Vec<u32>, &Vec<u32>) -> u32>(
        &self,
        s: usize,
        list: &Vec<usize>,
        cap: usize,
        dist: &F,
    ) -> (r: Vec<usize>)
        requires
            self.wf(),
            total_metric(dist),
            s < self.nodes.len(),
            forall|j: int| 0 <= j < list.len() ==> #[trigger] list@[j] < self.nodes.len(),
        ensures
            nearest_kept(dist, &self.nodes[s as int].vector, self@.nodes, list@, cap as int, r@),
            r.len() <= cap,
            r.len() <= list.len(),
            forall|j: int| 0 <= j < r.len() ==> #[trigger] r@[j] < self.nodes.len(),
    {
        broadcast use vstd::seq_lib::group_to_multiset_ensures;

        let mut ranked: Vec<Candidate> = Vec::new();
        let mut i: usize = 0;
        proof {
            assert(list@.take(0) =~= Seq::<usize>::empty());
            assert(positions_of(ranked@) =~= Seq::<usize>::empty());
        }
        while i < list.len()
            invariant
                self.wf(),
                total_metric(dist),
                s < self.nodes.len(),
                forall|j: int| 0 <= j < list.len() ==> #[trigger] list@[j] < self.nodes.len(),
                0 <= i <= list.len(),
                ranked.len() == i,
                ascending(ranked@),
                positions_of(ranked@).to_multiset() == list@.take(i as int).to_multiset(),
                forall|j: int|
                    0 <= j < ranked.len() ==> (#[trigger] ranked@[j]).position < self.nodes.len() && measured(
                        dist,
                        &self.nodes[s as int].vector,
                        &self.nodes[ranked@[j].position as int].vector,
                        ranked@[j].distance,
                    ),
            decreases list.len() - i,
        {
            let c = list[i];
            let d = dist(&self.nodes[s].vector, &self.nodes[c].vector);
            let ghost before = ranked@;
            let k = insert_ascending(&mut ranked, Candidate { position: c, distance: d });
            proof {
                lemma_insert_multiset(before, k as int, Candidate { position: c, distance: d });
                assert(list@.take(i + 1) =~= list@.take(i as int).push(c));
                list@.take(i as int).to_multiset_ensures();
                assert(list@.take(i + 1).to_multiset() =~= list@.take(i as int).to_multiset().insert(c));
                assert forall|j: int|
                    0 <= j < ranked.len() implies (#[trigger] ranked@[j]).position < self.nodes.len() && measured(
                        dist,
                        &self.nodes[s as int].vector,
                        &self.nodes[ranked@[j].position as int].vector,
                        ranked@[j].distance,
                    ) by {
                    if j < k {
                        assert(ranked@[j] == before[j]);
                    } else if j > k {
                        assert(ranked@[j] == before[j - 1]);
                    }
                }
            }
            i += 1;
        }
        proof {
            assert(list@.take(list.len() as int) =~= list@);
        }
        let mut kept: Vec<usize> = Vec::new();
        let mut i: usize = 0;
        while i < ranked.len() && i < cap
            invariant
                0 <= i <= ranked.len(),
                i <= cap,
                ranked.len() == list.len(),
                kept@ == positions_of(ranked@).take(i as int),
                forall|j: int| 0 <= j < ranked.len() ==> (#[trigger] ranked@[j]).position < self.nodes.len(),
            decreases ranked.len() - i,
        {
            kept.push(ranked[i].position);
            i += 1;
            assert(kept@ =~= positions_of(ranked@).take(i as int));
        }
        proof {
            assert(positions_of(ranked@).to_multiset() == list@.to_multiset());
            assert(kept@ == positions_of(ranked@).take(if cap < list.len() { cap as int } else { list.len() as int }));
            assert(nearest_kept(dist, &self.nodes[s as int].vector, self@.nodes, list@, cap as int, kept@));
        }
        kept
    }

    /// Adds the edge `s -> new` on `layer` (when `s` reaches that layer);
    /// a list that grows past its budget keeps only the entries nearest to `s`.
    fn link<F: Fn(&Vec<u32>, &Vec<u32>) -> u32>(
        &mut self,
        s: usize,
        new: usize,
        layer: usize,
        dist: &F,
    )
        requires
            old(self).wf(),
            total_metric(dist),
            s < old(self).nodes.len(),
            new < old(self).nodes.len(),
        ensures
            final(self).wf(),
            final(self).nodes.len() == old(self).nodes.len(),
            final(self).config == old(self).config,
            final(self).entry_point == old(self).entry_point,
            final(self).max_layer == old(self).max_layer,
            forall|i: int|
                0 <= i < final(self).nodes.len() ==> (#[trigger] final(self).nodes[i]).id == old(self).nodes[i].id
                    && final(self).nodes[i].vector == old(self).nodes[i].vector
                    && final(self).nodes[i].neighbors.len() == old(self).nodes[i].neighbors.len(),
            forall|i: int, l: int|
                0 <= i < old(self).nodes.len() && 0 <= l < old(self).nodes[i].neighbors.len() && (i != s || l
                    != layer) ==> (#[trigger] final(self).nodes[i].neighbors[l])@ == old(self).nodes[i].neighbors[l]@,
            layer < old(self).nodes[s as int].neighbors.len() ==> relinked(
                dist,
                final(self)@.nodes,
                s as int,
                old(self).nodes[s as int].neighbors[layer as int]@,
                new,
                old(self).config.cap(layer as int),
                final(self).nodes[s as int].neighbors[layer as int]@,
            ),
    {
        if layer < self.nodes[s].neighbors.len() {
            let cap = self.config.layer_cap(layer);
            let mut list: Vec<usize> = Vec::new();
            let mut i: usize = 0;
            while i < self.nodes[s].neighbors[layer].len()
                invariant
                    self.wf(),
                    s < self.nodes.len(),
                    new < self.nodes.len(),
                    layer < self.nodes[s as int].neighbors.len(),
                    0 <= i <= self.nodes[s as int].neighbors[layer as int].len(),
                    list.len() == i,
                    *self == *old(self),
                    list@ == self.nodes[s as int].neighbors[layer as int]@.take(i as int),
                    forall|j: int| 0 <= j < list.len() ==> #[trigger] list@[j] < self.nodes.len(),
                decreases self.nodes[s as int].neighbors[layer as int].len() - i,
            {
                proof {
                    assert(self@.nodes[s as int].neighbors[layer as int][i as int] < self@.nodes.len());
                }
                list.push(self.nodes[s].neighbors[layer][i]);
                i += 1;
                assert(list@ =~= self.nodes[s as int].neighbors[layer as int]@.take(i as int));
            }
            assert(list@ =~= self.nodes[s as int].neighbors[layer as int]@);
            list.push(new);
            let ghost grown = list@;
            proof {
                assert(self@.nodes[s as int].neighbors[layer as int].len() <= self.config.cap(layer as int));
            }
            if list.len() > cap {
                list = self.nearest_to(s, &list, cap, dist);
            }
            proof {
                if grown.len() > cap {
                    assert(nearest_kept(dist, &self.nodes[s as int].vector, self@.nodes, grown, cap as int, list@));
                }
            }
            let ghost prev = self.nodes@;
            self.nodes[s].neighbors[layer] = list;
            proof {
                assert forall|i: int| 0 <= i < self.nodes.len() && i != s implies #[trigger] self.nodes@[i] == prev[i] by {}
                assert(self.nodes@[s as int].neighbors@ == prev[s as int].neighbors@.update(layer as int, list));
                assert forall|i: int, l: int|
                    0 <= i < self@.nodes.len() && 0 <= l < self@.nodes[i].neighbors.len()
                        implies (#[trigger] self@.nodes[i].neighbors[l]).len() <= self@.config.cap(l) by {
                    if i != s || l != layer {
                        assert(self@.nodes[i].neighbors[l] == prev[i].neighbors[l]);
                    }
                }
                assert forall|i: int, l: int, j: int|
                    0 <= i < self@.nodes.len() && 0 <= l < self@.nodes[i].neighbors.len() && 0 <= j
                        < self@.nodes[i].neighbors[l].len() implies (#[trigger] self@.nodes[i].neighbors[l][j]) < self@.nodes.len() by {
                    if i != s || l != layer {
                        assert(self@.nodes[i].neighbors[l] == prev[i].neighbors[l]);
                    }
                }
                assert forall|i: int| 0 <= i < self.nodes.len() implies self.positions@.contains_key(
                    (#[trigger] self.nodes[i]).id) && self.positions@[self.nodes[i].id] == i by {
                    assert(self.nodes[i].id == prev[i].id);
                }
                assert forall|i: int, l: int|
                    0 <= i < prev.len() && 0 <= l < prev[i].neighbors.len() && (i != s || l != layer)
                        implies (#[trigger] self.nodes@[i].neighbors[l])@ == prev[i].neighbors[l]@ by {
                    if i != s {
                        assert(self.nodes@[i] == prev[i]);
                    }
                }
                if grown.len() > cap {
                    lemma_kept_transfer(dist, &prev[s as int].vector, prev, self@.nodes, grown, cap as int, list@);
                }
            }
        }
    }
}

/// Every consistent index is storable: the premise under which
/// `deserialize` turns the bytes that `serialize` made back into an index
/// with the same contents.
pub proof fn lemma_snapshot_round_trip(idx: &HnswIndex)
    requires
        idx.wf(),
    ensures
        idx@.storable(),
{
}

/// Serializing what `deserialize` rebuilt from the bytes of an index gives
/// those bytes again.
pub proof fn lemma_reserialize(bytes: Seq<u8>, original: IndexView, rebuilt: IndexView)
    requires
        bytes == framed(index_words(original)),
        index_words(original).len() <= usize::MAX,
        index_words(rebuilt).len() <= usize::MAX,
        begins_with_frame(bytes, index_words(rebuilt)),
    ensures
        framed(index_words(rebuilt)) == bytes,
{
    assert(bytes.subrange(0, bytes.len() as int) =~= bytes);
    lemma_frame_unique(bytes, index_words(original), index_words(rebuilt));
}

} // verus!
