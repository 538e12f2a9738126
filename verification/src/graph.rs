use vstd::prelude::*;
use vstd::pervasive::VecAdditionalExecFns;
use crate::DsaError;

verus! {

/// An edge record `(source, target, weight)` held in one slot of the
/// adjacency matrix.
pub type Node = (usize, usize, u8);

/// A directed, weighted graph over the vertex ids `0..size`, stored as a
/// dense adjacency matrix: `nodes[u][v]` holds `Some((u, v, w))` when there
/// is an edge from `u` to `v` of weight `w`, and `None` when there is none.
pub struct Graph {
    pub size: usize,
    pub nodes: Vec<Vec<Option<Node>>>,
}

impl Graph {
    /// Row `i` of the adjacency matrix, as a sequence.
    pub open spec fn row(self, i: int) -> Seq<Option<Node>> {
        self.nodes@[i]@
    }

    /// The slot of the ordered pair `(i, j)`.
    pub open spec fn slot(self, i: int, j: int) -> Option<Node> {
        self.nodes@[i]@[j]
    }

    /// The whole matrix as a sequence of rows.
    pub open spec fn mat(self) -> Seq<Seq<Option<Node>>> {
        self.nodes@.map_values(|r: Vec<Option<Node>>| r@)
    }

    /// Well-formedness: the matrix is `size` by `size`, and a populated slot
    /// at `[i][j]` records exactly the edge from `i` to `j`.
    pub open spec fn wf(self) -> bool {
        &&& self.nodes@.len() == self.size
        &&& (forall|i: int| 0 <= i < self.size ==> (#[trigger] self.row(i)).len() == self.size)
        &&& (forall|i: int, j: int|
            0 <= i < self.size && 0 <= j < self.size ==> ((#[trigger] self.slot(i, j)) matches Some(t)
                ==> t.0 == i && t.1 == j))
    }

    /// There is an edge from `u` to `v`.
    pub open spec fn has_edge(self, u: int, v: int) -> bool {
        0 <= u < self.size && 0 <= v < self.size && self.slot(u, v) is Some
    }

    /// The weight of the edge from `u` to `v` (meaningful only when
    /// `has_edge(u, v)`).
    pub open spec fn edge_weight(self, u: int, v: int) -> int {
        self.slot(u, v)->Some_0.2 as int
    }

    /// A graph with `size` vertices and no edges.
    pub fn new(size: usize) -> (g: Self)
        ensures
            g.wf(),
            g.size == size,
            forall|u: int, v: int| !g.has_edge(u, v),
    {
        let mut nodes: Vec<Vec<Option<Node>>> = Vec::new();
        let mut i: usize = 0;
        while i < size
            invariant
                i <= size,
                nodes@.len() == i,
                forall|k: int| 0 <= k < i ==> (#[trigger] nodes@[k])@.len() == size,
                forall|k: int, j: int| 0 <= k < i && 0 <= j < size ==> (#[trigger] nodes@[k]@[j]) is None,
            decreases size - i,
        {
            let mut r: Vec<Option<Node>> = Vec::new();
            let mut j: usize = 0;
            while j < size
                invariant
                    j <= size,
                    r@.len() == j,
                    forall|k: int| 0 <= k < j ==> (#[trigger] r@[k]) is None,
                decreases size - j,
            {
                r.push(None);
                j = j + 1;
            }
            nodes.push(r);
            i = i + 1;
        }
        Graph { size, nodes }
    }

    /// The matrix after an edge from `vertex` to `edge` of weight `weight`
    /// is written into its slot, overwriting whatever the slot held.
    pub open spec fn mat_with_edge(
        m: Seq<Seq<Option<Node>>>,
        vertex: usize,
        edge: usize,
        weight: u8,
    ) -> Seq<Seq<Option<Node>>> {
        m.update(vertex as int, m[vertex as int].update(edge as int, Some((vertex, edge, weight))))
    }

    /// Inserts (or overwrites) the edge from `vertex` to `edge` with the
    /// given weight. Out-of-range indices are rejected with `OutOfRange`
    /// and the graph is left unchanged.
    pub fn add_edge(&mut self, vertex: usize, edge: usize, weight: u8) -> (r: Result<(), DsaError>)
        requires
            old(self).wf(),
        ensures
            final(self).wf(),
            final(self).size == old(self).size,
            vertex < old(self).size && edge < old(self).size ==> {
                &&& r is Ok
                &&& final(self).mat() == Graph::mat_with_edge(old(self).mat(), vertex, edge, weight)
            },
            !(vertex < old(self).size && edge < old(self).size) ==> {
                &&& r == Result::<(), DsaError>::Err(DsaError::OutOfRange)
                &&& *final(self) == *old(self)
            },
    {
        if vertex >= self.size || edge >= self.size {
            return Err(DsaError::OutOfRange);
        }
        proof {
            assert(old(self).row(vertex as int).len() == old(self).size);
        }
        let mut r = self.nodes.remove(vertex);
        r.set(edge, Some((vertex, edge, weight)));
        self.nodes.insert(vertex, r);
        proof {
            assert(self.nodes@ =~= old(self).nodes@.update(
                vertex as int,
                self.nodes@[vertex as int],
            ));
            assert(forall|i: int|
                0 <= i < self.size && i != vertex ==> #[trigger] self.row(i) == old(self).row(i));
            assert(self.row(vertex as int) == old(self).row(vertex as int).update(
                edge as int,
                Some((vertex, edge, weight)),
            ));
            assert(forall|i: int, j: int|
                0 <= i < self.size && 0 <= j < self.size ==> #[trigger] self.slot(i, j) == (if i
                    == vertex && j == edge {
                    Some((vertex, edge, weight))
                } else {
                    old(self).slot(i, j)
                }));
            assert(self.mat() =~= Graph::mat_with_edge(old(self).mat(), vertex, edge, weight));
        }
        Ok(())
    }
}

impl Default for Graph {
    /// The empty graph: no vertices, no edges.
    fn default() -> (g: Self)
        ensures
            g.wf(),
            g.size == 0,
    {
        Graph::new(0)
    }
}

// ---------------------------------------------------------------------------
// Paths and shortest distances
// ---------------------------------------------------------------------------

/// `p` is a walk through `g`: at least one vertex, every vertex in range, and
/// an edge between each consecutive pair.
pub open spec fn valid_path(g: Graph, p: Seq<int>) -> bool {
    &&& p.len() >= 1
    &&& (forall|i: int| 0 <= i < p.len() ==> 0 <= #[trigger] p[i] < g.size)
    &&& (forall|i: int| 0 <= i < p.len() - 1 ==> g.has_edge(#[trigger] p[i], p[i + 1]))
}

/// The sum of the edge weights along `p`.
pub open spec fn path_weight(g: Graph, p: Seq<int>) -> int
    decreases p.len(),
{
    if p.len() <= 1 {
        0
    } else {
        g.edge_weight(p[0], p[1]) + path_weight(g, p.drop_first())
    }
}

/// `p` is a path through `g` that starts at `src` and ends at `dst`.
pub open spec fn is_path_between(g: Graph, p: Seq<int>, src: int, dst: int) -> bool {
    valid_path(g, p) && p[0] == src && p[p.len() - 1] == dst
}

/// Some path leads from `src` to `dst`.
pub open spec fn reachable(g: Graph, src: int, dst: int) -> bool {
    exists|p: Seq<int>| is_path_between(g, p, src, dst)
}

/// `d` is the true graph-theoretic shortest distance from `src` to `v`:
/// `Some(n)` exactly when some path of weight `n` leads there and no path is
/// shorter, `None` exactly when no path leads there at all.
pub open spec fn is_shortest_dist(g: Graph, src: int, v: int, d: Option<usize>) -> bool {
    match d {
        Some(n) => (exists|p: Seq<int>| is_path_between(g, p, src, v) && path_weight(g, p) == n)
            && (forall|p: Seq<int>| is_path_between(g, p, src, v) ==> path_weight(g, p) >= n),
        None => !reachable(g, src, v),
    }
}

/// Every path has nonnegative weight, since edge weights are unsigned.
pub proof fn lemma_path_weight_nonneg(g: Graph, p: Seq<int>)
    requires
        valid_path(g, p),
    ensures
        path_weight(g, p) >= 0,
    decreases p.len(),
{
    if p.len() > 1 {
        assert(valid_path(g, p.drop_first())) by {
            assert(forall|i: int|
                0 <= i < p.drop_first().len() ==> #[trigger] p.drop_first()[i] == p[i + 1]);
        }
        lemma_path_weight_nonneg(g, p.drop_first());
        assert(g.has_edge(p[0], p[1]));
    }
}

/// Extending a path by one edge adds that edge's weight.
pub proof fn lemma_path_weight_push(g: Graph, p: Seq<int>, v: int)
    requires
        valid_path(g, p),
        g.has_edge(p[p.len() - 1], v),
    ensures
        valid_path(g, p.push(v)),
        path_weight(g, p.push(v)) == path_weight(g, p) + g.edge_weight(p[p.len() - 1], v),
    decreases p.len(),
{
    let q = p.push(v);
    assert(forall|i: int| 0 <= i < p.len() ==> #[trigger] q[i] == p[i]);
    assert(q[p.len() as int] == v);
    if p.len() == 1 {
        assert(path_weight(g, q) == g.edge_weight(q[0], q[1]) + path_weight(g, q.drop_first()));
        assert(q.drop_first() =~= seq![v]);
    } else {
        assert(valid_path(g, p.drop_first())) by {
            assert(forall|i: int|
                0 <= i < p.drop_first().len() ==> #[trigger] p.drop_first()[i] == p[i + 1]);
        }
        lemma_path_weight_push(g, p.drop_first(), v);
        assert(q.drop_first() =~= p.drop_first().push(v));
    }
}

/// In a distance table where every edge out of a finitely-ranked vertex is
/// relaxed, following any path from a vertex keeps the table's entries below
/// the running weight.
pub open spec fn all_relaxed(g: Graph, d: Seq<Option<usize>>) -> bool {
    forall|u: int, v: int| #![trigger d[u], g.has_edge(u, v)]
        0 <= u < g.size && d[u] is Some && g.has_edge(u, v) ==> d[v] is Some
            && d[v]->Some_0 <= d[u]->Some_0 + g.edge_weight(u, v)
}

/// Chaining relaxation along a whole path: if the table is relaxed everywhere
/// and bounds the path's first vertex by `budget`, it bounds the path's last
/// vertex by `budget` plus the path's weight.
pub proof fn lemma_relaxed_chain(g: Graph, d: Seq<Option<usize>>, p: Seq<int>, budget: int)
    requires
        g.wf(),
        d.len() == g.size,
        all_relaxed(g, d),
        valid_path(g, p),
        d[p[0]] is Some,
        d[p[0]]->Some_0 <= budget,
    ensures
        d[p[p.len() - 1]] is Some,
        d[p[p.len() - 1]]->Some_0 <= budget + path_weight(g, p),
    decreases p.len(),
{
    if p.len() == 1 {
    } else {
        assert(g.has_edge(p[0], p[1]));
        assert(d[p[1]] is Some && d[p[1]]->Some_0 <= d[p[0]]->Some_0 + g.edge_weight(p[0], p[1]));
        let q = p.drop_first();
        assert(valid_path(g, q)) by {
            assert(forall|i: int| 0 <= i < q.len() ==> #[trigger] q[i] == p[i + 1]);
        }
        assert(q[0] == p[1]);
        lemma_relaxed_chain(g, d, q, budget + g.edge_weight(p[0], p[1]));
        assert(q[q.len() - 1] == p[p.len() - 1]);
    }
}

/// The shortest distance from a vertex to itself is zero: the one-vertex path
/// has weight zero, and no path's weight is negative.
pub proof fn lemma_shortest_dist_at_source(g: Graph, src: int, d: Option<usize>)
    requires
        0 <= src < g.size,
        is_shortest_dist(g, src, src, d),
    ensures
        d == Some(0usize),
{
    let p0: Seq<int> = seq![src];
    assert(is_path_between(g, p0, src, src));
    assert(path_weight(g, p0) == 0);
    match d {
        Some(n) => {
            assert(path_weight(g, p0) >= n);
            let pw = choose|p: Seq<int>| is_path_between(g, p, src, src) && path_weight(g, p) == n;
            lemma_path_weight_nonneg(g, pw);
        },
        None => {
            assert(reachable(g, src, src));
        },
    }
}

/// Shortest distances are unique: two values that both satisfy
/// `is_shortest_dist` for the same graph, source and vertex are equal.
pub proof fn lemma_shortest_dist_unique(g: Graph, src: int, v: int, d1: Option<usize>, d2: Option<usize>)
    requires
        is_shortest_dist(g, src, v, d1),
        is_shortest_dist(g, src, v, d2),
    ensures
        d1 == d2,
{
    match (d1, d2) {
        (Some(n1), Some(n2)) => {
            let p1 = choose|p: Seq<int>| is_path_between(g, p, src, v) && path_weight(g, p) == n1;
            let p2 = choose|p: Seq<int>| is_path_between(g, p, src, v) && path_weight(g, p) == n2;
            assert(path_weight(g, p1) >= n2);
            assert(path_weight(g, p2) >= n1);
        },
        (Some(n1), None) => {
            let p1 = choose|p: Seq<int>| is_path_between(g, p, src, v) && path_weight(g, p) == n1;
            assert(reachable(g, src, v));
        },
        (None, Some(n2)) => {
            let p2 = choose|p: Seq<int>| is_path_between(g, p, src, v) && path_weight(g, p) == n2;
            assert(reachable(g, src, v));
        },
        (None, None) => {},
    }
}

/// Two whole tables of shortest distances for the same graph and source are
/// equal: querying the graph twice gives identical results.
pub proof fn lemma_shortest_dist_table_unique(
    g: Graph,
    src: int,
    r1: Seq<Option<usize>>,
    r2: Seq<Option<usize>>,
)
    requires
        r1.len() == g.size,
        r2.len() == g.size,
        forall|v: int| 0 <= v < g.size ==> is_shortest_dist(g, src, v, #[trigger] r1[v]),
        forall|v: int| 0 <= v < g.size ==> is_shortest_dist(g, src, v, #[trigger] r2[v]),
    ensures
        r1 == r2,
{
    assert forall|v: int| 0 <= v < g.size implies r1[v] == r2[v] by {
        lemma_shortest_dist_unique(g, src, v, r1[v], r2[v]);
    }
    assert(r1 =~= r2);
}

// ---------------------------------------------------------------------------
// The priority queue and the termination measure
// ---------------------------------------------------------------------------

/// The rank of one distance entry for the termination measure: an unreached
/// vertex counts as `cap`, which is kept above every reachable finite value.
pub open spec fn pot(d: Option<usize>, cap: int) -> int {
    match d {
        None => cap,
        Some(n) => n as int,
    }
}

/// The sum of the ranks of a whole distance table.
pub open spec fn pot_sum(d: Seq<Option<usize>>, cap: int) -> int
    decreases d.len(),
{
    if d.len() == 0 {
        0
    } else {
        pot_sum(d.drop_last(), cap) + pot(d.last(), cap)
    }
}

proof fn lemma_pot_sum_nonneg(d: Seq<Option<usize>>, cap: int)
    requires
        cap >= 0,
    ensures
        pot_sum(d, cap) >= 0,
    decreases d.len(),
{
    if d.len() > 0 {
        lemma_pot_sum_nonneg(d.drop_last(), cap);
    }
}

proof fn lemma_pot_sum_update(d: Seq<Option<usize>>, i: int, x: Option<usize>, cap: int)
    requires
        0 <= i < d.len(),
    ensures
        pot_sum(d.update(i, x), cap) == pot_sum(d, cap) - pot(d[i], cap) + pot(x, cap),
    decreases d.len(),
{
    let du = d.update(i, x);
    if i == d.len() - 1 {
        assert(du.drop_last() =~= d.drop_last());
    } else {
        assert(du.drop_last() =~= d.drop_last().update(i, x));
        lemma_pot_sum_update(d.drop_last(), i, x, cap);
    }
}

/// Removes and returns an entry of minimal first component from the vector,
/// which serves as the lazy-deletion min-priority queue.
fn pop_min(heap: &mut Vec<(usize, usize)>) -> (r: (usize, usize))
    requires
        old(heap)@.len() > 0,
    ensures
        old(heap)@.contains(r),
        final(heap)@.len() == old(heap)@.len() - 1,
        forall|k: int| 0 <= k < final(heap)@.len() ==> old(heap)@.contains(#[trigger] final(heap)@[k]),
        forall|k: int| 0 <= k < final(heap)@.len() ==> r.0 <= (#[trigger] final(heap)@[k]).0,
        forall|k: int|
            0 <= k < old(heap)@.len() ==> old(heap)@[k] == r || final(heap)@.contains(
                #[trigger] old(heap)@[k],
            ),
{
    let mut best: usize = 0;
    let mut k: usize = 1;
    while k < heap.len()
        invariant
            heap@ == old(heap)@,
            heap@.len() > 0,
            best < k,
            1 <= k <= heap@.len(),
            forall|i: int| 0 <= i < k ==> heap@[best as int].0 <= (#[trigger] heap@[i]).0,
        decreases heap@.len() - k,
    {
        if heap[k].0 < heap[best].0 {
            best = k;
        }
        k = k + 1;
    }
    let ghost h0 = heap@;
    let r = heap.swap_remove(best);
    proof {
        let h1 = heap@;
        let last = h0.len() - 1;
        assert(h0[best as int] == r);
        assert forall|kk: int| 0 <= kk < h1.len() implies h0.contains(#[trigger] h1[kk]) && r.0
            <= h1[kk].0 by {
            if kk == best {
                assert(h1[kk] == h0[last]);
            } else {
                assert(h1[kk] == h0[kk]);
            }
        }
        assert forall|kk: int| 0 <= kk < h0.len() implies h0[kk] == r || h1.contains(
            #[trigger] h0[kk],
        ) by {
            if kk != best {
                if kk == last {
                    assert(h1[best as int] == h0[kk]);
                } else {
                    assert(h1[kk] == h0[kk]);
                }
            }
        }
    }
    r
}

// ---------------------------------------------------------------------------
// Dijkstra's algorithm with a lazy-deletion priority queue
// ---------------------------------------------------------------------------

/// Every queue entry `(w, v)` names an in-range vertex whose recorded
/// distance exists and is at most `w` (entries go stale, never fresh again).
pub open spec fn inv_queue_dominated(g: Graph, d: Seq<Option<usize>>, h: Seq<(usize, usize)>) -> bool {
    forall|k: int|
        0 <= k < h.len() ==> (#[trigger] h[k]).1 < g.size && d[h[k].1 as int] is Some
            && d[h[k].1 as int]->Some_0 <= h[k].0
}

/// Every recorded finite distance is the weight of an actual path from the
/// source.
pub open spec fn inv_sound(g: Graph, src: int, d: Seq<Option<usize>>) -> bool {
    forall|v: int|
        0 <= v < g.size && (#[trigger] d[v]) is Some ==> exists|p: Seq<int>|
            is_path_between(g, p, src, v) && path_weight(g, p) == d[v]->Some_0
}

/// Every finitely-ranked vertex that is not yet settled still has a fresh
/// queue entry carrying exactly its current distance.
pub open spec fn inv_fresh_cover(
    g: Graph,
    d: Seq<Option<usize>>,
    h: Seq<(usize, usize)>,
    s: Set<int>,
) -> bool {
    forall|v: int|
        0 <= v < g.size && !s.contains(v) && (#[trigger] d[v]) is Some ==> h.contains(
            (d[v]->Some_0, v as usize),
        )
}

/// Settled vertices are in range and have a recorded distance.
pub open spec fn inv_settled_ok(g: Graph, d: Seq<Option<usize>>, s: Set<int>) -> bool {
    forall|u: int| #[trigger] s.contains(u) ==> 0 <= u < g.size && d[u] is Some
}

/// Every edge out of a settled vertex has been relaxed.
pub open spec fn inv_settled_relaxed(g: Graph, d: Seq<Option<usize>>, s: Set<int>) -> bool {
    forall|u: int, v: int| #![trigger s.contains(u), g.has_edge(u, v)]
        s.contains(u) && g.has_edge(u, v) ==> d[v] is Some && d[v]->Some_0 <= d[u]->Some_0
            + g.edge_weight(u, v)
}

/// No settled distance exceeds any entry still in the queue: settled
/// distances are final.
pub open spec fn inv_monotone(d: Seq<Option<usize>>, h: Seq<(usize, usize)>, s: Set<int>) -> bool {
    forall|u: int, k: int| #![trigger s.contains(u), h[k]]
        s.contains(u) && 0 <= k < h.len() ==> d[u]->Some_0 <= h[k].0
}

/// `fin` is exactly the set of finitely-ranked vertices, and every recorded
/// distance is bounded by the weight of a short path: at most `0xff` per
/// vertex reached before it. This keeps the arithmetic inside `usize`.
pub open spec fn inv_fin_bound(g: Graph, d: Seq<Option<usize>>, fin: Set<int>) -> bool {
    &&& fin.finite()
    &&& (forall|v: int| #[trigger] fin.contains(v) ==> 0 <= v < g.size)
    &&& (forall|v: int| 0 <= v < g.size ==> (fin.contains(v) <==> (#[trigger] d[v]) is Some))
    &&& (forall|v: int|
        0 <= v < g.size && (#[trigger] d[v]) is Some ==> d[v]->Some_0 <= 0xff * (fin.len() - 1))
}

impl Graph {
    /// Dijkstra's single-source shortest-path algorithm over the adjacency
    /// matrix, with a lazy-deletion priority queue: stale entries are
    /// discarded when popped. Returns, for every vertex, `Some` of the true
    /// shortest distance from `src`, or `None` where no path leads. The
    /// graph itself is not touched; `dst` plays no part in the computation.
    /// Beyond well-formedness the one precondition is the machine limit
    /// that `0xff * size` fits in `usize`, which bounds every distance.
    pub fn djk_spt(&self, src: usize, dst: usize) -> (r: Result<Vec<Option<usize>>, DsaError>)
        requires
            self.wf(),
            0xff * (self.size as int) <= usize::MAX as int,
        ensures
            src < self.size ==> (r matches Ok(d) && d@.len() == self.size && d@[src as int]
                == Some(0usize) && (forall|v: int|
                0 <= v < self.size ==> is_shortest_dist(*self, src as int, v, #[trigger] d@[v]))),
            src >= self.size ==> r == Result::<Vec<Option<usize>>, DsaError>::Err(
                DsaError::OutOfRange,
            ),
    {
        let ghost g = *self;
        if src >= self.size {
            return Err(DsaError::OutOfRange);
        }
        let size = self.size;
        let ghost cap: int = 0xff * (size as int) + 1;
        let mut dist: Vec<Option<usize>> = Vec::new();
        let mut i: usize = 0;
        while i < size
            invariant
                i <= size,
                dist@.len() == i,
                forall|k: int| 0 <= k < i ==> (#[trigger] dist@[k]) is None,
            decreases size - i,
        {
            dist.push(None);
            i = i + 1;
        }
        dist.set(src, Some(0));
        let mut heap: Vec<(usize, usize)> = Vec::new();
        heap.push((0, src));
        let ghost mut settled: Set<int> = Set::empty();
        let ghost mut fin: Set<int> = Set::empty().insert(src as int);
        proof {
            let p0: Seq<int> = seq![src as int];
            assert(is_path_between(g, p0, src as int, src as int));
            assert(path_weight(g, p0) == 0);
            assert(heap@[0] == (0usize, src));
            lemma_pot_sum_nonneg(dist@, cap);
        }
        while heap.len() > 0
            invariant
                g == *self,
                g.wf(),
                src < g.size,
                size == g.size,
                cap == 0xff * (size as int) + 1,
                0xff * (size as int) <= usize::MAX as int,
                dist@.len() == size,
                dist@[src as int] == Some(0usize),
                inv_queue_dominated(g, dist@, heap@),
                inv_sound(g, src as int, dist@),
                inv_fresh_cover(g, dist@, heap@, settled),
                inv_settled_ok(g, dist@, settled),
                inv_settled_relaxed(g, dist@, settled),
                inv_monotone(dist@, heap@, settled),
                inv_fin_bound(g, dist@, fin),
                pot_sum(dist@, cap) >= 0,
            decreases pot_sum(dist@, cap), heap@.len(),
        {
            let ghost h0 = heap@;
            let ghost dist0 = dist@;
            let (w1, v1) = pop_min(&mut heap);
            proof {
                let kk = choose|kk: int| 0 <= kk < h0.len() && h0[kk] == (w1, v1);
                assert(h0[kk] == (w1, v1));
            }
            let dv1 = match dist[v1] {
                Some(x) => x,
                None => 0,
            };
            if w1 > dv1 {
                // Stale entry: a shorter distance was recorded after this
                // entry was pushed; discard it.
                proof {
                    assert forall|k: int| 0 <= k < heap@.len() implies (#[trigger] heap@[k]).1
                        < g.size && dist@[heap@[k].1 as int] is Some && dist@[heap@[k].1 as int]->Some_0
                        <= heap@[k].0 by {
                        let kx = choose|kx: int| 0 <= kx < h0.len() && h0[kx] == heap@[k];
                        assert(h0[kx] == heap@[k]);
                    }
                    assert forall|v: int|
                        0 <= v < g.size && !settled.contains(v) && (#[trigger] dist@[v]) is Some
                            implies heap@.contains((dist@[v]->Some_0, v as usize)) by {
                        let e = (dist@[v]->Some_0, v as usize);
                        assert(h0.contains(e));
                        let kx = choose|kx: int| 0 <= kx < h0.len() && h0[kx] == e;
                        assert(h0[kx] != (w1, v1));
                    }
                    assert forall|u: int, k: int| #![trigger settled.contains(u), heap@[k]]
                        settled.contains(u) && 0 <= k < heap@.len() implies dist@[u]->Some_0
                        <= heap@[k].0 by {
                        let kx = choose|kx: int| 0 <= kx < h0.len() && h0[kx] == heap@[k];
                        assert(h0[kx] == heap@[k]);
                    }
                }
            } else {
                // Fresh entry: `v1`'s distance is final; settle it and relax
                // every outgoing edge.
                proof {
                    assert(w1 == dv1);
                    assert(dist@[v1 as int] == Some(w1));
                    settled = settled.insert(v1 as int);
                    assert forall|u: int| #[trigger] settled.contains(u) implies dist@[u] is Some
                        && dist@[u]->Some_0 <= w1 as int by {
                        if u != v1 as int {
                            let kx = choose|kx: int| 0 <= kx < h0.len() && h0[kx] == (w1, v1);
                            assert(dist@[u]->Some_0 <= h0[kx].0);
                        }
                    }
                    assert forall|k: int| 0 <= k < heap@.len() implies (#[trigger] heap@[k]).1
                        < g.size && dist@[heap@[k].1 as int] is Some && dist@[heap@[k].1 as int]->Some_0
                        <= heap@[k].0 by {
                        let kx = choose|kx: int| 0 <= kx < h0.len() && h0[kx] == heap@[k];
                        assert(h0[kx] == heap@[k]);
                    }
                    assert forall|u: int, k: int| #![trigger settled.contains(u), heap@[k]]
                        settled.contains(u) && 0 <= k < heap@.len() implies dist@[u]->Some_0
                        <= heap@[k].0 by {
                        if u == v1 as int {
                        } else {
                            let kx = choose|kx: int| 0 <= kx < h0.len() && h0[kx] == heap@[k];
                            assert(h0[kx] == heap@[k]);
                        }
                    }
                    assert forall|v: int|
                        0 <= v < g.size && !settled.contains(v) && (#[trigger] dist@[v]) is Some
                            implies heap@.contains((dist@[v]->Some_0, v as usize)) by {
                        let e = (dist@[v]->Some_0, v as usize);
                        assert(h0.contains(e));
                        let kx = choose|kx: int| 0 <= kx < h0.len() && h0[kx] == e;
                        assert(h0[kx] != (w1, v1)) by {
                            assert(v != v1 as int);
                        }
                    }
                }
                let mut j: usize = 0;
                while j < size
                    invariant
                        g == *self,
                        g.wf(),
                        src < g.size,
                        v1 < g.size,
                        size == g.size,
                        j <= size,
                        cap == 0xff * (size as int) + 1,
                        0xff * (size as int) <= usize::MAX as int,
                        dist@.len() == size,
                        dist@[src as int] == Some(0usize),
                        dist@[v1 as int] == Some(w1),
                        settled.contains(v1 as int),
                        forall|u: int| #[trigger] settled.contains(u) ==> dist@[u] is Some
                            && dist@[u]->Some_0 <= w1 as int,
                        inv_queue_dominated(g, dist@, heap@),
                        inv_sound(g, src as int, dist@),
                        inv_fresh_cover(g, dist@, heap@, settled),
                        inv_settled_ok(g, dist@, settled),
                        forall|u: int, v: int| #![trigger settled.contains(u), g.has_edge(u, v)]
                            settled.contains(u) && g.has_edge(u, v) && (u != v1 as int || v < j)
                                ==> dist@[v] is Some && dist@[v]->Some_0 <= dist@[u]->Some_0
                                + g.edge_weight(u, v),
                        inv_monotone(dist@, heap@, settled),
                        inv_fin_bound(g, dist@, fin),
                        (dist@ == dist0 && heap@.len() == h0.len() - 1) || pot_sum(dist@, cap)
                            < pot_sum(dist0, cap),
                        pot_sum(dist@, cap) >= 0,
                    decreases size - j,
                {
                    proof {
                        assert(g.nodes@.len() == g.size);
                        assert(g.row(v1 as int).len() == g.size);
                    }
                    let cell = self.nodes[v1][j];
                    match cell {
                        None => {
                            proof {
                                assert(!g.has_edge(v1 as int, j as int));
                            }
                        },
                        Some(t) => {
                            proof {
                                assert(g.slot(v1 as int, j as int) matches Some(tt) && tt.0 == v1
                                    && tt.1 == j);
                                assert(g.has_edge(v1 as int, j as int));
                                assert(g.edge_weight(v1 as int, j as int) == t.2 as int);
                                vstd::set_lib::lemma_int_range(0, size as int);
                                vstd::set_lib::lemma_len_subset(
                                    fin,
                                    vstd::set_lib::set_int_range(0, size as int),
                                );
                                assert(fin.len() <= size as int);
                                assert(w1 as int <= 0xff * (size as int - 1));
                            }
                            let w2 = t.2;
                            let nd = w1 + (w2 as usize);
                            let cur = dist[j];
                            let do_update = match cur {
                                None => true,
                                Some(dj) => nd < dj,
                            };
                            if do_update {
                                proof {
                                    // A settled vertex never gets a shorter
                                    // distance, so `j` is not settled.
                                    if settled.contains(j as int) {
                                        assert(dist@[j as int]->Some_0 <= w1 as int);
                                        assert(false);
                                    }
                                }
                                let ghost dprev = dist@;
                                let ghost hprev = heap@;
                                let ghost finprev = fin;
                                let ghost was_none = dist@[j as int] is None;
                                dist.set(j, Some(nd));
                                heap.push((nd, j));
                                proof {
                                    if was_none {
                                        fin = fin.insert(j as int);
                                        assert(!finprev.contains(j as int));
                                        assert(fin.len() == finprev.len() + 1);
                                    }
                                    // Soundness: extend a witness path for
                                    // `v1` by the relaxed edge.
                                    let pw = choose|p: Seq<int>|
                                        is_path_between(g, p, src as int, v1 as int)
                                            && path_weight(g, p) == dprev[v1 as int]->Some_0;
                                    lemma_path_weight_push(g, pw, j as int);
                                    let pw2 = pw.push(j as int);
                                    assert(is_path_between(g, pw2, src as int, j as int));
                                    assert(path_weight(g, pw2) == nd as int);
                                    assert forall|v: int|
                                        0 <= v < g.size && (#[trigger] dist@[v]) is Some
                                            implies exists|p: Seq<int>|
                                            is_path_between(g, p, src as int, v)
                                                && path_weight(g, p) == dist@[v]->Some_0 by {
                                        if v == j as int {
                                            assert(is_path_between(g, pw2, src as int, v)
                                                && path_weight(g, pw2) == dist@[v]->Some_0);
                                        } else {
                                            assert(dprev[v] == dist@[v]);
                                        }
                                    }
                                    // Fresh cover: the push covers `j`; every
                                    // other witness survives the push.
                                    assert(heap@[heap@.len() - 1] == (nd, j));
                                    assert forall|v: int|
                                        0 <= v < g.size && !settled.contains(v) && (
                                        #[trigger] dist@[v]) is Some implies heap@.contains(
                                            (dist@[v]->Some_0, v as usize),
                                        ) by {
                                        if v == j as int {
                                            assert(heap@[heap@.len() - 1] == (
                                                dist@[v]->Some_0,
                                                v as usize,
                                            ));
                                        } else {
                                            let e = (dist@[v]->Some_0, v as usize);
                                            assert(hprev.contains(e));
                                            let kx = choose|kx: int|
                                                0 <= kx < hprev.len() && hprev[kx] == e;
                                            assert(heap@[kx] == e);
                                        }
                                    }
                                    // The termination measure strictly fell.
                                    lemma_pot_sum_update(dprev, j as int, Some(nd), cap);
                                    assert(pot_sum(dist@, cap) < pot_sum(dprev, cap));
                                    lemma_pot_sum_nonneg(dist@, cap);
                                    // The finite-count bound still holds.
                                    assert forall|v: int|
                                        0 <= v < g.size && (#[trigger] dist@[v]) is Some
                                            implies dist@[v]->Some_0 <= 0xff * (fin.len() - 1) by {
                                        if v != j as int {
                                            assert(dprev[v] == dist@[v]);
                                            assert(dprev[v]->Some_0 <= 0xff * (finprev.len() - 1));
                                        }
                                    }
                                }
                            }
                        },
                    }
                    j = j + 1;
                }
            }
            proof {
                lemma_pot_sum_nonneg(dist@, cap);
            }
        }
        proof {
            assert forall|u: int, v: int| #![trigger dist@[u], g.has_edge(u, v)]
                0 <= u < g.size && dist@[u] is Some && g.has_edge(u, v) implies dist@[v] is Some
                && dist@[v]->Some_0 <= dist@[u]->Some_0 + g.edge_weight(u, v) by {
                if !settled.contains(u) {
                    assert(heap@.contains((dist@[u]->Some_0, u as usize)));
                    let kx = choose|kx: int|
                        0 <= kx < heap@.len() && heap@[kx] == (dist@[u]->Some_0, u as usize);
                    assert(false);
                }
                assert(settled.contains(u));
            }
            assert(all_relaxed(g, dist@));
            assert forall|v: int| 0 <= v < g.size implies is_shortest_dist(
                g,
                src as int,
                v,
                #[trigger] dist@[v],
            ) by {
                match dist@[v] {
                    Some(n) => {
                        assert forall|p: Seq<int>| is_path_between(g, p, src as int, v)
                            implies path_weight(g, p) >= n as int by {
                            lemma_relaxed_chain(g, dist@, p, 0);
                        }
                    },
                    None => {
                        if reachable(g, src as int, v) {
                            let p = choose|p: Seq<int>| is_path_between(g, p, src as int, v);
                            lemma_relaxed_chain(g, dist@, p, 0);
                        }
                    },
                }
            }
        }
        Ok(dist)
    }
}

// ---------------------------------------------------------------------------
// The two restricted relaxation scans and the reachability scan
// ---------------------------------------------------------------------------
//
// `djk_simple` and `bfs_spt` are deliberately restricted teaching variants,
// not general shortest-path algorithms: they walk the vertices once in index
// order instead of following the graph's connectivity, so their results are
// only lower approximations of true reachability. Their exact, restricted
// behaviour is part of the interface and is pinned down by the spec
// functions below; it must not be "fixed" into a general search.

/// The distance table every scan starts from: the source at zero, everything
/// else unreached.
pub open spec fn init_dist(size: int, src: int) -> Seq<Option<usize>> {
    Seq::new(size as nat, |i: int| if i == src { Some(0usize) } else { None })
}

/// One edge `(u, v, w)` may improve `v`'s entry: only when `u` has been
/// reached and the new candidate distance is strictly smaller (an unreached
/// `v` counts as infinitely far).
pub open spec fn would_relax(dist: Seq<Option<usize>>, u: int, v: int, w: int) -> bool {
    dist[u] is Some && (match dist[v] {
        None => true,
        Some(dv) => dist[u]->Some_0 + w < dv,
    })
}

/// The table after the standard relaxation step along one edge.
pub open spec fn relax(dist: Seq<Option<usize>>, u: int, v: int, w: int) -> Seq<Option<usize>> {
    if would_relax(dist, u, v, w) {
        dist.update(v, Some((dist[u]->Some_0 + w) as usize))
    } else {
        dist
    }
}

/// The slot index `djk_simple` picks out of one row: the first populated
/// slot of minimal weight, or `None` when the row holds no edge at all.
pub open spec fn min_edge_idx(row: Seq<Option<Node>>) -> Option<int>
    decreases row.len(),
{
    if row.len() == 0 {
        None
    } else {
        let rest = min_edge_idx(row.drop_last());
        match row.last() {
            None => rest,
            Some(t) => match rest {
                None => Some(row.len() - 1),
                Some(k) => if t.2 < row[k]->Some_0.2 {
                    Some(row.len() - 1)
                } else {
                    Some(k)
                },
            },
        }
    }
}

/// What `djk_simple` does with one row: relax along the row's single chosen
/// minimum-weight edge, if the row has any edge.
pub open spec fn greedy_step(g: Graph, dist: Seq<Option<usize>>, u: int) -> Seq<Option<usize>> {
    match min_edge_idx(g.row(u)) {
        None => dist,
        Some(k) => {
            let t = g.row(u)[k]->Some_0;
            relax(dist, t.0 as int, t.1 as int, t.2 as int)
        },
    }
}

/// The whole `djk_simple` pass: rows `0..n` in index order, one chosen edge
/// each.
pub open spec fn greedy_run(g: Graph, dist: Seq<Option<usize>>, n: int) -> Seq<Option<usize>>
    decreases n,
{
    if n <= 0 {
        dist
    } else {
        greedy_step(g, greedy_run(g, dist, n - 1), n - 1)
    }
}

/// What `bfs_spt` does with the first `j` slots of one row: relax each
/// populated slot, in slot order.
pub open spec fn row_scan(
    dist: Seq<Option<usize>>,
    row: Seq<Option<Node>>,
    j: int,
) -> Seq<Option<usize>>
    decreases j,
{
    if j <= 0 {
        dist
    } else {
        let prev = row_scan(dist, row, j - 1);
        match row[j - 1] {
            None => prev,
            Some(t) => relax(prev, t.0 as int, t.1 as int, t.2 as int),
        }
    }
}

/// The whole `bfs_spt` pass: rows `0..n` in index order, each scanned in
/// full.
pub open spec fn bfs_run(g: Graph, dist: Seq<Option<usize>>, n: int) -> Seq<Option<usize>>
    decreases n,
{
    if n <= 0 {
        dist
    } else {
        let prev = bfs_run(g, dist, n - 1);
        row_scan(prev, g.row(n - 1), g.row(n - 1).len() as int)
    }
}

/// What `bfs_traverse` does with one slot: collect the edge's target when
/// the edge's source is at or above the start threshold and the target was
/// not collected yet.
pub open spec fn visit_slot(vis: Seq<usize>, cell: Option<Node>, start: int) -> Seq<usize> {
    match cell {
        None => vis,
        Some(t) => if t.0 >= start && !vis.contains(t.1) {
            vis.push(t.1)
        } else {
            vis
        },
    }
}

/// The first `j` slots of one row, in index order.
pub open spec fn visit_row(vis: Seq<usize>, row: Seq<Option<Node>>, start: int, j: int) -> Seq<usize>
    decreases j,
{
    if j <= 0 {
        vis
    } else {
        visit_slot(visit_row(vis, row, start, j - 1), row[j - 1], start)
    }
}

/// The first `i` rows, in index order.
pub open spec fn visit_all(vis: Seq<usize>, g: Graph, start: int, i: int) -> Seq<usize>
    decreases i,
{
    if i <= 0 {
        vis
    } else {
        visit_row(visit_all(vis, g, start, i - 1), g.row(i - 1), start, g.row(i - 1).len() as int)
    }
}

/// Linear search of a plain vector.
fn vec_contains(v: &Vec<usize>, x: usize) -> (b: bool)
    ensures
        b == v@.contains(x),
{
    let mut i: usize = 0;
    while i < v.len()
        invariant
            i <= v@.len(),
            forall|k: int| 0 <= k < i ==> v@[k] != x,
        decreases v@.len() - i,
    {
        if v[i] == x {
            return true;
        }
        i = i + 1;
    }
    false
}

impl Graph {
    /// A deliberately restricted relaxation variant: for each vertex index
    /// in order, relax along that vertex's single minimum-weight outgoing
    /// edge only (the first such edge in slot order when weights tie),
    /// ignoring all its other edges. Its exact behaviour is `greedy_run`;
    /// it is not a general shortest-path algorithm.
    pub fn djk_simple(&self, src: usize, dst: usize) -> (r: Result<Vec<Option<usize>>, DsaError>)
        requires
            self.wf(),
            0xff * (self.size as int) <= usize::MAX as int,
        ensures
            src < self.size ==> (r matches Ok(d) && d@ == greedy_run(
                *self,
                init_dist(self.size as int, src as int),
                self.size as int,
            )),
            src >= self.size ==> r == Result::<Vec<Option<usize>>, DsaError>::Err(
                DsaError::OutOfRange,
            ),
    {
        let ghost g = *self;
        if src >= self.size {
            return Err(DsaError::OutOfRange);
        }
        let size = self.size;
        let mut dist: Vec<Option<usize>> = Vec::new();
        let mut i: usize = 0;
        while i < size
            invariant
                i <= size,
                dist@.len() == i,
                forall|k: int| 0 <= k < i ==> (#[trigger] dist@[k]) is None,
            decreases size - i,
        {
            dist.push(None);
            i = i + 1;
        }
        dist.set(src, Some(0));
        proof {
            assert(dist@ =~= init_dist(size as int, src as int));
        }
        let mut u: usize = 0;
        while u < size
            invariant
                g == *self,
                g.wf(),
                size == g.size,
                src < size,
                0xff * (size as int) <= usize::MAX as int,
                u <= size,
                dist@.len() == size,
                dist@ == greedy_run(g, init_dist(size as int, src as int), u as int),
                forall|v: int|
                    0 <= v < size && (#[trigger] dist@[v]) is Some ==> dist@[v]->Some_0 <= 0xff * (
                    u as int),
            decreases size - u,
        {
            proof {
                assert(g.nodes@.len() == g.size);
                assert(g.row(u as int).len() == g.size);
            }
            let ghost row = g.row(u as int);
            let mut best: Option<usize> = None;
            let mut j: usize = 0;
            while j < size
                invariant
                    g == *self,
                    g.wf(),
                    size == g.size,
                    u < size,
                    j <= size,
                    row == g.row(u as int),
                    g.nodes@.len() == g.size,
                    row.len() == size,
                    match best {
                        None => min_edge_idx(row.subrange(0, j as int)) is None,
                        Some(b) => b < j && row[b as int] is Some && min_edge_idx(
                            row.subrange(0, j as int),
                        ) == Some(b as int),
                    },
                decreases size - j,
            {
                let cell = self.nodes[u][j];
                proof {
                    assert(row.subrange(0, j as int + 1).drop_last() =~= row.subrange(0, j as int));
                    assert(row.subrange(0, j as int + 1).last() == row[j as int]);
                }
                match cell {
                    None => {},
                    Some(t) => {
                        match best {
                            None => {
                                best = Some(j);
                            },
                            Some(b) => {
                                let tb = self.nodes[u][b].unwrap();
                                if t.2 < tb.2 {
                                    best = Some(j);
                                }
                            },
                        }
                    },
                }
                j = j + 1;
            }
            proof {
                assert(row.subrange(0, size as int) =~= row);
            }
            let ghost dprev = dist@;
            match best {
                None => {
                    proof {
                        assert(greedy_step(g, dprev, u as int) == dprev);
                    }
                },
                Some(b) => {
                    let t = self.nodes[u][b].unwrap();
                    proof {
                        assert(g.slot(u as int, b as int) matches Some(tt) && tt.0 == u && tt.1
                            == b);
                    }
                    let du_opt = dist[t.0];
                    match du_opt {
                        None => {
                            proof {
                                assert(!would_relax(dprev, t.0 as int, t.1 as int, t.2 as int));
                                assert(greedy_step(g, dprev, u as int) == dprev);
                            }
                        },
                        Some(du) => {
                            proof {
                                assert(du as int <= 0xff * (u as int));
                                assert(du as int + 0xff <= 0xff * (size as int));
                            }
                            let nd = du + (t.2 as usize);
                            let cur = dist[t.1];
                            let do_update = match cur {
                                None => true,
                                Some(dv) => nd < dv,
                            };
                            if do_update {
                                dist.set(t.1, Some(nd));
                                proof {
                                    assert(would_relax(dprev, t.0 as int, t.1 as int, t.2 as int));
                                    assert(dist@ == relax(dprev, t.0 as int, t.1 as int, t.2 as int));
                                    assert(greedy_step(g, dprev, u as int) == dist@);
                                    assert forall|v: int|
                                        0 <= v < size && (#[trigger] dist@[v]) is Some
                                            implies dist@[v]->Some_0 <= 0xff * (u as int + 1) by {
                                        if v != t.1 as int {
                                            assert(dist@[v] == dprev[v]);
                                        }
                                    }
                                }
                            } else {
                                proof {
                                    assert(!would_relax(dprev, t.0 as int, t.1 as int, t.2 as int));
                                    assert(greedy_step(g, dprev, u as int) == dprev);
                                }
                            }
                        },
                    }
                },
            }
            u = u + 1;
        }
        Ok(dist)
    }
}

impl Graph {
    /// A vertex-index-ordered relaxation pass that consumes the adjacency
    /// list destructively: each row is popped from the front and scanned
    /// once, every populated slot relaxed in slot order, in creation order,
    /// not by graph connectivity. Its exact behaviour is `bfs_run`; it is
    /// not a correct breadth-first search, the graph's rows are gone
    /// afterwards, and `dst` plays no part in the computation.
    pub fn bfs_spt(&mut self, src: usize, dst: usize) -> (r: Result<Vec<Option<usize>>, DsaError>)
        requires
            old(self).wf(),
            0xff * (old(self).size as int) <= usize::MAX as int,
        ensures
            src < old(self).size ==> (r matches Ok(d) && d@ == bfs_run(
                *old(self),
                init_dist(old(self).size as int, src as int),
                old(self).size as int,
            ) && final(self).size == old(self).size && final(self).nodes@.len() == 0),
            src >= old(self).size ==> r == Result::<Vec<Option<usize>>, DsaError>::Err(
                DsaError::OutOfRange,
            ) && *final(self) == *old(self),
    {
        let ghost g = *old(self);
        if src >= self.size {
            return Err(DsaError::OutOfRange);
        }
        let size = self.size;
        let mut dist: Vec<Option<usize>> = Vec::new();
        let mut i: usize = 0;
        while i < size
            invariant
                i <= size,
                dist@.len() == i,
                forall|k: int| 0 <= k < i ==> (#[trigger] dist@[k]) is None,
            decreases size - i,
        {
            dist.push(None);
            i = i + 1;
        }
        dist.set(src, Some(0));
        proof {
            assert(dist@ =~= init_dist(size as int, src as int));
            assert(g.nodes@.len() == g.size);
            assert(self.nodes@ =~= g.nodes@.subrange(0, size as int));
        }
        let mut u: usize = 0;
        while u < size
            invariant
                g.wf(),
                size == g.size,
                src < size,
                0xff * (size as int) <= usize::MAX as int,
                u <= size,
                self.size == size,
                g.nodes@.len() == size,
                self.nodes@ == g.nodes@.subrange(u as int, size as int),
                dist@.len() == size,
                dist@ == bfs_run(g, init_dist(size as int, src as int), u as int),
                forall|v: int|
                    0 <= v < size && (#[trigger] dist@[v]) is Some ==> dist@[v]->Some_0 <= 0xff * (
                    u as int),
            decreases size - u,
        {
            proof {
                assert(g.row(u as int).len() == g.size);
                assert(self.nodes@[0] == g.nodes@[u as int]);
            }
            let rowv = self.nodes.remove(0);
            let ghost row = g.row(u as int);
            let ghost dbase = dist@;
            proof {
                assert(rowv@ == row);
                assert(self.nodes@ =~= g.nodes@.subrange(u as int + 1, size as int));
            }
            let mut j: usize = 0;
            while j < size
                invariant
                    g.wf(),
                    size == g.size,
                    src < size,
                    u < size,
                    j <= size,
                    0xff * (size as int) <= usize::MAX as int,
                    self.size == size,
                    g.nodes@.len() == size,
                    self.nodes@ == g.nodes@.subrange(u as int + 1, size as int),
                    row == g.row(u as int),
                    rowv@ == row,
                    row.len() == size,
                    dist@.len() == size,
                    dist@ == row_scan(dbase, row, j as int),
                    dist@[u as int] == dbase[u as int],
                    forall|v: int|
                        0 <= v < size && (#[trigger] dbase[v]) is Some ==> dbase[v]->Some_0 <= 0xff
                            * (u as int),
                    forall|v: int|
                        0 <= v < size && (#[trigger] dist@[v]) is Some ==> dist@[v]->Some_0 <= 0xff
                            * (u as int + 1),
                decreases size - j,
            {
                {
                    let cell = rowv[j];
                    match cell {
                        None => {},
                        Some(t) => {
                            proof {
                                assert(g.slot(u as int, j as int) matches Some(tt) && tt.0 == u
                                    && tt.1 == j);
                            }
                            let du_opt = dist[t.0];
                            match du_opt {
                                None => {
                                    proof {
                                        assert(!would_relax(
                                            dist@,
                                            t.0 as int,
                                            t.1 as int,
                                            t.2 as int,
                                        ));
                                    }
                                },
                                Some(du) => {
                                    proof {
                                        assert(dist@[u as int] is Some ==> dist@[u as int]->Some_0
                                            <= 0xff * (u as int));
                                        assert(du as int <= 0xff * (u as int));
                                        assert(du as int + 0xff <= 0xff * (size as int));
                                    }
                                    let nd = du + (t.2 as usize);
                                    let cur = dist[t.1];
                                    let do_update = match cur {
                                        None => true,
                                        Some(dv) => nd < dv,
                                    };
                                    if do_update {
                                        let ghost dprev = dist@;
                                        dist.set(t.1, Some(nd));
                                        proof {
                                            assert(would_relax(
                                                dprev,
                                                t.0 as int,
                                                t.1 as int,
                                                t.2 as int,
                                            ));
                                            assert(dist@ == relax(
                                                dprev,
                                                t.0 as int,
                                                t.1 as int,
                                                t.2 as int,
                                            ));
                                            assert(t.1 != u);
                                            assert(dist@[u as int] == dprev[u as int]);
                                            assert forall|v: int|
                                                0 <= v < size && (#[trigger] dist@[v]) is Some
                                                    implies dist@[v]->Some_0 <= 0xff * (u as int
                                                    + 1) by {
                                                if v != t.1 as int {
                                                    assert(dist@[v] == dprev[v]);
                                                }
                                            }
                                        }
                                    } else {
                                        proof {
                                            assert(!would_relax(
                                                dist@,
                                                t.0 as int,
                                                t.1 as int,
                                                t.2 as int,
                                            ));
                                        }
                                    }
                                },
                            }
                        },
                    }
                }
                j = j + 1;
            }
            proof {
                assert(bfs_run(g, init_dist(size as int, src as int), u as int + 1)
                    == row_scan(dbase, row, row.len() as int));
            }
            u = u + 1;
        }
        proof {
            assert(self.nodes@.len() == 0);
        }
        Ok(dist)
    }

    /// The approximate reachability scan: `start` is collected first,
    /// unconditionally; then every adjacency row is scanned in index order,
    /// and an edge's target is collected when the edge's source id is at or
    /// above `start` and the target has not been collected yet. This only
    /// filters by the source-index threshold; it does not follow edges
    /// transitively from `start`. Its exact behaviour is `visit_all`.
    pub fn bfs_traverse(self, start: usize) -> (r: Result<Vec<usize>, DsaError>)
        requires
            self.wf(),
        ensures
            start < self.size ==> (r matches Ok(v) && v@ == visit_all(
                seq![start],
                self,
                start as int,
                self.size as int,
            )),
            start >= self.size ==> r == Result::<Vec<usize>, DsaError>::Err(DsaError::OutOfRange),
    {
        if start >= self.size {
            return Err(DsaError::OutOfRange);
        }
        let size = self.size;
        let mut visited: Vec<usize> = Vec::new();
        visited.push(start);
        proof {
            assert(visited@ =~= seq![start]);
        }
        let mut i: usize = 0;
        while i < size
            invariant
                self.wf(),
                size == self.size,
                start < size,
                i <= size,
                visited@ == visit_all(seq![start], self, start as int, i as int),
            decreases size - i,
        {
            proof {
                assert(self.nodes@.len() == self.size);
                assert(self.row(i as int).len() == self.size);
            }
            let ghost vbase = visited@;
            let mut j: usize = 0;
            while j < size
                invariant
                    self.wf(),
                    size == self.size,
                    start < size,
                    i < size,
                    j <= size,
                    self.nodes@.len() == size,
                    self.row(i as int).len() == size,
                    visited@ == visit_row(vbase, self.row(i as int), start as int, j as int),
                decreases size - j,
            {
                let cell = self.nodes[i][j];
                match cell {
                    None => {},
                    Some(t) => {
                        let seen = vec_contains(&visited, t.1);
                        if !seen && t.0 >= start {
                            visited.push(t.1);
                        }
                    },
                }
                j = j + 1;
            }
            i = i + 1;
        }
        Ok(visited)
    }
}

/// Writing the same edge twice leaves the matrix exactly as writing it once
/// does: `add_edge` is overwrite-idempotent.
pub proof fn lemma_add_edge_idempotent(
    m: Seq<Seq<Option<Node>>>,
    vertex: usize,
    edge: usize,
    weight: u8,
)
    requires
        vertex < m.len(),
        edge < m[vertex as int].len(),
    ensures
        Graph::mat_with_edge(Graph::mat_with_edge(m, vertex, edge, weight), vertex, edge, weight)
            == Graph::mat_with_edge(m, vertex, edge, weight),
{
    let m1 = Graph::mat_with_edge(m, vertex, edge, weight);
    let m2 = Graph::mat_with_edge(m1, vertex, edge, weight);
    assert(m1[vertex as int].update(edge as int, Some((vertex, edge, weight)))
        =~= m1[vertex as int]);
    assert(m2 =~= m1);
}

} // verus!
