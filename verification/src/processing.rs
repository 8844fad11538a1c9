//! In-memory proximity index and batch insert processing.
//!
//! A single-layer, HNSW-inspired approximate nearest neighbour graph with a
//! brute-force fallback: below a fixed node-count threshold every search is
//! an exact linear scan; above it a greedy best-first traversal from the
//! entry point accumulates up to `ef = 4 * k` candidates and keeps the best
//! `k`. The approximate regime offers no recall guarantee.

use vstd::prelude::*;

use crate::embedding::{score, score_spec, Metric};
use crate::fp::key;
use crate::rank::{
    holds_id, holds_pair, ids_distinct, pop_best, sorted_desc_by_key, top_k_desc,
};

verus! {

/// A graph node: id, stored vector (possibly normalized by the store), and a
/// bounded single-layer neighbour list.
pub struct Node {
    pub id: String,
    pub vector: Vec<u32>,
    pub neighbors: Vec<String>,
}

/// Node counts up to this threshold are searched by exact linear scan;
/// larger graphs use the greedy traversal.
pub const BRUTE_THRESHOLD: usize = 500;

/// Maximum number of neighbours per node.
pub const MAX_NEIGHBORS: usize = 16;

/// A lightweight HNSW-inspired approximate nearest neighbour index.
/// Falls back to brute force while the dataset is small.
pub struct HnswIndex {
    pub dim: usize,
    pub max_elements: usize,
    pub nodes: Vec<Node>,
    pub m: usize,
    pub entry: Option<String>,
}

/// Some node carries this id.
pub open spec fn has_node(ns: Seq<Node>, id: Seq<char>) -> bool {
    exists|i: int| 0 <= i < ns.len() && ns[i].id@ == id
}

/// The index of the node carrying this id (meaningful under `nodes_distinct`
/// when `has_node` holds).
pub open spec fn node_index(ns: Seq<Node>, id: Seq<char>) -> int {
    choose|i: int| 0 <= i < ns.len() && ns[i].id@ == id
}

/// The node carrying this id.
pub open spec fn node_at(ns: Seq<Node>, id: Seq<char>) -> Node {
    ns[node_index(ns, id)]
}

/// All node ids are pairwise distinct.
pub open spec fn nodes_distinct(ns: Seq<Node>) -> bool {
    forall|i: int, j: int| 0 <= i < j < ns.len() ==> ns[i].id@ != ns[j].id@
}

/// A well-formed neighbour list: bounded by `m`, no duplicates, no
/// self-reference, and every entry names a live node.
pub open spec fn neighbor_list_ok(ns: Seq<Node>, n: Node, m: usize) -> bool {
    &&& n.neighbors@.len() <= m
    &&& forall|i: int, j: int|
        0 <= i < j < n.neighbors@.len() ==> n.neighbors@[i]@ != n.neighbors@[j]@
    &&& forall|i: int|
        0 <= i < n.neighbors@.len() ==> #[trigger] n.neighbors@[i]@ != n.id@ && has_node(
            ns,
            n.neighbors@[i]@,
        )
}

/// Every pair names a live node and carries exactly that node's score
/// against the query under the given metric.
pub open spec fn pairs_valid(
    rs: Seq<(String, u32)>,
    ns: Seq<Node>,
    metric: Metric,
    q: Seq<u32>,
) -> bool {
    forall|i: int|
        0 <= i < rs.len() ==> has_node(ns, #[trigger] rs[i].0@) && rs[i].1 == score_spec(
            metric,
            q,
            node_at(ns, rs[i].0@).vector@,
        )
}

/// How an insert under `id` may touch an existing node: id and vector stay,
/// and the neighbour list either stays or, when it had room and did not hold
/// the id yet, gets the id appended (a best-effort back-link).
pub open spec fn kept_or_backlinked(o: Node, f: Node, id: String, m: usize) -> bool {
    &&& f.id == o.id
    &&& f.vector == o.vector
    &&& (f.neighbors@ == o.neighbors@ || (o.neighbors@.len() < m && !list_has(
        o.neighbors@,
        id@,
    ) && f.neighbors@ == o.neighbors@.push(id)))
}

/// The list names a best-scoring selection of nodes under the cosine
/// metric: exactly `cnt` pairwise-distinct live nodes other than `id`, and
/// no node left outside the list scores higher against the query than any
/// node inside it (ties at the boundary may fall either way).
pub open spec fn best_cosine_selection(
    ns: Seq<Node>,
    q: Seq<u32>,
    id: Seq<char>,
    nbrs: Seq<String>,
    cnt: int,
) -> bool {
    &&& nbrs.len() == cnt
    &&& forall|k1: int, k2: int| 0 <= k1 < k2 < nbrs.len() ==> nbrs[k1]@ != nbrs[k2]@
    &&& forall|k: int| 0 <= k < nbrs.len() ==> (#[trigger] nbrs[k])@ != id && has_node(ns, nbrs[k]@)
    &&& forall|j: int, k: int|
        0 <= j < ns.len() && 0 <= k < nbrs.len() && !list_has(nbrs, (#[trigger] ns[j]).id@)
            ==> key(score_spec(Metric::Cosine, q, ns[j].vector@)) <= key(
            score_spec(Metric::Cosine, q, node_at(ns, (#[trigger] nbrs[k])@).vector@),
        )
}

/// The list with every string of this view removed, keeping the order of the
/// rest.
pub open spec fn drop_id(s: Seq<String>, id: Seq<char>) -> Seq<String>
    decreases s.len(),
{
    if s.len() == 0 {
        Seq::empty()
    } else {
        let rest = drop_id(s.drop_last(), id);
        if s.last()@ == id {
            rest
        } else {
            rest.push(s.last())
        }
    }
}

/// The view of an optional id.
pub open spec fn entry_view(e: Option<String>) -> Option<Seq<char>> {
    match e {
        Some(s) => Some(s@),
        None => None,
    }
}

/// Dropping an id from a list keeps a sub-list: no occurrence of the id is
/// left, every kept string stood in the original, and distinct views stay
/// distinct.
proof fn lemma_drop_id_props(l: Seq<String>, id: Seq<char>)
    ensures
        drop_id(l, id).len() <= l.len(),
        forall|k: int|
            0 <= k < drop_id(l, id).len() ==> (#[trigger] drop_id(l, id)[k])@ != id,
        forall|k: int|
            0 <= k < drop_id(l, id).len() ==> exists|w: int|
                0 <= w < l.len() && #[trigger] drop_id(l, id)[k] == l[w],
        (forall|w1: int, w2: int| 0 <= w1 < w2 < l.len() ==> l[w1]@ != l[w2]@) ==> (forall|
            k1: int,
            k2: int,
        |
            0 <= k1 < k2 < drop_id(l, id).len() ==> (#[trigger] drop_id(l, id)[k1])@
                != (#[trigger] drop_id(l, id)[k2])@),
    decreases l.len(),
{
    if l.len() > 0 {
        let bl = l.drop_last();
        lemma_drop_id_props(bl, id);
        assert forall|k: int| 0 <= k < drop_id(l, id).len() implies exists|w: int|
            0 <= w < l.len() && #[trigger] drop_id(l, id)[k] == l[w] by {
            if k < drop_id(bl, id).len() {
                let w = choose|w: int| 0 <= w < bl.len() && drop_id(bl, id)[k] == bl[w];
                assert(drop_id(l, id)[k] == l[w]);
            } else {
                assert(drop_id(l, id)[k] == l[l.len() - 1]);
            }
        }
        if forall|w1: int, w2: int| 0 <= w1 < w2 < l.len() ==> l[w1]@ != l[w2]@ {
            assert(forall|w1: int, w2: int| 0 <= w1 < w2 < bl.len() ==> bl[w1]@ != bl[w2]@);
            assert forall|k1: int, k2: int|
                0 <= k1 < k2 < drop_id(l, id).len() implies (#[trigger] drop_id(l, id)[k1])@
                != (#[trigger] drop_id(l, id)[k2])@ by {
                if k2 < drop_id(bl, id).len() {
                } else {
                    assert(drop_id(l, id)[k2] == l.last());
                    assert(drop_id(l, id)[k1] == drop_id(bl, id)[k1]);
                    let w = choose|w: int| 0 <= w < bl.len() && drop_id(bl, id)[k1] == bl[w];
                    assert(l[w]@ != l[l.len() - 1]@);
                }
            }
        }
    }
}

/// Under distinct ids, a node is the one found at its own id.
pub(crate) proof fn lemma_node_index_of(ns: Seq<Node>, j: int)
    requires
        nodes_distinct(ns),
        0 <= j < ns.len(),
    ensures
        has_node(ns, ns[j].id@),
        node_index(ns, ns[j].id@) == j,
{
    assert(has_node(ns, ns[j].id@));
    let i = node_index(ns, ns[j].id@);
    if i != j {
        if i < j {
            assert(ns[i].id@ != ns[j].id@);
        } else {
            assert(ns[j].id@ != ns[i].id@);
        }
    }
}

/// Find the position of the node carrying this id.
fn find_node(ns: &Vec<Node>, id: &String) -> (r: Option<usize>)
    ensures
        match r {
            Some(i) => i < ns@.len() && ns@[i as int].id@ == id@,
            None => !has_node(ns@, id@),
        },
{
    let mut i: usize = 0;
    while i < ns.len()
        invariant
            i <= ns@.len(),
            forall|j: int| 0 <= j < i ==> ns@[j].id@ != id@,
        decreases ns@.len() - i,
    {
        if ns[i].id == *id {
            return Some(i);
        }
        i = i + 1;
    }
    None
}

/// Whether the list holds a string with this view.
pub open spec fn list_has(vs: Seq<String>, id: Seq<char>) -> bool {
    exists|i: int| 0 <= i < vs.len() && vs[i]@ == id
}

/// Linear membership test on a list of ids.
fn contains_str(vs: &Vec<String>, id: &String) -> (r: bool)
    ensures
        r == list_has(vs@, id@),
{
    let mut i: usize = 0;
    while i < vs.len()
        invariant
            i <= vs@.len(),
            forall|j: int| 0 <= j < i ==> vs@[j]@ != id@,
        decreases vs@.len() - i,
    {
        if vs[i] == *id {
            return true;
        }
        i = i + 1;
    }
    false
}

impl HnswIndex {
    /// Structural invariant: distinct ids, every vector of the configured
    /// dimension, every neighbour list well formed, and an entry point
    /// exactly when the graph is non-empty, always naming a live node.
    pub open spec fn wf(&self) -> bool {
        &&& nodes_distinct(self.nodes@)
        &&& forall|i: int|
            0 <= i < self.nodes@.len() ==> (#[trigger] self.nodes@[i]).vector@.len() == self.dim
        &&& forall|i: int|
            0 <= i < self.nodes@.len() ==> neighbor_list_ok(
                self.nodes@,
                #[trigger] self.nodes@[i],
                self.m,
            )
        &&& (self.entry is Some <==> self.nodes@.len() > 0)
        &&& (self.entry matches Some(e) ==> has_node(self.nodes@, e@))
        &&& self.m == MAX_NEIGHBORS
    }

    pub fn new(dim: usize, max_elements: usize) -> (r: Self)
        ensures
            r.wf(),
            r.dim == dim,
            r.max_elements == max_elements,
            r.nodes@.len() == 0,
            r.entry is None,
    {
        HnswIndex {
            dim,
            max_elements,
            nodes: Vec::new(),
            m: MAX_NEIGHBORS,
            entry: None,
        }
    }

    /// Number of indexed vectors.
    pub fn len(&self) -> (r: usize)
        ensures
            r == self.nodes@.len(),
    {
        self.nodes.len()
    }

    pub fn is_empty(&self) -> (r: bool)
        ensures
            r == (self.nodes@.len() == 0),
    {
        self.nodes.len() == 0
    }

    /// Exact search: score every node against the query, rank descending,
    /// keep the best `top_k`. This regime guarantees the true top `k` under
    /// the active score function.
    fn brute_search(&self, query: &Vec<u32>, top_k: usize, metric: &Metric) -> (r: Vec<
        (String, u32),
    >)
        requires
            self.wf(),
        ensures
            r@.len() == if top_k <= self.nodes@.len() {
                top_k as int
            } else {
                self.nodes@.len() as int
            },
            sorted_desc_by_key(r@),
            pairs_valid(r@, self.nodes@, *metric, query@),
            ids_distinct(r@),
            top_k >= self.nodes@.len() ==> forall|j: int|
                0 <= j < self.nodes@.len() ==> holds_pair(
                    r@,
                    (#[trigger] self.nodes@[j]).id@,
                    score_spec(*metric, query@, self.nodes@[j].vector@),
                ),
            top_k > 0 ==> forall|j: int|
                0 <= j < self.nodes@.len() && !holds_pair(
                    r@,
                    (#[trigger] self.nodes@[j]).id@,
                    score_spec(*metric, query@, self.nodes@[j].vector@),
                ) ==> r@.len() > 0 && key(score_spec(*metric, query@, self.nodes@[j].vector@))
                    <= key(r@[r@.len() - 1].1),
    {
        let ghost ns = self.nodes@;
        let mut scored: Vec<(String, u32)> = Vec::new();
        let mut i: usize = 0;
        while i < self.nodes.len()
            invariant
                i <= ns.len(),
                self.nodes@ == ns,
                self.wf(),
                scored@.len() == i,
                forall|j: int|
                    0 <= j < i ==> (#[trigger] scored@[j]).0@ == ns[j].id@ && scored@[j].1
                        == score_spec(*metric, query@, ns[j].vector@),
            decreases ns.len() - i,
        {
            let s = score(metric, query, &self.nodes[i].vector);
            scored.push((self.nodes[i].id.clone(), s));
            i = i + 1;
        }
        let ghost sc = scored@;
        proof {
            assert forall|i1: int, j1: int| 0 <= i1 < j1 < sc.len() implies sc[i1].0@
                != sc[j1].0@ by {
                assert(ns[i1].id@ != ns[j1].id@);
            }
        }
        let r = top_k_desc(scored, top_k);
        proof {
            assert forall|t: int| 0 <= t < r@.len() implies has_node(ns, #[trigger] r@[t].0@)
                && r@[t].1 == score_spec(*metric, query@, node_at(ns, r@[t].0@).vector@) by {
                assert(holds_pair(sc, r@[t].0@, r@[t].1));
                let w = choose|w: int|
                    0 <= w < sc.len() && sc[w].0@ == r@[t].0@ && sc[w].1 == r@[t].1;
                lemma_node_index_of(ns, w);
            }
            if top_k >= ns.len() {
                assert forall|j: int| 0 <= j < ns.len() implies holds_pair(
                    r@,
                    (#[trigger] ns[j]).id@,
                    score_spec(*metric, query@, ns[j].vector@),
                ) by {
                    assert(holds_pair(r@, sc[j].0@, sc[j].1));
                }
            }
            if top_k > 0 {
                assert forall|j: int|
                    0 <= j < ns.len() && !holds_pair(
                        r@,
                        (#[trigger] ns[j]).id@,
                        score_spec(*metric, query@, ns[j].vector@),
                    ) implies r@.len() > 0 && key(score_spec(*metric, query@, ns[j].vector@))
                    <= key(r@[r@.len() - 1].1) by {
                    assert(sc[j].0@ == ns[j].id@ && sc[j].1 == score_spec(
                        *metric,
                        query@,
                        ns[j].vector@,
                    ));
                    assert(!holds_pair(r@, sc[j].0@, sc[j].1));
                }
            }
        }
        r
    }

    /// Greedy best-first traversal from the entry point: repeatedly move the
    /// best-scoring unvisited candidate into the accumulator and enqueue its
    /// unvisited neighbours, until `ef = 4 * top_k` results are gathered or
    /// the frontier is exhausted; then rank the accumulator and keep the
    /// best `top_k`. No recall guarantee.
    fn graph_search(&self, query: &Vec<u32>, top_k: usize, metric: &Metric) -> (r: Vec<
        (String, u32),
    >)
        requires
            self.wf(),
        ensures
            r@.len() <= top_k,
            sorted_desc_by_key(r@),
            pairs_valid(r@, self.nodes@, *metric, query@),
            ids_distinct(r@),
            self.nodes@.len() > 0 && top_k > 0 ==> r@.len() > 0,
    {
        let ghost ns = self.nodes@;
        let entry_id = match &self.entry {
            Some(e) => e.clone(),
            None => {
                return Vec::new();
            },
        };
        let mut visited: Vec<String> = Vec::new();
        let mut candidates: Vec<(String, u32)> = Vec::new();
        let mut results: Vec<(String, u32)> = Vec::new();

        // Seed the frontier with the entry point only.
        let ei = match find_node(&self.nodes, &entry_id) {
            Some(i) => i,
            None => {
                // the entry point always names a live node
                proof {
                    assert(false);
                }
                return Vec::new();
            },
        };
        let es = score(metric, query, &self.nodes[ei].vector);
        proof {
            lemma_node_index_of(ns, ei as int);
        }
        candidates.push((self.nodes[ei].id.clone(), es));
        visited.push(self.nodes[ei].id.clone());
        proof {
            assert((results@ + candidates@)[0] == candidates@[0]);
            assert(visited@[0]@ == candidates@[0].0@);
        }

        let ef: usize = if top_k <= usize::MAX / 4 {
            top_k * 4
        } else {
            usize::MAX
        };

        while candidates.len() > 0 && results.len() < ef
            invariant
                self.wf(),
                self.nodes@ == ns,
                results@.len() <= ef,
                results@.len() > 0 || candidates@.len() > 0,
                pairs_valid(candidates@, ns, *metric, query@),
                pairs_valid(results@, ns, *metric, query@),
                ids_distinct(results@ + candidates@),
                forall|t: int|
                    0 <= t < (results@ + candidates@).len() ==> list_has(
                        visited@,
                        (#[trigger] (results@ + candidates@)[t]).0@,
                    ),
            decreases ef - results@.len(),
        {
            let ghost res0 = results@;
            let ghost cand0 = candidates@;
            let cur = pop_best(&mut candidates);
            let ci_opt = find_node(&self.nodes, &cur.0);
            proof {
                assert(holds_pair(cand0, cur.0@, cur.1));
                let w = choose|w: int|
                    0 <= w < cand0.len() && cand0[w].0@ == cur.0@ && cand0[w].1 == cur.1;
                assert((res0 + cand0)[res0.len() + w] == cand0[w]);
                // cur is distinct from every result and every remaining candidate
                assert forall|t: int| 0 <= t < res0.len() implies #[trigger] res0[t].0@
                    != cur.0@ by {
                    assert((res0 + cand0)[t] == res0[t]);
                }
            }
            results.push(cur);
            proof {
                let comb0 = res0 + cand0;
                let comb1 = results@ + candidates@;
                assert forall|i1: int, j1: int| 0 <= i1 < j1 < comb1.len() implies comb1[i1].0@
                    != comb1[j1].0@ by {
                    lemma_comb_after_extract(res0, cand0, results@, candidates@, cur, i1, j1);
                }
                assert forall|t: int| 0 <= t < comb1.len() implies list_has(
                    visited@,
                    (#[trigger] comb1[t]).0@,
                ) by {
                    lemma_comb_member_after_extract(res0, cand0, results@, candidates@, cur, t);
                    let u = choose|u: int| 0 <= u < comb0.len() && comb0[u].0@ == comb1[t].0@;
                    assert(list_has(visited@, comb0[u].0@));
                }
            }

            // Explore the extracted node's neighbours.
            let ci = match ci_opt {
                Some(i) => i,
                None => {
                    continue;
                },
            };
            let mut j: usize = 0;
            while j < self.nodes[ci].neighbors.len()
                invariant
                    self.wf(),
                    self.nodes@ == ns,
                    ci < ns.len(),
                    j <= ns[ci as int].neighbors@.len(),
                    results@.len() <= ef,
                    results@.len() > 0,
                    pairs_valid(candidates@, ns, *metric, query@),
                    pairs_valid(results@, ns, *metric, query@),
                    ids_distinct(results@ + candidates@),
                    forall|t: int|
                        0 <= t < (results@ + candidates@).len() ==> list_has(
                            visited@,
                            (#[trigger] (results@ + candidates@)[t]).0@,
                        ),
                decreases ns[ci as int].neighbors@.len() - j,
            {
                let nid = &self.nodes[ci].neighbors[j];
                if !contains_str(&visited, nid) {
                    let ghost vis0 = visited@;
                    let ghost comb0 = results@ + candidates@;
                    visited.push(nid.clone());
                    if let Some(nj) = find_node(&self.nodes, nid) {
                        let s = score(metric, query, &self.nodes[nj].vector);
                        proof {
                            lemma_node_index_of(ns, nj as int);
                            assert forall|t: int| 0 <= t < comb0.len() implies #[trigger] comb0[t].0@
                                != nid@ by {
                                assert(list_has(vis0, comb0[t].0@));
                            }
                        }
                        candidates.push((self.nodes[nj].id.clone(), s));
                        proof {
                            let comb1 = results@ + candidates@;
                            assert(comb1 =~= comb0.push((self.nodes@[nj as int].id, s)));
                            assert forall|t: int| 0 <= t < comb1.len() implies list_has(
                                visited@,
                                (#[trigger] comb1[t]).0@,
                            ) by {
                                if t < comb0.len() {
                                    assert(comb1[t] == comb0[t]);
                                    let u = choose|u: int|
                                        0 <= u < vis0.len() && vis0[u]@ == comb0[t].0@;
                                    assert(visited@[u]@ == comb1[t].0@);
                                } else {
                                    assert(visited@[visited@.len() - 1]@ == nid@);
                                }
                            }
                        }
                    } else {
                        proof {
                            assert(has_node(ns, ns[ci as int].neighbors@[j as int]@));
                        }
                    }
                } else {
                    proof {
                        let comb1 = results@ + candidates@;
                        assert(forall|t: int|
                            0 <= t < comb1.len() ==> list_has(
                                visited@,
                                (#[trigger] comb1[t]).0@,
                            ));
                    }
                }
                j = j + 1;
            }
        }

        // Final ranking of the accumulator.
        let ghost resv = results@;
        proof {
            if top_k > 0 {
                assert(ef > 0);
                assert(resv.len() > 0);
            }
            assert forall|i1: int, j1: int| 0 <= i1 < j1 < resv.len() implies resv[i1].0@
                != resv[j1].0@ by {
                let comb = resv + candidates@;
                assert(comb[i1] == resv[i1]);
                assert(comb[j1] == resv[j1]);
            }
        }
        let r = top_k_desc(results, top_k);
        proof {
            assert forall|t: int| 0 <= t < r@.len() implies has_node(ns, #[trigger] r@[t].0@)
                && r@[t].1 == score_spec(*metric, query@, node_at(ns, r@[t].0@).vector@) by {
                assert(holds_pair(resv, r@[t].0@, r@[t].1));
                let w = choose|w: int|
                    0 <= w < resv.len() && resv[w].0@ == r@[t].0@ && resv[w].1 == r@[t].1;
            }
        }
        r
    }

    /// Insert a vector under this id.
    ///
    /// The vector length must already equal `dim`: the store validates at its
    /// boundary and the graph does not re-validate. A fresh id arriving when
    /// the node count has reached `max_elements` is silently dropped (a hard
    /// capacity ceiling, no eviction); a live id is fully replaced in place,
    /// which leaves back-links made by earlier inserts pointing at the
    /// replaced node. Neighbour selection always scores under the cosine
    /// metric, whatever the store's configured metric, using whichever
    /// search regime the current size implies; each selected neighbour gets
    /// a best-effort back-link only while its own list has room, so the
    /// neighbour relation need not be symmetric. The first id ever inserted
    /// becomes the entry point.
    pub fn insert(&mut self, id: String, vector: Vec<u32>)
        requires
            old(self).wf(),
            vector@.len() == old(self).dim,
        ensures
            final(self).wf(),
            final(self).dim == old(self).dim,
            final(self).max_elements == old(self).max_elements,
            final(self).m == old(self).m,
            !has_node(old(self).nodes@, id@) && old(self).nodes@.len()
                >= old(self).max_elements ==> *final(self) == *old(self),
            !has_node(old(self).nodes@, id@) && old(self).nodes@.len()
                < old(self).max_elements ==> {
                &&& final(self).nodes@.len() == old(self).nodes@.len() + 1
                &&& final(self).nodes@.last().id@ == id@
                &&& final(self).nodes@.last().vector@ == vector@
                &&& old(self).nodes@.len() == 0 ==> final(self).nodes@.last().neighbors@.len()
                    == 0
                &&& (0 < old(self).nodes@.len() && old(self).nodes@.len() <= BRUTE_THRESHOLD)
                    ==> best_cosine_selection(
                    old(self).nodes@,
                    vector@,
                    id@,
                    final(self).nodes@.last().neighbors@,
                    if old(self).m <= old(self).nodes@.len() {
                        old(self).m as int
                    } else {
                        old(self).nodes@.len() as int
                    },
                )
                &&& forall|i: int|
                    0 <= i < old(self).nodes@.len() ==> kept_or_backlinked(
                        old(self).nodes@[i],
                        #[trigger] final(self).nodes@[i],
                        id,
                        old(self).m,
                    )
                &&& forall|i: int|
                    0 <= i < old(self).nodes@.len() && !list_has(
                        final(self).nodes@.last().neighbors@,
                        (#[trigger] old(self).nodes@[i]).id@,
                    ) ==> final(self).nodes@[i].neighbors@ == old(self).nodes@[i].neighbors@
                &&& forall|i: int|
                    0 <= i < old(self).nodes@.len() && list_has(
                        final(self).nodes@.last().neighbors@,
                        (#[trigger] old(self).nodes@[i]).id@,
                    ) && old(self).nodes@[i].neighbors@.len() < old(self).m
                        ==> final(self).nodes@[i].neighbors@
                        == old(self).nodes@[i].neighbors@.push(id)
                &&& forall|i: int|
                    0 <= i < old(self).nodes@.len()
                        && (#[trigger] old(self).nodes@[i]).neighbors@.len() >= old(self).m
                        ==> final(self).nodes@[i].neighbors@ == old(self).nodes@[i].neighbors@
                &&& (old(self).entry is Some ==> final(self).entry == old(self).entry)
                &&& (old(self).entry is None ==> (final(self).entry matches Some(e) && e@ == id@))
            },
            has_node(old(self).nodes@, id@) ==> {
                &&& final(self).nodes@.len() == old(self).nodes@.len()
                &&& final(self).nodes@[node_index(old(self).nodes@, id@)].id@ == id@
                &&& final(self).nodes@[node_index(old(self).nodes@, id@)].vector@ == vector@
                &&& forall|i: int|
                    0 <= i < old(self).nodes@.len() && i != node_index(old(self).nodes@, id@)
                        ==> kept_or_backlinked(
                        old(self).nodes@[i],
                        #[trigger] final(self).nodes@[i],
                        id,
                        old(self).m,
                    )
                &&& final(self).entry == old(self).entry
            },
    {
        let exists_idx = find_node(&self.nodes, &id);
        if exists_idx.is_none() && self.nodes.len() >= self.max_elements {
            return;
        }
        let ghost ns0 = self.nodes@;

        // Select up to m nearest existing nodes, always scored under cosine
        // (a documented quirk of the wiring), skipping the id itself when it
        // is being replaced.
        let sel = self.search(&vector, self.m, &Metric::Cosine);
        let mut nbrs: Vec<String> = Vec::new();
        let mut si: usize = 0;
        while si < sel.len()
            invariant
                si <= sel@.len(),
                sel@.len() <= self.m,
                self.nodes@ == ns0,
                self.wf(),
                pairs_valid(sel@, ns0, Metric::Cosine, vector@),
                ids_distinct(sel@),
                nbrs@.len() <= si,
                forall|k: int|
                    0 <= k < nbrs@.len() ==> (#[trigger] nbrs@[k])@ != id@ && has_node(
                        ns0,
                        nbrs@[k]@,
                    ),
                forall|k: int|
                    0 <= k < nbrs@.len() ==> exists|w: int|
                        0 <= w < si && (#[trigger] nbrs@[k])@ == sel@[w].0@,
                forall|k1: int, k2: int| 0 <= k1 < k2 < nbrs@.len() ==> nbrs@[k1]@ != nbrs@[k2]@,
                !has_node(ns0, id@) ==> nbrs@.len() == si && (forall|k: int|
                    0 <= k < si ==> (#[trigger] nbrs@[k])@ == sel@[k].0@),
            decreases sel@.len() - si,
        {
            proof {
                if sel@[si as int].0@ == id@ {
                    assert(has_node(ns0, sel@[si as int].0@));
                }
            }
            if !(sel[si].0 == id) {
                let ghost nb0 = nbrs@;
                nbrs.push(sel[si].0.clone());
                proof {
                    assert forall|k1: int, k2: int| 0 <= k1 < k2 < nbrs@.len() implies nbrs@[k1]@
                        != nbrs@[k2]@ by {
                        if k2 == nbrs@.len() - 1 {
                            let w1 = choose|w: int| 0 <= w < si && nb0[k1]@ == sel@[w].0@;
                            assert(sel@[w1].0@ != sel@[si as int].0@);
                        }
                    }
                    assert forall|k: int| 0 <= k < nbrs@.len() implies exists|w: int|
                        0 <= w < si + 1 && (#[trigger] nbrs@[k])@ == sel@[w].0@ by {
                        if k < nb0.len() {
                            let w1 = choose|w: int| 0 <= w < si && nb0[k]@ == sel@[w].0@;
                            assert(nbrs@[k]@ == sel@[w1].0@);
                        } else {
                            assert(nbrs@[k]@ == sel@[si as int].0@);
                        }
                    }
                }
            }
            si = si + 1;
        }

        // Best-effort back-links: append the new id to each selected
        // neighbour whose list still has room and does not hold it yet.
        let mut bi: usize = 0;
        proof {
            assert(nbrs@.take(0) =~= Seq::<String>::empty());
        }
        while bi < nbrs.len()
            invariant
                bi <= nbrs@.len(),
                self.nodes@.len() == ns0.len(),
                self.dim == old(self).dim,
                self.max_elements == old(self).max_elements,
                self.m == old(self).m,
                self.entry == old(self).entry,
                self.m == MAX_NEIGHBORS,
                nodes_distinct(ns0),
                forall|k: int|
                    0 <= k < nbrs@.len() ==> (#[trigger] nbrs@[k])@ != id@ && has_node(
                        ns0,
                        nbrs@[k]@,
                    ),
                forall|k1: int, k2: int| 0 <= k1 < k2 < nbrs@.len() ==> nbrs@[k1]@ != nbrs@[k2]@,
                forall|i: int|
                    0 <= i < ns0.len() ==> kept_or_backlinked(
                        ns0[i],
                        #[trigger] self.nodes@[i],
                        id,
                        self.m,
                    ),
                forall|i: int|
                    0 <= i < ns0.len() && !list_has(
                        nbrs@.take(bi as int),
                        (#[trigger] ns0[i]).id@,
                    ) ==> self.nodes@[i].neighbors == ns0[i].neighbors,
                forall|i: int|
                    0 <= i < ns0.len() && list_has(nbrs@.take(bi as int), (#[trigger] ns0[i]).id@)
                        && ns0[i].neighbors@.len() < self.m && !list_has(
                        ns0[i].neighbors@,
                        id@,
                    ) ==> self.nodes@[i].neighbors@ == ns0[i].neighbors@.push(id),
            decreases nbrs@.len() - bi,
        {
            let ghost touched0 = nbrs@.take(bi as int);
            let ghost touched1 = nbrs@.take(bi as int + 1);
            proof {
                // the views of the touched prefix grow by exactly one id
                assert(touched1[bi as int] == nbrs@[bi as int]);
                assert forall|y: Seq<char>| #[trigger] list_has(touched1, y) implies list_has(
                    touched0,
                    y,
                ) || nbrs@[bi as int]@ == y by {
                    let w = choose|w: int| 0 <= w < touched1.len() && touched1[w]@ == y;
                    if w < bi {
                        assert(touched0[w]@ == y);
                    }
                }
                assert forall|y: Seq<char>| #[trigger] list_has(touched0, y) implies list_has(
                    touched1,
                    y,
                ) by {
                    let w = choose|w: int| 0 <= w < touched0.len() && touched0[w]@ == y;
                    assert(touched1[w]@ == y);
                }
                // the id of this step is fresh among the touched prefix
                assert(!list_has(touched0, nbrs@[bi as int]@)) by {
                    if list_has(touched0, nbrs@[bi as int]@) {
                        let w = choose|w: int|
                            0 <= w < touched0.len() && touched0[w]@ == nbrs@[bi as int]@;
                        assert(nbrs@[w]@ == nbrs@[bi as int]@);
                    }
                }
            }
            match find_node(&self.nodes, &nbrs[bi]) {
                Some(t) => {
                    proof {
                        // the target is the unique node carrying this id, and
                        // its list has not been touched yet
                        assert(kept_or_backlinked(ns0[t as int], self.nodes@[t as int], id, self.m));
                        assert(ns0[t as int].id@ == nbrs@[bi as int]@);
                        assert(!list_has(touched0, ns0[t as int].id@));
                        assert(self.nodes@[t as int].neighbors == ns0[t as int].neighbors);
                        assert forall|i: int| 0 <= i < ns0.len() && ns0[i].id@ == nbrs@[bi as int]@
                            implies i == t by {
                            if i != t {
                                lemma_node_index_of(ns0, i);
                                lemma_node_index_of(ns0, t as int);
                            }
                        }
                    }
                    if self.nodes[t].neighbors.len() < self.m && !contains_str(
                        &self.nodes[t].neighbors,
                        &id,
                    ) {
                        let ghost before = self.nodes@;
                        let cl = id.clone();
                        self.nodes[t].neighbors.push(cl);
                        proof {
                            assert(self.nodes@[t as int].neighbors@ == ns0[t as int].neighbors@.push(
                                id,
                            ));
                            assert forall|i: int| 0 <= i < ns0.len() implies kept_or_backlinked(
                                ns0[i],
                                #[trigger] self.nodes@[i],
                                id,
                                self.m,
                            ) by {
                                if i != t {
                                    assert(self.nodes@[i] == before[i]);
                                } else {
                                    assert(!list_has(ns0[t as int].neighbors@, id@));
                                }
                            }
                            assert forall|i: int|
                                0 <= i < ns0.len() && !list_has(
                                    touched1,
                                    (#[trigger] ns0[i]).id@,
                                ) implies self.nodes@[i].neighbors == ns0[i].neighbors by {
                                assert(i != t);
                                assert(self.nodes@[i] == before[i]);
                                assert(!list_has(touched0, ns0[i].id@));
                            }
                            assert forall|i: int|
                                0 <= i < ns0.len() && list_has(touched1, (#[trigger] ns0[i]).id@)
                                    && ns0[i].neighbors@.len() < self.m && !list_has(
                                    ns0[i].neighbors@,
                                    id@,
                                ) implies self.nodes@[i].neighbors@ == ns0[i].neighbors@.push(
                                id,
                            ) by {
                                if i != t {
                                    assert(list_has(touched0, ns0[i].id@));
                                    assert(self.nodes@[i] == before[i]);
                                }
                            }
                        }
                    } else {
                        proof {
                            assert forall|i: int|
                                0 <= i < ns0.len() && !list_has(
                                    touched1,
                                    (#[trigger] ns0[i]).id@,
                                ) implies self.nodes@[i].neighbors == ns0[i].neighbors by {
                                assert(!list_has(touched0, ns0[i].id@));
                            }
                            assert forall|i: int|
                                0 <= i < ns0.len() && list_has(touched1, (#[trigger] ns0[i]).id@)
                                    && ns0[i].neighbors@.len() < self.m && !list_has(
                                    ns0[i].neighbors@,
                                    id@,
                                ) implies self.nodes@[i].neighbors@ == ns0[i].neighbors@.push(
                                id,
                            ) by {
                                if i == t {
                                    // the guard failed: either the list is
                                    // full or it already holds the id
                                    assert(self.nodes@[t as int].neighbors@
                                        == ns0[t as int].neighbors@);
                                    assert(list_has(self.nodes@[t as int].neighbors@, id@)
                                        || ns0[t as int].neighbors@.len() >= self.m);
                                } else {
                                    assert(list_has(touched0, ns0[i].id@));
                                }
                            }
                        }
                    }
                },
                None => {
                    proof {
                        // every selected neighbour names a live node, whose
                        // id the graph still carries
                        assert(has_node(ns0, nbrs@[bi as int]@));
                        let w = choose|w: int|
                            0 <= w < ns0.len() && ns0[w].id@ == nbrs@[bi as int]@;
                        assert(kept_or_backlinked(ns0[w], self.nodes@[w], id, self.m));
                        assert(self.nodes@[w].id@ == nbrs@[bi as int]@);
                        assert(false);
                    }
                },
            }
            bi = bi + 1;
        }
        let ghost ns1 = self.nodes@;

        // Write the node itself: replace in place, or append a fresh node.
        let ghost vecv = vector@;
        let ghost nbrsv = nbrs@;
        match exists_idx {
            Some(x) => {
                proof {
                    lemma_node_index_of(ns0, x as int);
                }
                self.nodes[x].vector = vector;
                self.nodes[x].neighbors = nbrs;
                proof {
                    lemma_insert_wf_replace(
                        ns0,
                        ns1,
                        self.nodes@,
                        id,
                        x as int,
                        self.m,
                        self.dim,
                        vecv,
                        nbrsv,
                    );
                }
            },
            None => {
                let new_node = Node { id: id.clone(), vector, neighbors: nbrs };
                self.nodes.push(new_node);
                proof {
                    lemma_insert_wf_fresh(ns0, ns1, self.nodes@, id, self.m, self.dim, vecv, nbrsv);
                    let ns2 = self.nodes@;
                    let lasti = ns2.len() - 1;
                    assert(ns2[lasti].neighbors@ == nbrsv);
                    assert(nbrsv.take(nbrsv.len() as int) =~= nbrsv);
                    // the fresh id stands in no old neighbour list
                    assert forall|i: int| 0 <= i < ns0.len() implies !list_has(
                        (#[trigger] ns0[i]).neighbors@,
                        id@,
                    ) by {
                        if list_has(ns0[i].neighbors@, id@) {
                            let w = choose|w: int|
                                0 <= w < ns0[i].neighbors@.len() && ns0[i].neighbors@[w]@ == id@;
                            assert(has_node(ns0, ns0[i].neighbors@[w]@));
                        }
                    }
                    // a node outside the selection kept its list
                    assert forall|i: int|
                        0 <= i < ns0.len() && !list_has(
                            nbrsv,
                            (#[trigger] ns0[i]).id@,
                        ) implies ns2[i].neighbors@ == ns0[i].neighbors@ by {
                        assert(ns2[i] == ns1[i]);
                        assert(ns1[i].neighbors == ns0[i].neighbors);
                    }
                    // a chosen node with room gained the back-link
                    assert forall|i: int|
                        0 <= i < ns0.len() && list_has(nbrsv, (#[trigger] ns0[i]).id@)
                            && ns0[i].neighbors@.len() < self.m implies ns2[i].neighbors@
                        == ns0[i].neighbors@.push(id) by {
                        assert(ns2[i] == ns1[i]);
                        assert(ns1[i].neighbors@ == ns0[i].neighbors@.push(id));
                    }
                    // a full list stayed as it was
                    assert forall|i: int|
                        0 <= i < ns0.len() && (#[trigger] ns0[i]).neighbors@.len()
                            >= self.m implies ns2[i].neighbors@ == ns0[i].neighbors@ by {
                        assert(ns2[i] == ns1[i]);
                        assert(kept_or_backlinked(ns0[i], ns1[i], id, self.m));
                    }
                    // in the exact regime the selection is a best-scoring one
                    if 0 < ns0.len() && ns0.len() <= BRUTE_THRESHOLD {
                        assert forall|j: int, k: int|
                            0 <= j < ns0.len() && 0 <= k < nbrsv.len() && !list_has(
                                nbrsv,
                                (#[trigger] ns0[j]).id@,
                            ) implies key(score_spec(Metric::Cosine, vecv, ns0[j].vector@)) <= key(
                            score_spec(
                                Metric::Cosine,
                                vecv,
                                node_at(ns0, (#[trigger] nbrsv[k])@).vector@,
                            ),
                        ) by {
                            let scj = score_spec(Metric::Cosine, vecv, ns0[j].vector@);
                            assert(!holds_pair(sel@, ns0[j].id@, scj)) by {
                                if holds_pair(sel@, ns0[j].id@, scj) {
                                    let w = choose|w: int|
                                        0 <= w < sel@.len() && sel@[w].0@ == ns0[j].id@
                                            && sel@[w].1 == scj;
                                    assert(nbrsv[w]@ == ns0[j].id@);
                                }
                            }
                            assert(key(scj) <= key(sel@[sel@.len() - 1].1));
                            assert(key(sel@[k].1) >= key(sel@[sel@.len() - 1].1));
                            assert(sel@[k].1 == score_spec(
                                Metric::Cosine,
                                vecv,
                                node_at(ns0, sel@[k].0@).vector@,
                            ));
                            assert(nbrsv[k]@ == sel@[k].0@);
                        }
                    }
                }
                if self.entry.is_none() {
                    self.entry = Some(id);
                }
            },
        }
    }

    /// Remove the node carrying this id (a no-op when it is absent): the
    /// node goes, every remaining neighbour list drops its references to the
    /// id, and when the removed node was the entry point the first remaining
    /// node takes its place (an arbitrary choice, no "best" policy), or the
    /// entry clears if the graph became empty.
    pub fn remove(&mut self, id: &str)
        requires
            old(self).wf(),
        ensures
            final(self).wf(),
            final(self).dim == old(self).dim,
            final(self).max_elements == old(self).max_elements,
            final(self).m == old(self).m,
            !has_node(old(self).nodes@, id@) ==> *final(self) == *old(self),
            has_node(old(self).nodes@, id@) ==> {
                let x = node_index(old(self).nodes@, id@);
                &&& final(self).nodes@.len() == old(self).nodes@.len() - 1
                &&& !has_node(final(self).nodes@, id@)
                &&& forall|y: Seq<char>|
                    y != id@ ==> (has_node(final(self).nodes@, y) <==> has_node(
                        old(self).nodes@,
                        y,
                    ))
                &&& forall|t: int|
                    0 <= t < final(self).nodes@.len() ==> {
                        let oi = if t < x {
                            t
                        } else {
                            t + 1
                        };
                        (#[trigger] final(self).nodes@[t]).id == old(self).nodes@[oi].id
                            && final(self).nodes@[t].vector == old(self).nodes@[oi].vector
                            && final(self).nodes@[t].neighbors@ == drop_id(
                            old(self).nodes@[oi].neighbors@,
                            id@,
                        )
                    }
                &&& (entry_view(old(self).entry) != Some(id@) ==> final(self).entry == old(
                    self,
                ).entry)
                &&& (entry_view(old(self).entry) == Some(id@) ==> entry_view(final(self).entry)
                    == (if final(self).nodes@.len() > 0 {
                    Some(final(self).nodes@[0].id@)
                } else {
                    None::<Seq<char>>
                }))
            },
    {
        let key_id: String = id.to_owned();
        let found = find_node(&self.nodes, &key_id);
        let x = match found {
            Some(x) => x,
            None => {
                return;
            },
        };
        let ghost ns0 = self.nodes@;
        proof {
            lemma_node_index_of(ns0, x as int);
        }
        self.nodes.remove(x);
        let ghost nsr = self.nodes@;

        // Drop every reference to the removed id from the remaining
        // neighbour lists.
        let mut i: usize = 0;
        while i < self.nodes.len()
            invariant
                i <= nsr.len(),
                self.nodes@.len() == nsr.len(),
                self.dim == old(self).dim,
                self.max_elements == old(self).max_elements,
                self.m == old(self).m,
                self.entry == old(self).entry,
                forall|t: int|
                    0 <= t < nsr.len() ==> (#[trigger] self.nodes@[t]).id == nsr[t].id
                        && self.nodes@[t].vector == nsr[t].vector,
                forall|t: int|
                    0 <= t < i ==> (#[trigger] self.nodes@[t]).neighbors@ == drop_id(
                        nsr[t].neighbors@,
                        key_id@,
                    ),
                forall|t: int|
                    i <= t < nsr.len() ==> (#[trigger] self.nodes@[t]).neighbors
                        == nsr[t].neighbors,
            decreases nsr.len() - i,
        {
            let ghost l = nsr[i as int].neighbors@;
            let mut filtered: Vec<String> = Vec::new();
            let mut j: usize = 0;
            while j < self.nodes[i].neighbors.len()
                invariant
                    i < self.nodes@.len(),
                    self.nodes@[i as int].neighbors@ == l,
                    j <= l.len(),
                    filtered@ == drop_id(l.take(j as int), key_id@),
                decreases l.len() - j,
            {
                proof {
                    assert(l.take(j + 1).drop_last() =~= l.take(j as int));
                    assert(l.take(j + 1).last() == l[j as int]);
                }
                if !(self.nodes[i].neighbors[j] == key_id) {
                    filtered.push(self.nodes[i].neighbors[j].clone());
                }
                j = j + 1;
            }
            proof {
                assert(l.take(l.len() as int) =~= l);
            }
            self.nodes[i].neighbors = filtered;
            i = i + 1;
        }
        proof {
            lemma_remove_wf(ns0, nsr, self.nodes@, key_id@, x as int, self.m, self.dim);
        }

        // Reassign or clear the entry point if the removed id carried it.
        let entry_was_removed = match &self.entry {
            Some(e) => *e == key_id,
            None => false,
        };
        if entry_was_removed {
            if self.nodes.len() > 0 {
                self.entry = Some(self.nodes[0].id.clone());
            } else {
                self.entry = None;
            }
        }
    }

    /// Search for the `top_k` nearest neighbours: an exact linear scan while
    /// the graph holds at most `BRUTE_THRESHOLD` nodes, the greedy graph
    /// traversal above that. An empty graph yields an empty list, never an
    /// error. The graph does not check the query dimension.
    pub fn search(&self, query: &Vec<u32>, top_k: usize, metric: &Metric) -> (r: Vec<
        (String, u32),
    >)
        requires
            self.wf(),
        ensures
            r@.len() <= top_k,
            sorted_desc_by_key(r@),
            pairs_valid(r@, self.nodes@, *metric, query@),
            ids_distinct(r@),
            self.nodes@.len() == 0 ==> r@.len() == 0,
            self.nodes@.len() > 0 && top_k > 0 ==> r@.len() > 0,
            self.nodes@.len() <= BRUTE_THRESHOLD ==> r@.len() == if top_k <= self.nodes@.len() {
                top_k as int
            } else {
                self.nodes@.len() as int
            },
            self.nodes@.len() <= BRUTE_THRESHOLD && top_k >= self.nodes@.len() ==> forall|j: int|
                0 <= j < self.nodes@.len() ==> holds_pair(
                    r@,
                    (#[trigger] self.nodes@[j]).id@,
                    score_spec(*metric, query@, self.nodes@[j].vector@),
                ),
            self.nodes@.len() <= BRUTE_THRESHOLD && top_k > 0 ==> forall|j: int|
                0 <= j < self.nodes@.len() && !holds_pair(
                    r@,
                    (#[trigger] self.nodes@[j]).id@,
                    score_spec(*metric, query@, self.nodes@[j].vector@),
                ) ==> r@.len() > 0 && key(score_spec(*metric, query@, self.nodes@[j].vector@))
                    <= key(r@[r@.len() - 1].1),
    {
        if self.nodes.len() == 0 {
            return Vec::new();
        }
        if self.nodes.len() <= BRUTE_THRESHOLD {
            return self.brute_search(query, top_k, metric);
        }
        self.graph_search(query, top_k, metric)
    }
}

/// Batch insert descriptor.
pub struct BatchInsert {
    pub id: String,
    pub vector: Vec<u32>,
    pub metadata: Option<String>,
}

/// Result of a batch operation: how many inserts succeeded, and for each
/// failed item its id and the reason.
#[derive(Debug)]
pub struct BatchResult {
    pub inserted: usize,
    pub failed: Vec<(String, String)>,
}

/// The failures a batch of items produces against a store of this dimension:
/// one entry, in order, for every item whose vector length misses it, with
/// the dimension-mismatch message as the reason.
pub open spec fn failures_spec(items: Seq<BatchInsert>, dim: usize) -> Seq<(Seq<char>, Seq<char>)>
    decreases items.len(),
{
    if items.len() == 0 {
        Seq::empty()
    } else {
        let rest = failures_spec(items.drop_last(), dim);
        let it = items.last();
        if it.vector@.len() != dim {
            rest.push((it.id@, crate::dim_mismatch_msg(dim as nat, it.vector@.len())))
        } else {
            rest
        }
    }
}

/// Process a batch of inserts against a store: each item is applied in
/// order by `VecBase::insert`, successes are counted, and every failure is
/// reported with its id and reason. Earlier successes are never rolled back
/// by a later failure — partial application with a precise failure report:
/// every id the store held before is still held, and while the capacity
/// ceiling stays out of reach, every item of the right dimension whose id no
/// later in-dimension item repeats is stored afterwards exactly as
/// `VecBase::insert` leaves it.
pub fn batch_insert(db: &mut crate::VecBase, items: Vec<BatchInsert>) -> (r: BatchResult)
    requires
        old(db).wf(),
    ensures
        final(db).wf(),
        final(db).config == old(db).config,
        final(db).metric == old(db).metric,
        r.inserted as int + r.failed@.len() == items@.len(),
        r.failed@.len() == failures_spec(items@, old(db).config.dim).len(),
        forall|k: int|
            0 <= k < r.failed@.len() ==> ((#[trigger] r.failed@[k]).0@ == failures_spec(
                items@,
                old(db).config.dim,
            )[k].0 && r.failed@[k].1@ == failures_spec(items@, old(db).config.dim)[k].1),
        forall|y: Seq<char>|
            crate::has_record(old(db).records@, y) ==> crate::has_record(final(db).records@, y),
        old(db).records@.len() + items@.len() <= old(db).config.max_elements ==> forall|t: int|
            0 <= t < items@.len() && (#[trigger] items@[t]).vector@.len() == old(db).config.dim
                && (forall|u: int|
                t < u < items@.len() && (#[trigger] items@[u]).vector@.len() == old(
                    db,
                ).config.dim ==> items@[u].id@ != items@[t].id@) ==> crate::has_record(
                final(db).records@,
                items@[t].id@,
            ) && crate::record_at(final(db).records@, items@[t].id@).vector@ == crate::stored_spec(
                old(db).metric,
                items@[t].vector@,
            ) && crate::opt_str_view(
                crate::record_at(final(db).records@, items@[t].id@).metadata,
            ) == crate::opt_str_view(items@[t].metadata),
{
    let ghost dim = db.config.dim;
    let ghost rs0b = old(db).records@;
    let mut inserted: usize = 0;
    let mut failed: Vec<(String, String)> = Vec::new();
    let mut i: usize = 0;
    while i < items.len()
        invariant
            i <= items@.len(),
            db.wf(),
            db.config == old(db).config,
            db.metric == old(db).metric,
            dim == old(db).config.dim,
            rs0b == old(db).records@,
            inserted as int + failed@.len() == i,
            failed@.len() == failures_spec(items@.take(i as int), dim).len(),
            forall|k: int|
                0 <= k < failed@.len() ==> ((#[trigger] failed@[k]).0@ == failures_spec(
                    items@.take(i as int),
                    dim,
                )[k].0 && failed@[k].1@ == failures_spec(items@.take(i as int), dim)[k].1),
            forall|y: Seq<char>|
                crate::has_record(rs0b, y) ==> crate::has_record(db.records@, y),
            db.records@.len() <= rs0b.len() + i,
            rs0b.len() + items@.len() <= old(db).config.max_elements ==> forall|t: int|
                0 <= t < i && (#[trigger] items@[t]).vector@.len() == dim && (forall|u: int|
                    t < u < i && (#[trigger] items@[u]).vector@.len() == dim ==> items@[u].id@
                        != items@[t].id@) ==> crate::has_record(db.records@, items@[t].id@)
                    && crate::record_at(db.records@, items@[t].id@).vector@ == crate::stored_spec(
                    old(db).metric,
                    items@[t].vector@,
                ) && crate::opt_str_view(crate::record_at(db.records@, items@[t].id@).metadata)
                    == crate::opt_str_view(items@[t].metadata),
        decreases items@.len() - i,
    {
        let ghost pre = items@.take(i as int);
        let ghost post = items@.take(i as int + 1);
        proof {
            assert(post.drop_last() =~= pre);
            assert(post.last() == items@[i as int]);
        }
        let ghost dbp = *db;
        let id = items[i].id.clone();
        let vector = crate::copy_bits(&items[i].vector);
        let metadata = match &items[i].metadata {
            Some(s) => Some(s.clone()),
            None => None,
        };
        match db.insert(id, vector, metadata) {
            Ok(()) => {
                inserted = inserted + 1;
            },
            Err(e) => {
                let reason = e.message();
                let id2 = items[i].id.clone();
                failed.push((id2, reason));
            },
        }
        proof {
            let it = items@[i as int];
            assert forall|y: Seq<char>| crate::has_record(rs0b, y) implies crate::has_record(
                db.records@,
                y,
            ) by {
                if it.vector@.len() == dim && y != it.id@ {
                    assert(crate::has_record(dbp.records@, y));
                } else if it.vector@.len() == dim {
                    if dbp.records@.len() < old(db).config.max_elements || crate::has_record(
                        dbp.records@,
                        it.id@,
                    ) {
                        assert(crate::has_record(db.records@, it.id@));
                    }
                }
            }
            if rs0b.len() + items@.len() <= old(db).config.max_elements {
                assert forall|t: int|
                    0 <= t < i + 1 && (#[trigger] items@[t]).vector@.len() == dim && (forall|
                        u: int,
                    |
                        t < u < i + 1 && (#[trigger] items@[u]).vector@.len() == dim
                            ==> items@[u].id@ != items@[t].id@) implies crate::has_record(
                    db.records@,
                    items@[t].id@,
                ) && crate::record_at(db.records@, items@[t].id@).vector@ == crate::stored_spec(
                    old(db).metric,
                    items@[t].vector@,
                ) && crate::opt_str_view(crate::record_at(db.records@, items@[t].id@).metadata)
                    == crate::opt_str_view(items@[t].metadata) by {
                    assert(dbp.records@.len() < old(db).config.max_elements);
                    if t == i {
                        assert(it.vector@.len() == dim);
                    } else {
                        if it.vector@.len() == dim {
                            assert(items@[t].id@ != it.id@);
                        }
                    }
                }
            }
        }
        i = i + 1;
    }
    proof {
        assert(items@.take(items@.len() as int) =~= items@);
    }
    BatchResult { inserted, failed }
}

/// A removal keeps the graph well formed: `ns0` is the graph before the
/// removal, `nsr` the graph with the node at `x` taken out, `ns2` the graph
/// after every remaining neighbour list dropped its references to the id.
proof fn lemma_remove_wf(
    ns0: Seq<Node>,
    nsr: Seq<Node>,
    ns2: Seq<Node>,
    id: Seq<char>,
    x: int,
    m: usize,
    dim: usize,
)
    requires
        nodes_distinct(ns0),
        forall|i: int| 0 <= i < ns0.len() ==> (#[trigger] ns0[i]).vector@.len() == dim,
        forall|i: int| 0 <= i < ns0.len() ==> neighbor_list_ok(ns0, #[trigger] ns0[i], m),
        0 <= x < ns0.len(),
        ns0[x].id@ == id,
        nsr == ns0.remove(x),
        ns2.len() == nsr.len(),
        forall|t: int|
            0 <= t < nsr.len() ==> (#[trigger] ns2[t]).id == nsr[t].id && ns2[t].vector
                == nsr[t].vector && ns2[t].neighbors@ == drop_id(nsr[t].neighbors@, id),
    ensures
        nodes_distinct(ns2),
        forall|i: int| 0 <= i < ns2.len() ==> (#[trigger] ns2[i]).vector@.len() == dim,
        forall|i: int| 0 <= i < ns2.len() ==> neighbor_list_ok(ns2, #[trigger] ns2[i], m),
        !has_node(ns2, id),
        forall|y: Seq<char>| y != id ==> (has_node(ns2, y) <==> has_node(ns0, y)),
{
    assert forall|t: int| 0 <= t < ns2.len() implies (#[trigger] ns2[t]).id@ == ns0[
        if t < x {
            t
        } else {
            t + 1
        }
    ].id@ && ns2[t].vector@ == ns0[
        if t < x {
            t
        } else {
            t + 1
        }
    ].vector@ by {
        let oi = if t < x {
            t
        } else {
            t + 1
        };
        assert(nsr[t] == ns0[oi]);
    }
    assert forall|t: int| 0 <= t < ns2.len() implies (#[trigger] ns2[t]).id@ != id by {
        let oi = if t < x {
            t
        } else {
            t + 1
        };
        if oi < x {
            assert(ns0[oi].id@ != ns0[x].id@);
        } else {
            assert(ns0[x].id@ != ns0[oi].id@);
        }
    }
    assert(!has_node(ns2, id));
    assert forall|y: Seq<char>| y != id && has_node(ns0, y) implies has_node(ns2, y) by {
        let w = choose|w: int| 0 <= w < ns0.len() && ns0[w].id@ == y;
        if w < x {
            assert(ns2[w].id@ == y);
        } else {
            assert(w != x);
            assert(ns2[w - 1].id@ == y);
        }
    }
    assert forall|i: int, j: int| 0 <= i < j < ns2.len() implies ns2[i].id@ != ns2[j].id@ by {
        let oi = if i < x {
            i
        } else {
            i + 1
        };
        let oj = if j < x {
            j
        } else {
            j + 1
        };
        assert(ns0[oi].id@ != ns0[oj].id@);
    }
    assert forall|i: int| 0 <= i < ns2.len() implies neighbor_list_ok(ns2, #[trigger] ns2[i], m) by {
        let oi = if i < x {
            i
        } else {
            i + 1
        };
        assert(nsr[i] == ns0[oi]);
        assert(neighbor_list_ok(ns0, ns0[oi], m));
        let l = ns0[oi].neighbors@;
        let d = ns2[i].neighbors@;
        lemma_drop_id_props(l, id);
        assert forall|k: int| 0 <= k < d.len() implies #[trigger] d[k]@ != ns2[i].id@ && has_node(
            ns2,
            d[k]@,
        ) by {
            let w = choose|w: int| 0 <= w < l.len() && d[k] == l[w];
            assert(l[w]@ != ns0[oi].id@ && has_node(ns0, l[w]@));
            assert(d[k]@ != id);
        }
    }
}

/// A fresh insert keeps the graph well formed: `ns0` is the graph before the
/// insert, `ns1` the graph after the best-effort back-links, `ns2` the graph
/// after the new node is appended.
proof fn lemma_insert_wf_fresh(
    ns0: Seq<Node>,
    ns1: Seq<Node>,
    ns2: Seq<Node>,
    id: String,
    m: usize,
    dim: usize,
    vec_v: Seq<u32>,
    nbrs_v: Seq<String>,
)
    requires
        nodes_distinct(ns0),
        forall|i: int| 0 <= i < ns0.len() ==> (#[trigger] ns0[i]).vector@.len() == dim,
        forall|i: int| 0 <= i < ns0.len() ==> neighbor_list_ok(ns0, #[trigger] ns0[i], m),
        !has_node(ns0, id@),
        ns1.len() == ns0.len(),
        forall|i: int| 0 <= i < ns0.len() ==> kept_or_backlinked(ns0[i], #[trigger] ns1[i], id, m),
        ns2.len() == ns1.len() + 1,
        forall|i: int| 0 <= i < ns1.len() ==> ns2[i] == ns1[i],
        ns2.last().id@ == id@,
        ns2.last().vector@ == vec_v,
        ns2.last().neighbors@ == nbrs_v,
        vec_v.len() == dim,
        nbrs_v.len() <= m,
        forall|k: int|
            0 <= k < nbrs_v.len() ==> (#[trigger] nbrs_v[k])@ != id@ && has_node(ns0, nbrs_v[k]@),
        forall|k1: int, k2: int| 0 <= k1 < k2 < nbrs_v.len() ==> nbrs_v[k1]@ != nbrs_v[k2]@,
    ensures
        nodes_distinct(ns2),
        forall|i: int| 0 <= i < ns2.len() ==> (#[trigger] ns2[i]).vector@.len() == dim,
        forall|i: int| 0 <= i < ns2.len() ==> neighbor_list_ok(ns2, #[trigger] ns2[i], m),
        has_node(ns2, id@),
        forall|x: Seq<char>| has_node(ns0, x) ==> has_node(ns2, x),
{
    let last = ns2.len() - 1;
    assert forall|i: int| 0 <= i < ns0.len() implies (#[trigger] ns2[i]).id@ == ns0[i].id@
        && ns2[i].vector@ == ns0[i].vector@ by {
        assert(kept_or_backlinked(ns0[i], ns1[i], id, m));
    }
    assert forall|x: Seq<char>| has_node(ns0, x) implies has_node(ns2, x) by {
        let w = choose|w: int| 0 <= w < ns0.len() && ns0[w].id@ == x;
        assert(ns2[w].id@ == x);
    }
    assert(ns2[last].id@ == id@);
    assert(has_node(ns2, id@));
    assert forall|i: int, j: int| 0 <= i < j < ns2.len() implies ns2[i].id@ != ns2[j].id@ by {
        if j < last {
            assert(ns0[i].id@ != ns0[j].id@);
        } else {
            if ns2[i].id@ == id@ {
                assert(has_node(ns0, id@));
            }
        }
    }
    assert forall|i: int| 0 <= i < ns2.len() implies neighbor_list_ok(ns2, #[trigger] ns2[i], m) by {
        if i < last {
            assert(kept_or_backlinked(ns0[i], ns1[i], id, m));
            assert(neighbor_list_ok(ns0, ns0[i], m));
            let onb = ns0[i].neighbors@;
            let fnb = ns2[i].neighbors@;
            if fnb == onb {
                assert forall|k: int| 0 <= k < fnb.len() implies #[trigger] fnb[k]@ != ns2[i].id@
                    && has_node(ns2, fnb[k]@) by {
                    assert(onb[k]@ != ns0[i].id@ && has_node(ns0, onb[k]@));
                }
            } else {
                assert(fnb == onb.push(id));
                assert(fnb.len() == onb.len() + 1 && fnb.len() <= m);
                assert forall|k: int| 0 <= k < fnb.len() implies #[trigger] fnb[k]@ != ns2[i].id@
                    && has_node(ns2, fnb[k]@) by {
                    if k < onb.len() {
                        assert(fnb[k] == onb[k]);
                        assert(onb[k]@ != ns0[i].id@ && has_node(ns0, onb[k]@));
                    } else {
                        assert(fnb[k] == id);
                        if id@ == ns2[i].id@ {
                            assert(has_node(ns0, id@));
                        }
                    }
                }
                assert forall|k1: int, k2: int| 0 <= k1 < k2 < fnb.len() implies fnb[k1]@
                    != fnb[k2]@ by {
                    if k2 < onb.len() {
                        assert(fnb[k1] == onb[k1] && fnb[k2] == onb[k2]);
                    } else {
                        assert(fnb[k2] == id);
                        assert(fnb[k1] == onb[k1]);
                        assert(!list_has(onb, id@));
                    }
                }
            }
        } else {
            assert(ns2[i].neighbors@ == nbrs_v);
            assert forall|k: int| 0 <= k < nbrs_v.len() implies #[trigger] nbrs_v[k]@
                != ns2[i].id@ && has_node(ns2, nbrs_v[k]@) by {
                assert(nbrs_v[k]@ != id@ && has_node(ns0, nbrs_v[k]@));
            }
        }
    }
}

/// A full replace of a live id keeps the graph well formed: `ns0` is the
/// graph before the insert, `ns1` the graph after the best-effort
/// back-links, `ns2` the graph after the node at `x` was overwritten.
proof fn lemma_insert_wf_replace(
    ns0: Seq<Node>,
    ns1: Seq<Node>,
    ns2: Seq<Node>,
    id: String,
    x: int,
    m: usize,
    dim: usize,
    vec_v: Seq<u32>,
    nbrs_v: Seq<String>,
)
    requires
        nodes_distinct(ns0),
        forall|i: int| 0 <= i < ns0.len() ==> (#[trigger] ns0[i]).vector@.len() == dim,
        forall|i: int| 0 <= i < ns0.len() ==> neighbor_list_ok(ns0, #[trigger] ns0[i], m),
        0 <= x < ns0.len(),
        ns0[x].id@ == id@,
        ns1.len() == ns0.len(),
        forall|i: int| 0 <= i < ns0.len() ==> kept_or_backlinked(ns0[i], #[trigger] ns1[i], id, m),
        ns2.len() == ns1.len(),
        forall|i: int| 0 <= i < ns1.len() && i != x ==> ns2[i] == ns1[i],
        ns2[x].id == ns1[x].id,
        ns2[x].vector@ == vec_v,
        ns2[x].neighbors@ == nbrs_v,
        vec_v.len() == dim,
        nbrs_v.len() <= m,
        forall|k: int|
            0 <= k < nbrs_v.len() ==> (#[trigger] nbrs_v[k])@ != id@ && has_node(ns0, nbrs_v[k]@),
        forall|k1: int, k2: int| 0 <= k1 < k2 < nbrs_v.len() ==> nbrs_v[k1]@ != nbrs_v[k2]@,
    ensures
        nodes_distinct(ns2),
        forall|i: int| 0 <= i < ns2.len() ==> (#[trigger] ns2[i]).vector@.len() == dim,
        forall|i: int| 0 <= i < ns2.len() ==> neighbor_list_ok(ns2, #[trigger] ns2[i], m),
        has_node(ns2, id@),
        forall|y: Seq<char>| has_node(ns0, y) ==> has_node(ns2, y),
{
    assert forall|i: int| 0 <= i < ns0.len() implies (#[trigger] ns2[i]).id@ == ns0[i].id@ by {
        assert(kept_or_backlinked(ns0[i], ns1[i], id, m));
    }
    assert forall|y: Seq<char>| has_node(ns0, y) implies has_node(ns2, y) by {
        let w = choose|w: int| 0 <= w < ns0.len() && ns0[w].id@ == y;
        assert(ns2[w].id@ == y);
    }
    assert(ns2[x].id@ == id@);
    assert(has_node(ns2, id@));
    assert forall|i: int, j: int| 0 <= i < j < ns2.len() implies ns2[i].id@ != ns2[j].id@ by {
        assert(ns0[i].id@ != ns0[j].id@);
    }
    assert forall|i: int| 0 <= i < ns2.len() implies (#[trigger] ns2[i]).vector@.len() == dim by {
        if i != x {
            assert(kept_or_backlinked(ns0[i], ns1[i], id, m));
        }
    }
    assert forall|i: int| 0 <= i < ns2.len() implies neighbor_list_ok(ns2, #[trigger] ns2[i], m) by {
        if i != x {
            assert(kept_or_backlinked(ns0[i], ns1[i], id, m));
            assert(neighbor_list_ok(ns0, ns0[i], m));
            let onb = ns0[i].neighbors@;
            let fnb = ns2[i].neighbors@;
            if fnb == onb {
                assert forall|k: int| 0 <= k < fnb.len() implies #[trigger] fnb[k]@ != ns2[i].id@
                    && has_node(ns2, fnb[k]@) by {
                    assert(onb[k]@ != ns0[i].id@ && has_node(ns0, onb[k]@));
                }
            } else {
                assert(fnb == onb.push(id));
                assert forall|k: int| 0 <= k < fnb.len() implies #[trigger] fnb[k]@ != ns2[i].id@
                    && has_node(ns2, fnb[k]@) by {
                    if k < onb.len() {
                        assert(fnb[k] == onb[k]);
                        assert(onb[k]@ != ns0[i].id@ && has_node(ns0, onb[k]@));
                    } else {
                        assert(fnb[k] == id);
                        assert(ns0[i].id@ != ns0[x].id@ || i == x);
                    }
                }
                assert forall|k1: int, k2: int| 0 <= k1 < k2 < fnb.len() implies fnb[k1]@
                    != fnb[k2]@ by {
                    if k2 < onb.len() {
                        assert(fnb[k1] == onb[k1] && fnb[k2] == onb[k2]);
                    } else {
                        assert(fnb[k2] == id);
                        assert(fnb[k1] == onb[k1]);
                        assert(!list_has(onb, id@));
                    }
                }
            }
        } else {
            assert(ns2[i].neighbors@ == nbrs_v);
            assert forall|k: int| 0 <= k < nbrs_v.len() implies #[trigger] nbrs_v[k]@
                != ns2[i].id@ && has_node(ns2, nbrs_v[k]@) by {
                assert(nbrs_v[k]@ != id@ && has_node(ns0, nbrs_v[k]@));
            }
        }
    }
}

/// After extracting `cur` from the candidates and appending it to the
/// results, every pair of positions in the new combined sequence carries
/// distinct ids.
proof fn lemma_comb_after_extract(
    res0: Seq<(String, u32)>,
    cand0: Seq<(String, u32)>,
    res1: Seq<(String, u32)>,
    cand1: Seq<(String, u32)>,
    cur: (String, u32),
    i1: int,
    j1: int,
)
    requires
        ids_distinct(res0 + cand0),
        res1 == res0.push(cur),
        holds_pair(cand0, cur.0@, cur.1),
        cand1.len() == cand0.len() - 1,
        forall|j: int|
            0 <= j < cand1.len() ==> holds_pair(cand0, (#[trigger] cand1[j]).0@, cand1[j].1),
        ids_distinct(cand0) ==> ids_distinct(cand1) && !holds_id(cand1, cur.0@),
        0 <= i1 < j1 < (res1 + cand1).len(),
    ensures
        (res1 + cand1)[i1].0@ != (res1 + cand1)[j1].0@,
{
    let comb0 = res0 + cand0;
    let comb1 = res1 + cand1;
    // distinctness of cand0 alone follows from the combined distinctness
    assert forall|a: int, b: int| 0 <= a < b < cand0.len() implies cand0[a].0@ != cand0[b].0@ by {
        assert(comb0[res0.len() + a] == cand0[a]);
        assert(comb0[res0.len() + b] == cand0[b]);
    }
    let rl = res1.len();
    if j1 < rl {
        // both inside the results
        if j1 < rl - 1 {
            assert(comb0[i1] == res0[i1]);
            assert(comb0[j1] == res0[j1]);
        } else {
            // j1 is the freshly pushed cur
            let w = choose|w: int| 0 <= w < cand0.len() && cand0[w].0@ == cur.0@ && cand0[w].1
                == cur.1;
            assert(comb0[i1] == res0[i1]);
            assert(comb0[res0.len() + w] == cand0[w]);
        }
    } else {
        let b = j1 - rl;
        assert(comb1[j1] == cand1[b]);
        assert(holds_pair(cand0, cand1[b].0@, cand1[b].1));
        let wb = choose|w: int| 0 <= w < cand0.len() && cand0[w].0@ == cand1[b].0@ && cand0[w].1
            == cand1[b].1;
        if i1 < rl - 1 {
            assert(comb0[i1] == res0[i1]);
            assert(comb0[res0.len() + wb] == cand0[wb]);
        } else if i1 == rl - 1 {
            // cur against a surviving candidate
            assert(!holds_id(cand1, cur.0@));
        } else {
            let a = i1 - rl;
            assert(comb1[i1] == cand1[a]);
        }
    }
}

/// After the extraction, every id of the new combined sequence already stood
/// in the old combined sequence.
proof fn lemma_comb_member_after_extract(
    res0: Seq<(String, u32)>,
    cand0: Seq<(String, u32)>,
    res1: Seq<(String, u32)>,
    cand1: Seq<(String, u32)>,
    cur: (String, u32),
    t: int,
)
    requires
        res1 == res0.push(cur),
        holds_pair(cand0, cur.0@, cur.1),
        forall|j: int|
            0 <= j < cand1.len() ==> holds_pair(cand0, (#[trigger] cand1[j]).0@, cand1[j].1),
        0 <= t < (res1 + cand1).len(),
    ensures
        exists|u: int| 0 <= u < (res0 + cand0).len() && (res0 + cand0)[u].0@ == (res1 + cand1)[t].0@,
{
    let comb0 = res0 + cand0;
    let comb1 = res1 + cand1;
    let rl = res1.len();
    if t < rl - 1 {
        assert(comb1[t] == res0[t]);
        assert(comb0[t] == res0[t]);
    } else if t == rl - 1 {
        let w = choose|w: int| 0 <= w < cand0.len() && cand0[w].0@ == cur.0@ && cand0[w].1 == cur.1;
        assert(comb1[t] == cur);
        assert(comb0[res0.len() + w] == cand0[w]);
    } else {
        let b = t - rl;
        assert(comb1[t] == cand1[b]);
        assert(holds_pair(cand0, cand1[b].0@, cand1[b].1));
        let w = choose|w: int| 0 <= w < cand0.len() && cand0[w].0@ == cand1[b].0@ && cand0[w].1
            == cand1[b].1;
        assert(comb0[res0.len() + w] == cand0[w]);
    }
}

} // verus!
