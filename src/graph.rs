//! A directed graph over a list of vertices, with edges between vertex indices.
use vstd::prelude::*;

verus! {

/// Vertices, and edges given as pairs of vertex indices.
pub struct Graph<V> {
    pub vertices: Vec<V>,
    pub edges: Vec<(usize, usize)>,
}

/// Vertex `v` is an end of some edge of `edges`.
pub open spec fn touched(edges: Seq<(usize, usize)>, v: int) -> bool {
    exists|k: int| 0 <= k < edges.len() && (#[trigger] edges[k].0 == v || edges[k].1 == v)
}

impl<V> Graph<V> {
    /// No vertices, no edges.
    pub fn empty() -> (r: Graph<V>)
        ensures
            r.vertices@.len() == 0,
            r.edges@.len() == 0,
    {
        Graph { vertices: Vec::new(), edges: Vec::new() }
    }

    /// The indices, in ascending order, of the vertices that no edge touches.
    pub fn iter_isolated_vertices(&self) -> (r: Vec<usize>)
        requires
            forall|k: int| 0 <= k < self.edges@.len() ==> (#[trigger] self.edges@[k]).0 < self.vertices@.len()
                && self.edges@[k].1 < self.vertices@.len(),
        ensures
            forall|j: int| 0 <= j < r@.len() ==> (#[trigger] r@[j]) < self.vertices@.len(),
            forall|j: int| 0 <= j < r@.len() ==> !touched(self.edges@, #[trigger] r@[j] as int),
            forall|v: int| 0 <= v < self.vertices@.len() && !touched(self.edges@, v) ==> r@.contains(v as usize),
            forall|a: int, b: int| 0 <= a < b < r@.len() ==> r@[a] < r@[b],
    {
        let n = self.vertices.len();
        let mut isolated: Vec<bool> = Vec::new();
        let mut v: usize = 0;
        while v < n
            invariant
                v <= n,
                isolated@.len() == v,
                forall|j: int| 0 <= j < v ==> isolated@[j],
            decreases n - v,
        {
            isolated.push(true);
            v = v + 1;
        }
        let mut k: usize = 0;
        while k < self.edges.len()
            invariant
                n == self.vertices@.len(),
                isolated@.len() == n,
                k <= self.edges@.len(),
                forall|e: int| 0 <= e < self.edges@.len() ==> (#[trigger] self.edges@[e]).0 < n && self.edges@[e].1 < n,
                forall|j: int| 0 <= j < n ==> #[trigger] isolated@[j] == !(exists|e: int| 0 <= e < k && (#[trigger] self.edges@[e].0 == j || self.edges@[e].1 == j)),
            decreases self.edges@.len() - k,
        {
            let (p, q) = self.edges[k];
            isolated.set(p, false);
            isolated.set(q, false);
            proof {
                assert forall|j: int| 0 <= j < n implies #[trigger] isolated@[j] == !(exists|e: int| 0 <= e < k + 1 && (#[trigger] self.edges@[e].0 == j || self.edges@[e].1 == j)) by {
                    if j == p || j == q {
                        assert(self.edges@[k as int].0 == j || self.edges@[k as int].1 == j);
                    } else if exists|e: int| 0 <= e < k + 1 && (#[trigger] self.edges@[e].0 == j || self.edges@[e].1 == j) {
                        let e = choose|e: int| 0 <= e < k + 1 && (#[trigger] self.edges@[e].0 == j || self.edges@[e].1 == j);
                        assert(e < k);
                    }
                }
            }
            k = k + 1;
        }
        let mut r: Vec<usize> = Vec::new();
        let mut v: usize = 0;
        while v < n
            invariant
                n == self.vertices@.len(),
                isolated@.len() == n,
                v <= n,
                forall|j: int| 0 <= j < n ==> #[trigger] isolated@[j] == !touched(self.edges@, j),
                forall|j: int| 0 <= j < r@.len() ==> (#[trigger] r@[j]) < v,
                forall|j: int| 0 <= j < r@.len() ==> !touched(self.edges@, #[trigger] r@[j] as int),
                forall|w: int| 0 <= w < v && !touched(self.edges@, w) ==> r@.contains(w as usize),
                forall|a: int, b: int| 0 <= a < b < r@.len() ==> r@[a] < r@[b],
            decreases n - v,
        {
            if isolated[v] {
                let ghost before = r@;
                r.push(v);
                proof {
                    assert(r@[before.len() as int] == v);
                    assert forall|w: int| 0 <= w < v + 1 && !touched(self.edges@, w) implies r@.contains(w as usize) by {
                        if w < v {
                            let j = choose|j: int| 0 <= j < before.len() && before[j] == w as usize;
                            assert(r@[j] == w as usize);
                        }
                    }
                }
            }
            v = v + 1;
        }
        r
    }
}

} // verus!
