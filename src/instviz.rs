//! The poset graph of a relation: its classes of equivalent alternatives, and the
//! simplified order between them.
use vstd::prelude::*;
use crate::alt::Alt;
use crate::alt_set::{alts_below, AltSet};
use crate::digraph::simplify_edges;
use crate::graph::Graph;
use crate::preorder::{reflexive, transitive, Preorder, MAX_ALTS};

verus! {

/// The position of `x` in `v`.
fn index_of(v: &Vec<Alt>, x: Alt) -> (r: Option<usize>)
    ensures
        r matches Some(i) ==> i < v@.len() && v@[i as int] == x,
        r is None ==> !v@.contains(x),
{
    let mut k: usize = 0;
    while k < v.len()
        invariant
            k <= v@.len(),
            forall|j: int| 0 <= j < k ==> v@[j] != x,
        decreases v@.len() - k,
    {
        if v[k] == x {
            return Some(k);
        }
        k = k + 1;
    }
    None
}

/// The classes partition the alternatives below `n`.
pub open spec fn partition_of(classes: Seq<AltSet>, n: int) -> bool {
    &&& forall|c: int| 0 <= c < classes.len() ==> (#[trigger] classes[c]).alts().subset_of(alts_below(n))
    &&& forall|a: Alt| a.0 < n ==> exists|c: int| 0 <= c < classes.len() && (#[trigger] classes[c]).alts().contains(a)
    &&& forall|c: int, d: int| 0 <= c < classes.len() && 0 <= d < classes.len() && c != d ==> (#[trigger] classes[c]).alts().disjoint((#[trigger] classes[d]).alts())
}

/// `x` and `y` are equivalent in `p`.
pub open spec fn equiv(p: &Preorder, x: Alt, y: Alt) -> bool {
    p.le(x.0 as int, y.0 as int) && p.le(y.0 as int, x.0 as int)
}

/// Each class holds its representative and alternatives equivalent to it; no two
/// representatives are equivalent.
pub open spec fn classes_ok(p: &Preorder, reps: Seq<Alt>, classes: Seq<AltSet>) -> bool {
    &&& reps.len() == classes.len()
    &&& forall|c: int| 0 <= c < classes.len() ==> (#[trigger] classes[c]).alts().contains(reps[c])
    &&& forall|c: int, a: Alt| 0 <= c < classes.len() && #[trigger] classes[c].alts().contains(a) ==> a == reps[c] || equiv(p, a, reps[c])
    &&& forall|c: int, d: int| 0 <= c < reps.len() && 0 <= d < reps.len() && c != d ==> !equiv(p, #[trigger] reps[c], #[trigger] reps[d])
}

/// The vertices are classes of equivalent alternatives, distinct classes are not
/// equivalent, and each edge goes from a class to a different class above it.
pub open spec fn poset_graph_of(p: &Preorder, g: &Graph<AltSet>) -> bool {
    &&& forall|c: int, x: Alt, y: Alt|
        0 <= c < g.vertices@.len() && #[trigger] g.vertices@[c].alts().contains(x) && #[trigger] g.vertices@[c].alts().contains(y) ==> p.le(x.0 as int, y.0 as int)
    &&& forall|c: int, d: int, x: Alt, y: Alt|
        0 <= c < g.vertices@.len() && 0 <= d < g.vertices@.len() && c != d && #[trigger] g.vertices@[c].alts().contains(x)
            && #[trigger] g.vertices@[d].alts().contains(y) ==> !(p.le(x.0 as int, y.0 as int) && p.le(y.0 as int, x.0 as int))
    &&& forall|k: int, x: Alt, y: Alt|
        0 <= k < g.edges@.len() && #[trigger] g.vertices@[g.edges@[k].0 as int].alts().contains(x) && #[trigger] g.vertices@[g.edges@[k].1 as int].alts().contains(y)
            ==> g.edges@[k].0 != g.edges@[k].1 && p.le(x.0 as int, y.0 as int)
}

impl Preorder {
    /// The classes of alternatives equivalent to a first representative, and the
    /// simplified edges between the classes of distinct representatives `p ≤ q`.
    pub fn to_poset_graph(&self) -> (r: Graph<AltSet>)
        requires
            self.wf(),
        ensures
            partition_of(r.vertices@, self.n()),
            forall|k: int| 0 <= k < r.edges@.len() ==> (#[trigger] r.edges@[k]).0 < r.vertices@.len() && r.edges@[k].1 < r.vertices@.len(),
            reflexive(self) && transitive(self) ==> poset_graph_of(self, &r),
    {
        let n = self.size();
        let mut reps: Vec<Alt> = Vec::new();
        let mut classes: Vec<AltSet> = Vec::new();
        let mut i: u32 = 0;
        while i < n
            invariant
                self.wf(),
                n == self.n(),
                n <= MAX_ALTS,
                i <= n,
                reps@.len() == classes@.len(),
                forall|c: int| 0 <= c < reps@.len() ==> (#[trigger] reps@[c]).0 < i,
                forall|c: int| 0 <= c < classes@.len() ==> (#[trigger] classes@[c]).alts().subset_of(alts_below(i as int)),
                forall|a: Alt| a.0 < i ==> exists|c: int| 0 <= c < classes@.len() && (#[trigger] classes@[c]).alts().contains(a),
                forall|c: int, d: int| 0 <= c < classes@.len() && 0 <= d < classes@.len() && c != d ==> (#[trigger] classes@[c]).alts().disjoint((#[trigger] classes@[d]).alts()),
                classes_ok(self, reps@, classes@),
            decreases n - i,
        {
            let alt = Alt(i);
            let mut found: Option<usize> = None;
            let mut c: usize = 0;
            while c < reps.len()
                invariant
                    self.wf(),
                    n == self.n(),
                    i < n,
                    alt == Alt(i),
                    c <= reps@.len(),
                    forall|q: int| 0 <= q < reps@.len() ==> (#[trigger] reps@[q]).0 < i,
                    found matches Some(f) ==> f < reps@.len() && equiv(self, alt, reps@[f as int]),
                    found is None ==> forall|q: int| 0 <= q < c ==> !equiv(self, alt, #[trigger] reps@[q]),
                decreases reps@.len() - c,
            {
                let rep = reps[c];
                proof {
                    assert(rep.0 < i);
                }
                if found.is_none() && self.eq(alt, rep) {
                    found = Some(c);
                }
                c = c + 1;
            }
            let ghost before = classes@;
            let ghost before_reps = reps@;
            match found {
                None => {
                    reps.push(alt);
                    classes.push(AltSet::singleton(alt));
                    proof {
                        let last = before.len() as int;
                        assert forall|c: int| 0 <= c < classes@.len() implies (#[trigger] classes@[c]).alts().contains(reps@[c]) by {
                            if c < last {
                                assert(classes@[c] == before[c]);
                                assert(reps@[c] == before_reps[c]);
                            }
                        }
                        assert forall|c: int, a: Alt| 0 <= c < classes@.len() && #[trigger] classes@[c].alts().contains(a) implies a == reps@[c] || equiv(self, a, reps@[c]) by {
                            if c < last {
                                assert(classes@[c] == before[c]);
                                assert(reps@[c] == before_reps[c]);
                            }
                        }
                        assert forall|c: int, d: int| 0 <= c < reps@.len() && 0 <= d < reps@.len() && c != d implies !equiv(self, #[trigger] reps@[c], #[trigger] reps@[d]) by {
                            if c < last && d < last {
                                assert(reps@[c] == before_reps[c]);
                                assert(reps@[d] == before_reps[d]);
                            } else if c < last {
                                assert(reps@[c] == before_reps[c]);
                                assert(!equiv(self, alt, before_reps[c]));
                            } else {
                                assert(reps@[d] == before_reps[d]);
                                assert(!equiv(self, alt, before_reps[d]));
                            }
                        }
                        assert(classes@[last].alts() == set![alt]);
                        assert forall|a: Alt| a.0 < i + 1 implies exists|c: int| 0 <= c < classes@.len() && (#[trigger] classes@[c]).alts().contains(a) by {
                            if a.0 < i {
                                let c = choose|c: int| 0 <= c < before.len() && (#[trigger] before[c]).alts().contains(a);
                                assert(classes@[c] == before[c]);
                            } else {
                                assert(classes@[last].alts().contains(a));
                            }
                        }
                        assert forall|c: int, d: int| 0 <= c < classes@.len() && 0 <= d < classes@.len() && c != d implies (#[trigger] classes@[c]).alts().disjoint((#[trigger] classes@[d]).alts()) by {
                            if c < last && d < last {
                                assert(classes@[c] == before[c]);
                                assert(classes@[d] == before[d]);
                            } else if c < last {
                                assert(classes@[c] == before[c]);
                                assert(before[c].alts().subset_of(alts_below(i as int)));
                            } else {
                                assert(classes@[d] == before[d]);
                                assert(before[d].alts().subset_of(alts_below(i as int)));
                            }
                        }
                        assert forall|c: int| 0 <= c < classes@.len() implies (#[trigger] classes@[c]).alts().subset_of(alts_below(i + 1)) by {
                            if c < last {
                                assert(classes@[c] == before[c]);
                            }
                        }
                    }
                },
                Some(f) => {
                    let mut class = classes[f].clone();
                    let single = AltSet::singleton(alt);
                    class.union_with(single.view());
                    classes.set(f, class);
                    proof {
                        assert forall|c: int| 0 <= c < classes@.len() implies (#[trigger] classes@[c]).alts().contains(reps@[c]) by {
                            if c != f {
                                assert(classes@[c] == before[c]);
                            }
                        }
                        assert forall|c: int, a: Alt| 0 <= c < classes@.len() && #[trigger] classes@[c].alts().contains(a) implies a == reps@[c] || equiv(self, a, reps@[c]) by {
                            if c != f {
                                assert(classes@[c] == before[c]);
                            } else if a != alt {
                                assert(before[c].alts().contains(a));
                            }
                        }
                        assert forall|a: Alt| a.0 < i + 1 implies exists|c: int| 0 <= c < classes@.len() && (#[trigger] classes@[c]).alts().contains(a) by {
                            if a.0 < i {
                                let c = choose|c: int| 0 <= c < before.len() && (#[trigger] before[c]).alts().contains(a);
                                if c != f {
                                    assert(classes@[c] == before[c]);
                                }
                            } else {
                                assert(classes@[f as int].alts().contains(a));
                            }
                        }
                        assert forall|c: int, d: int| 0 <= c < classes@.len() && 0 <= d < classes@.len() && c != d implies (#[trigger] classes@[c]).alts().disjoint((#[trigger] classes@[d]).alts()) by {
                            if c != f && d != f {
                                assert(classes@[c] == before[c]);
                                assert(classes@[d] == before[d]);
                            } else if c == f {
                                assert(classes@[d] == before[d]);
                                assert(before[d].alts().subset_of(alts_below(i as int)));
                                assert(before[d].alts().disjoint(before[c].alts()));
                            } else {
                                assert(classes@[c] == before[c]);
                                assert(before[c].alts().subset_of(alts_below(i as int)));
                                assert(before[c].alts().disjoint(before[d].alts()));
                            }
                        }
                        assert forall|c: int| 0 <= c < classes@.len() implies (#[trigger] classes@[c]).alts().subset_of(alts_below(i + 1)) by {
                            if c != f {
                                assert(classes@[c] == before[c]);
                            }
                        }
                    }
                },
            }
            i = i + 1;
        }
        let all_edges = self.edges();
        let mut relevant: Vec<(Alt, Alt)> = Vec::new();
        let mut k: usize = 0;
        while k < all_edges.len()
            invariant
                k <= all_edges@.len(),
                forall|j: int| 0 <= j < relevant@.len() ==> reps@.contains((#[trigger] relevant@[j]).0) && reps@.contains(relevant@[j].1),
                forall|j: int| 0 <= j < relevant@.len() ==> (#[trigger] relevant@[j]).0 != relevant@[j].1 && self.le(relevant@[j].0.0 as int, relevant@[j].1.0 as int),
                forall|j: int| 0 <= j < all_edges@.len() ==> (#[trigger] all_edges@[j]).0 != all_edges@[j].1 && self.le(all_edges@[j].0.0 as int, all_edges@[j].1.0 as int),
                classes_ok(self, reps@, classes@),
            decreases all_edges@.len() - k,
        {
            let (p, q) = all_edges[k];
            match (index_of(&reps, p), index_of(&reps, q)) {
                (Some(_), Some(_)) => {
                    let ghost before = relevant@;
                    relevant.push((p, q));
                    proof {
                        assert forall|j: int| 0 <= j < relevant@.len() implies reps@.contains((#[trigger] relevant@[j]).0) && reps@.contains(relevant@[j].1) by {
                            if j < before.len() {
                                assert(relevant@[j] == before[j]);
                            }
                        }
                        assert forall|j: int| 0 <= j < relevant@.len() implies (#[trigger] relevant@[j]).0 != relevant@[j].1 && self.le(relevant@[j].0.0 as int, relevant@[j].1.0 as int) by {
                            if j < before.len() {
                                assert(relevant@[j] == before[j]);
                            } else {
                                assert(all_edges@[k as int] == (p, q));
                            }
                        }
                    }
                },
                _ => {},
            }
            k = k + 1;
        }
        let simple = simplify_edges(relevant.as_slice());
        let mut edges: Vec<(usize, usize)> = Vec::new();
        let mut k: usize = 0;
        while k < simple.len()
            invariant
                k <= simple@.len(),
                reps@.len() == classes@.len(),
                forall|j: int| 0 <= j < simple@.len() ==> relevant@.contains(#[trigger] simple@[j]),
                forall|j: int| 0 <= j < relevant@.len() ==> reps@.contains((#[trigger] relevant@[j]).0) && reps@.contains(relevant@[j].1),
                forall|j: int| 0 <= j < edges@.len() ==> (#[trigger] edges@[j]).0 < classes@.len() && edges@[j].1 < classes@.len(),
                forall|j: int| 0 <= j < relevant@.len() ==> (#[trigger] relevant@[j]).0 != relevant@[j].1 && self.le(relevant@[j].0.0 as int, relevant@[j].1.0 as int),
                forall|j: int| 0 <= j < edges@.len() ==> (#[trigger] edges@[j]).0 != edges@[j].1 && self.le(reps@[edges@[j].0 as int].0 as int, reps@[edges@[j].1 as int].0 as int),
                classes_ok(self, reps@, classes@),
            decreases simple@.len() - k,
        {
            let (p, q) = simple[k];
            proof {
                assert(relevant@.contains(simple@[k as int]));
                let j = choose|j: int| 0 <= j < relevant@.len() && relevant@[j] == simple@[k as int];
                assert(reps@.contains(relevant@[j].0));
                assert(relevant@[j].0 != relevant@[j].1 && self.le(relevant@[j].0.0 as int, relevant@[j].1.0 as int));
            }
            match (index_of(&reps, p), index_of(&reps, q)) {
                (Some(a), Some(b)) => {
                    let ghost before = edges@;
                    edges.push((a, b));
                    proof {
                        assert forall|j: int| 0 <= j < edges@.len() implies (#[trigger] edges@[j]).0 < classes@.len() && edges@[j].1 < classes@.len() by {
                            if j < before.len() {
                                assert(edges@[j] == before[j]);
                            }
                        }
                        assert forall|j: int| 0 <= j < edges@.len() implies (#[trigger] edges@[j]).0 != edges@[j].1 && self.le(reps@[edges@[j].0 as int].0 as int, reps@[edges@[j].1 as int].0 as int) by {
                            if j < before.len() {
                                assert(edges@[j] == before[j]);
                            }
                        }
                    }
                },
                _ => {},
            }
            k = k + 1;
        }
        let r = Graph { vertices: classes, edges };
        proof {
            if reflexive(self) && transitive(self) {
                lemma_poset_graph(self, reps@, &r);
            }
        }
        r
    }
}

proof fn lemma_poset_graph(p: &Preorder, reps: Seq<Alt>, g: &Graph<AltSet>)
    requires
        reflexive(p),
        transitive(p),
        classes_ok(p, reps, g.vertices@),
        partition_of(g.vertices@, p.n()),
        forall|j: int| 0 <= j < g.edges@.len() ==> (#[trigger] g.edges@[j]).0 < g.vertices@.len() && g.edges@[j].1 < g.vertices@.len(),
        forall|j: int| 0 <= j < g.edges@.len() ==> (#[trigger] g.edges@[j]).0 != g.edges@[j].1 && p.le(reps[g.edges@[j].0 as int].0 as int, reps[g.edges@[j].1 as int].0 as int),
    ensures
        poset_graph_of(p, g),
{
    let v = g.vertices@;
    // every member is below and above its representative
    assert forall|c: int, a: Alt| 0 <= c < v.len() && #[trigger] v[c].alts().contains(a) implies p.le(a.0 as int, reps[c].0 as int)
        && p.le(reps[c].0 as int, a.0 as int) by {
        assert(a == reps[c] || equiv(p, a, reps[c]));
        if a == reps[c] {
            assert(v[c].alts().subset_of(alts_below(p.n())));
            assert(p.le(a.0 as int, a.0 as int));
        }
    }
    assert forall|c: int, x: Alt, y: Alt|
        0 <= c < v.len() && #[trigger] v[c].alts().contains(x) && #[trigger] v[c].alts().contains(y) implies p.le(x.0 as int, y.0 as int) by {
        assert(v[c].alts().subset_of(alts_below(p.n())));
        assert(p.le(x.0 as int, reps[c].0 as int));
        assert(p.le(reps[c].0 as int, y.0 as int));
    }
    assert forall|c: int, d: int, x: Alt, y: Alt|
        0 <= c < v.len() && 0 <= d < v.len() && c != d && #[trigger] v[c].alts().contains(x) && #[trigger] v[d].alts().contains(y)
            implies !(p.le(x.0 as int, y.0 as int) && p.le(y.0 as int, x.0 as int)) by {
        assert(v[c].alts().subset_of(alts_below(p.n())));
        assert(v[d].alts().subset_of(alts_below(p.n())));
        assert(v[c].alts().contains(reps[c]));
        assert(v[d].alts().contains(reps[d]));
        if p.le(x.0 as int, y.0 as int) && p.le(y.0 as int, x.0 as int) {
            assert(p.le(reps[c].0 as int, x.0 as int));
            assert(p.le(reps[c].0 as int, y.0 as int));
            assert(p.le(reps[c].0 as int, reps[d].0 as int));
            assert(p.le(reps[d].0 as int, y.0 as int));
            assert(p.le(reps[d].0 as int, x.0 as int));
            assert(p.le(reps[d].0 as int, reps[c].0 as int));
            assert(equiv(p, reps[c], reps[d]));
        }
    }
    assert forall|k: int, x: Alt, y: Alt|
        0 <= k < g.edges@.len() && #[trigger] v[g.edges@[k].0 as int].alts().contains(x) && #[trigger] v[g.edges@[k].1 as int].alts().contains(y)
            implies g.edges@[k].0 != g.edges@[k].1 && p.le(x.0 as int, y.0 as int) by {
        let a = g.edges@[k].0 as int;
        let b = g.edges@[k].1 as int;
        assert(v[a].alts().subset_of(alts_below(p.n())));
        assert(v[b].alts().subset_of(alts_below(p.n())));
        assert(v[a].alts().contains(reps[a]));
        assert(v[b].alts().contains(reps[b]));
        assert(p.le(x.0 as int, reps[a].0 as int));
        assert(p.le(reps[a].0 as int, reps[b].0 as int));
        assert(p.le(x.0 as int, reps[b].0 as int));
        assert(p.le(reps[b].0 as int, y.0 as int));
    }
}

/// The poset graph of a relation, with each edge given by its two classes: `(P, Q)` such
/// that the alternatives of `P` are `≤` those of `Q`.
pub struct GraphRepr {
    pub vertices: Vec<AltSet>,
    pub edges: Vec<(AltSet, AltSet)>,
}

/// The poset graph of `p`, with edges between classes.
pub fn graph_repr(p: &Preorder) -> (r: GraphRepr)
    requires
        p.wf(),
    ensures
        partition_of(r.vertices@, p.n()),
{
    let g = p.to_poset_graph();
    let mut edges: Vec<(AltSet, AltSet)> = Vec::new();
    let mut k: usize = 0;
    while k < g.edges.len()
        invariant
            k <= g.edges@.len(),
            forall|j: int| 0 <= j < g.edges@.len() ==> (#[trigger] g.edges@[j]).0 < g.vertices@.len() && g.edges@[j].1 < g.vertices@.len(),
        decreases g.edges@.len() - k,
    {
        let (a, b) = g.edges[k];
        edges.push((g.vertices[a].clone(), g.vertices[b].clone()));
        k = k + 1;
    }
    GraphRepr { vertices: g.vertices, edges }
}

} // verus!
