//! Transitive reduction of a set of edges between alternatives.
use vstd::prelude::*;
use crate::alt::Alt;

verus! {

/// `p` is a walk along `edges`: consecutive vertices are joined by an edge.
pub open spec fn walk(edges: Seq<(Alt, Alt)>, p: Seq<Alt>) -> bool {
    &&& p.len() >= 1
    &&& forall|k: int| 0 < k < p.len() ==> edges.contains((#[trigger] p[k - 1], p[k]))
}

/// Some walk along `edges` leads from `a` to `b`.
pub open spec fn reaches(edges: Seq<(Alt, Alt)>, a: Alt, b: Alt) -> bool {
    exists|p: Seq<Alt>| #[trigger] walk(edges, p) && p[0] == a && p.last() == b
}

proof fn lemma_walk_push(edges: Seq<(Alt, Alt)>, p: Seq<Alt>, x: Alt)
    requires
        walk(edges, p),
        edges.contains((p.last(), x)),
    ensures
        walk(edges, p.push(x)),
{
    let q = p.push(x);
    assert forall|k: int| 0 < k < q.len() implies edges.contains((#[trigger] q[k - 1], q[k])) by {
        if k < p.len() {
            assert(q[k - 1] == p[k - 1]);
            assert(q[k] == p[k]);
        }
    }
}

proof fn lemma_walk_concat(edges: Seq<(Alt, Alt)>, p: Seq<Alt>, q: Seq<Alt>)
    requires
        walk(edges, p),
        walk(edges, q),
        p.last() == q[0],
    ensures
        walk(edges, p + q.drop_first()),
        (p + q.drop_first())[0] == p[0],
        (p + q.drop_first()).last() == q.last(),
{
    let r = p + q.drop_first();
    assert forall|k: int| 0 < k < r.len() implies edges.contains((#[trigger] r[k - 1], r[k])) by {
        if k < p.len() {
            assert(r[k - 1] == p[k - 1]);
            assert(r[k] == p[k]);
        } else {
            let m = k - p.len() + 1;
            assert(r[k] == q[m]);
            assert(edges.contains((q[m - 1], q[m])));
            if k == p.len() {
                assert(r[k - 1] == p.last());
                assert(q[m - 1] == q[0]);
            } else {
                assert(r[k - 1] == q[m - 1]);
            }
        }
    }
}

/// Removing an edge that a walk can replace keeps every walk's ends connected.
proof fn lemma_reroute(edges: Seq<(Alt, Alt)>, k: int, p: Seq<Alt>)
    requires
        0 <= k < edges.len(),
        walk(edges, p),
        reaches(edges.remove(k), edges[k].0, edges[k].1),
    ensures
        reaches(edges.remove(k), p[0], p.last()),
    decreases p.len(),
{
    let f = edges.remove(k);
    if p.len() == 1 {
        assert(walk(f, p));
    } else {
        let head = p.drop_last();
        assert(walk(edges, head)) by {
            assert forall|j: int| 0 < j < head.len() implies edges.contains((#[trigger] head[j - 1], head[j])) by {
                assert(head[j - 1] == p[j - 1]);
                assert(head[j] == p[j]);
            }
        }
        lemma_reroute(edges, k, head);
        let w = choose|w: Seq<Alt>| #[trigger] walk(f, w) && w[0] == head[0] && w.last() == head.last();
        let u = p[p.len() - 2];
        let v = p.last();
        assert(edges.contains((p[p.len() - 1 - 1], p[p.len() - 1])));
        assert(u == head.last());
        let m = choose|m: int| 0 <= m < edges.len() && edges[m] == (u, v);
        if m == k {
            let z = choose|z: Seq<Alt>| #[trigger] walk(f, z) && z[0] == edges[k].0 && z.last() == edges[k].1;
            lemma_walk_concat(f, w, z);
            assert(walk(f, w + z.drop_first()));
        } else {
            let mi = if m < k { m } else { m - 1 };
            assert(f[mi] == edges[m]);
            assert(f.contains((w.last(), v)));
            lemma_walk_push(f, w, v);
            assert(walk(f, w.push(v)));
            assert(w.push(v)[0] == p[0]);
        }
    }
}

/// The number of edges of `edges` whose target is not in `reach`.
pub open spec fn missing_targets(edges: Seq<(Alt, Alt)>, reach: Seq<Alt>, k: int) -> nat
    decreases k,
{
    if k <= 0 {
        0
    } else {
        missing_targets(edges, reach, k - 1) + if reach.contains(edges[k - 1].1) { 0nat } else { 1nat }
    }
}

proof fn lemma_missing_grow(edges: Seq<(Alt, Alt)>, reach: Seq<Alt>, v: Alt, m: int, k: int)
    requires
        0 <= m < k <= edges.len(),
        edges[m].1 == v,
        !reach.contains(v),
    ensures
        missing_targets(edges, reach.push(v), k) < missing_targets(edges, reach, k),
    decreases k,
{
    lemma_missing_mono(edges, reach, v, k - 1);
    if m < k - 1 {
        lemma_missing_grow(edges, reach, v, m, k - 1);
    }
    let x = edges[k - 1].1;
    if reach.contains(x) {
        let w = choose|w: int| 0 <= w < reach.len() && reach[w] == x;
        assert(reach.push(v)[w] == x);
    }
    if m == k - 1 {
        assert(reach.push(v)[reach.len() as int] == v);
    }
}

proof fn lemma_missing_mono(edges: Seq<(Alt, Alt)>, reach: Seq<Alt>, v: Alt, k: int)
    requires
        0 <= k <= edges.len(),
    ensures
        missing_targets(edges, reach.push(v), k) <= missing_targets(edges, reach, k),
    decreases k,
{
    if k > 0 {
        lemma_missing_mono(edges, reach, v, k - 1);
        let x = edges[k - 1].1;
        if reach.contains(x) {
            let w = choose|w: int| 0 <= w < reach.len() && reach[w] == x;
            assert(reach.push(v)[w] == x);
        }
    }
}

proof fn lemma_missing_bound(edges: Seq<(Alt, Alt)>, reach: Seq<Alt>, k: int)
    requires
        0 <= k,
    ensures
        missing_targets(edges, reach, k) <= k,
    decreases k,
{
    if k > 0 {
        lemma_missing_bound(edges, reach, k - 1);
    }
}

/// Every walk from a vertex of a set closed under `edges` stays in that set.
proof fn lemma_closed_walk(f: Seq<(Alt, Alt)>, reach: Seq<Alt>, p: Seq<Alt>)
    requires
        walk(f, p),
        reach.contains(p[0]),
        forall|m: int| 0 <= m < f.len() && reach.contains((#[trigger] f[m]).0) ==> reach.contains(f[m].1),
    ensures
        reach.contains(p.last()),
    decreases p.len(),
{
    if p.len() > 1 {
        let q = p.drop_last();
        assert(walk(f, q)) by {
            assert forall|t: int| 0 < t < q.len() implies f.contains((#[trigger] q[t - 1], q[t])) by {
                assert(q[t - 1] == p[t - 1]);
                assert(q[t] == p[t]);
            }
        }
        lemma_closed_walk(f, reach, q);
        assert(f.contains((p[p.len() - 1 - 1], p[p.len() - 1])));
        let m = choose|m: int| 0 <= m < f.len() && f[m] == (p[p.len() - 2], p.last());
        assert(q.last() == p[p.len() - 2]);
    }
}

/// Whether the target of edge `k` can be reached from its distinct source without that
/// edge.
fn redundant(edges: &Vec<(Alt, Alt)>, k: usize) -> (r: bool)
    requires
        k < edges@.len(),
    ensures
        r == (edges@[k as int].0 != edges@[k as int].1 && reaches(edges@.remove(k as int), edges@[k as int].0, edges@[k as int].1)),
{
    let ghost f = edges@.remove(k as int);
    let (from, to) = edges[k];
    if from == to {
        return false;
    }
    let mut reach: Vec<Alt> = Vec::new();
    reach.push(from);
    proof {
        assert(walk(f, seq![from]));
        assert(seq![from].last() == from);
        assert(reach@[0] == from);
        lemma_missing_bound(edges@, reach@, edges@.len() as int);
    }
    loop
        invariant
            k < edges@.len(),
            f == edges@.remove(k as int),
            (from, to) == edges@[k as int],
            from != to,
            reach@.contains(from),
            forall|j: int| 0 <= j < reach@.len() ==> reaches(f, from, #[trigger] reach@[j]),
        decreases missing_targets(edges@, reach@, edges@.len() as int),
    {
        let ghost start = reach@;
        let mut grew = false;
        let mut m: usize = 0;
        while m < edges.len()
            invariant
                k < edges@.len(),
                f == edges@.remove(k as int),
                (from, to) == edges@[k as int],
                from != to,
                reach@.contains(from),
                forall|j: int| 0 <= j < reach@.len() ==> reaches(f, from, #[trigger] reach@[j]),
                m <= edges@.len(),
                !grew ==> reach@ == start,
                grew ==> missing_targets(edges@, reach@, edges@.len() as int) < missing_targets(edges@, start, edges@.len() as int),
                !grew ==> forall|q: int| 0 <= q < m && q != k && reach@.contains((#[trigger] edges@[q]).0) ==> reach@.contains(edges@[q].1),
            decreases edges@.len() - m,
        {
            if m != k {
                let (u, v) = edges[m];
                if contains_alt(&reach, u) && !contains_alt(&reach, v) {
                    proof {
                        let j = choose|j: int| 0 <= j < reach@.len() && reach@[j] == u;
                        assert(reaches(f, from, reach@[j]));
                        let w = choose|w: Seq<Alt>| #[trigger] walk(f, w) && w[0] == from && w.last() == u;
                        let mi = if m < k { m as int } else { m - 1 };
                        assert(f[mi] == edges@[m as int]);
                        assert(f.contains((w.last(), v)));
                        lemma_walk_push(f, w, v);
                        assert(w.push(v)[0] == from);
                        assert(reaches(f, from, v));
                    }
                    if v == to {
                        return true;
                    }
                    let ghost before = reach@;
                    reach.push(v);
                    proof {
                        assert forall|j: int| 0 <= j < reach@.len() implies reaches(f, from, #[trigger] reach@[j]) by {
                            if j < before.len() {
                                assert(reach@[j] == before[j]);
                            }
                        }
                        let w = choose|w: int| 0 <= w < before.len() && before[w] == from;
                        assert(reach@[w] == from);
                        lemma_missing_grow(edges@, before, v, m as int, edges@.len() as int);
                        if grew {
                        } else {
                            assert(before == start);
                        }
                    }
                    grew = true;
                }
            }
            m = m + 1;
        }
        if !grew {
            let found = contains_alt(&reach, to);
            proof {
                assert forall|q: int| 0 <= q < f.len() && reach@.contains((#[trigger] f[q]).0) implies reach@.contains(f[q].1) by {
                    let e = if q < k { q } else { q + 1 };
                    assert(f[q] == edges@[e]);
                    assert(e != k);
                }
                if reaches(f, from, to) {
                    let p = choose|p: Seq<Alt>| #[trigger] walk(f, p) && p[0] == from && p.last() == to;
                    lemma_closed_walk(f, reach@, p);
                }
                if found {
                    let j = choose|j: int| 0 <= j < reach@.len() && reach@[j] == to;
                    assert(reaches(f, from, reach@[j]));
                }
            }
            return found;
        }
    }
}

/// Whether `x` is in `v`.
fn contains_alt(v: &Vec<Alt>, x: Alt) -> (r: bool)
    ensures
        r == v@.contains(x),
{
    let mut k: usize = 0;
    while k < v.len()
        invariant
            k <= v@.len(),
            forall|j: int| 0 <= j < k ==> v@[j] != x,
        decreases v@.len() - k,
    {
        if v[k] == x {
            return true;
        }
        k = k + 1;
    }
    false
}

/// Removes, one at a time and until none is left, every edge whose target can be reached
/// from its source through the other edges; repeated edges are kept once.
pub fn simplify_edges(edges: &[(Alt, Alt)]) -> (r: Vec<(Alt, Alt)>)
    ensures
        r@.no_duplicates(),
        forall|k: int| 0 <= k < r@.len() ==> edges@.contains(#[trigger] r@[k]),
        forall|k: int| 0 <= k < edges@.len() ==> reaches(r@, (#[trigger] edges@[k]).0, edges@[k].1),
        forall|k: int| 0 <= k < r@.len() && (#[trigger] r@[k]).0 != r@[k].1 ==> !reaches(r@.remove(k), r@[k].0, r@[k].1),
{
    let mut current: Vec<(Alt, Alt)> = Vec::new();
    let mut k: usize = 0;
    while k < edges.len()
        invariant
            k <= edges@.len(),
            forall|j: int| 0 <= j < current@.len() ==> edges@.contains(#[trigger] current@[j]),
            forall|j: int| 0 <= j < k ==> current@.contains(#[trigger] edges@[j]),
            current@.no_duplicates(),
        decreases edges@.len() - k,
    {
        let e = edges[k];
        let mut present = false;
        let mut m: usize = 0;
        while m < current.len()
            invariant
                m <= current@.len(),
                present ==> current@.contains(e),
                !present ==> forall|j: int| 0 <= j < m ==> current@[j] != e,
            decreases current@.len() - m,
        {
            if current[m].0 == e.0 && current[m].1 == e.1 {
                present = true;
            }
            m = m + 1;
        }
        let ghost before = current@;
        if !present {
            current.push(e);
        }
        proof {
            assert forall|a: int, b: int| 0 <= a < current@.len() && 0 <= b < current@.len() && a != b implies current@[a] != current@[b] by {
                if a < before.len() && b < before.len() {
                    assert(current@[a] == before[a]);
                    assert(current@[b] == before[b]);
                } else if a < before.len() {
                    assert(current@[a] == before[a]);
                } else {
                    assert(current@[b] == before[b]);
                }
            }
            assert forall|j: int| 0 <= j < current@.len() implies edges@.contains(#[trigger] current@[j]) by {
                if j < before.len() {
                    assert(current@[j] == before[j]);
                } else {
                    assert(edges@[k as int] == e);
                }
            }
            assert forall|j: int| 0 <= j < k + 1 implies current@.contains(#[trigger] edges@[j]) by {
                if j < k {
                    assert(before.contains(edges@[j]));
                    let q = choose|q: int| 0 <= q < before.len() && before[q] == edges@[j];
                    assert(current@[q] == before[q]);
                } else if !present {
                    assert(current@[before.len() as int] == e);
                }
            }
        }
        k = k + 1;
    }
    proof {
        assert forall|j: int| 0 <= j < edges@.len() implies reaches(current@, (#[trigger] edges@[j]).0, edges@[j].1) by {
            let e = edges@[j];
            assert(current@.contains(e));
            let p = seq![e.0, e.1];
            assert(p[0] == e.0 && p[1] == e.1);
            assert(walk(current@, p));
        }
    }
    let mut changing = true;
    while changing
        invariant
            current@.no_duplicates(),
            forall|j: int| 0 <= j < current@.len() ==> edges@.contains(#[trigger] current@[j]),
            forall|j: int| 0 <= j < edges@.len() ==> reaches(current@, (#[trigger] edges@[j]).0, edges@[j].1),
            !changing ==> forall|j: int| 0 <= j < current@.len() && (#[trigger] current@[j]).0 != current@[j].1 ==> !reaches(current@.remove(j), current@[j].0, current@[j].1),
        decreases current@.len() + if changing { 1int } else { 0int },
    {
        changing = false;
        let ghost start = current@.len();
        let mut k: usize = 0;
        while k < current.len()
            invariant
                current@.no_duplicates(),
                forall|j: int| 0 <= j < current@.len() ==> edges@.contains(#[trigger] current@[j]),
                forall|j: int| 0 <= j < edges@.len() ==> reaches(current@, (#[trigger] edges@[j]).0, edges@[j].1),
                k <= current@.len(),
                current@.len() <= start,
                changing ==> current@.len() < start,
                !changing ==> forall|j: int| 0 <= j < k && (#[trigger] current@[j]).0 != current@[j].1 ==> !reaches(current@.remove(j), current@[j].0, current@[j].1),
            decreases current@.len() - k,
        {
            if redundant(&current, k) {
                let ghost before = current@;
                current.remove(k);
                proof {
                    assert(current@ == before.remove(k as int));
                    assert forall|a: int, b: int| 0 <= a < current@.len() && 0 <= b < current@.len() && a != b implies current@[a] != current@[b] by {
                        let pa = if a < k { a } else { a + 1 };
                        let pb = if b < k { b } else { b + 1 };
                        assert(current@[a] == before[pa]);
                        assert(current@[b] == before[pb]);
                    }
                    assert forall|j: int| 0 <= j < current@.len() implies edges@.contains(#[trigger] current@[j]) by {
                        if j < k {
                            assert(current@[j] == before[j]);
                        } else {
                            assert(current@[j] == before[j + 1]);
                        }
                    }
                    assert forall|j: int| 0 <= j < edges@.len() implies reaches(current@, (#[trigger] edges@[j]).0, edges@[j].1) by {
                        let e = edges@[j];
                        assert(reaches(before, e.0, e.1));
                        let p = choose|p: Seq<Alt>| #[trigger] walk(before, p) && p[0] == e.0 && p.last() == e.1;
                        lemma_reroute(before, k as int, p);
                    }
                }
                changing = true;
            } else {
                k = k + 1;
            }
        }
    }
    current
}

/// Simplification keeps reachability both ways: each given edge is connected by a walk
/// of the simplified edges, and each simplified edge is a given one.
pub proof fn lemma_simplify_keeps_reachability(edges: Seq<(Alt, Alt)>, simplified: Seq<(Alt, Alt)>, a: Alt, b: Alt)
    requires
        forall|k: int| 0 <= k < simplified.len() ==> edges.contains(#[trigger] simplified[k]),
        forall|k: int| 0 <= k < edges.len() ==> reaches(simplified, (#[trigger] edges[k]).0, edges[k].1),
    ensures
        reaches(edges, a, b) <==> reaches(simplified, a, b),
{
    if reaches(edges, a, b) {
        let p = choose|p: Seq<Alt>| #[trigger] walk(edges, p) && p[0] == a && p.last() == b;
        lemma_walk_through(edges, simplified, p);
    }
    if reaches(simplified, a, b) {
        let p = choose|p: Seq<Alt>| #[trigger] walk(simplified, p) && p[0] == a && p.last() == b;
        assert(walk(edges, p)) by {
            assert forall|k: int| 0 < k < p.len() implies edges.contains((#[trigger] p[k - 1], p[k])) by {
                assert(simplified.contains((p[k - 1], p[k])));
                let m = choose|m: int| 0 <= m < simplified.len() && simplified[m] == (p[k - 1], p[k]);
            }
        }
    }
}

/// A walk along `edges` becomes a walk along `simplified`, edge by edge.
proof fn lemma_walk_through(edges: Seq<(Alt, Alt)>, simplified: Seq<(Alt, Alt)>, p: Seq<Alt>)
    requires
        walk(edges, p),
        forall|k: int| 0 <= k < edges.len() ==> reaches(simplified, (#[trigger] edges[k]).0, edges[k].1),
    ensures
        reaches(simplified, p[0], p.last()),
    decreases p.len(),
{
    if p.len() == 1 {
        assert(walk(simplified, p));
    } else {
        let head = p.drop_last();
        assert(walk(edges, head)) by {
            assert forall|j: int| 0 < j < head.len() implies edges.contains((#[trigger] head[j - 1], head[j])) by {
                assert(head[j - 1] == p[j - 1]);
                assert(head[j] == p[j]);
            }
        }
        lemma_walk_through(edges, simplified, head);
        let w = choose|w: Seq<Alt>| #[trigger] walk(simplified, w) && w[0] == head[0] && w.last() == head.last();
        assert(edges.contains((p[p.len() - 1 - 1], p[p.len() - 1])));
        let m = choose|m: int| 0 <= m < edges.len() && edges[m] == (p[p.len() - 2], p.last());
        assert(reaches(simplified, edges[m].0, edges[m].1));
        let z = choose|z: Seq<Alt>| #[trigger] walk(simplified, z) && z[0] == edges[m].0 && z.last() == edges[m].1;
        lemma_walk_concat(simplified, w, z);
        assert(walk(simplified, w + z.drop_first()));
    }
}

} // verus!
