//! Deterministic consistency: revealed-preference graphs, their cycles, and counts of
//! axiom violations.
use vstd::prelude::*;
use crate::alt::Alt;
use crate::alt_set::{alts_below, AltSet, MAX_BLOCKS};
use crate::common::{ChoiceRow, Subject};

verus! {

/// The number whose little-endian base-2^32 digits are `s`.
pub open spec fn digits_value(s: Seq<u32>) -> nat
    decreases s.len(),
{
    if s.len() == 0 {
        0
    } else {
        s[0] as nat + 4294967296 * digits_value(s.drop_first())
    }
}

/// Relies on num_bigint's `BigUint`: multiplication by a `u32` is exact, `from_slice`
/// reads and `to_u32_digits` writes little-endian base-2^32 digits.
#[verifier::external_body]
fn digits_mul(a: &Vec<u32>, x: u32) -> (r: Vec<u32>)
    ensures
        digits_value(r@) == digits_value(a@) * x,
{
    (num_bigint::BigUint::from_slice(a) * x).to_u32_digits()
}

/// Relies on num_bigint's `BigUint`: addition is exact, `from_slice` reads and
/// `to_u32_digits` writes little-endian base-2^32 digits.
#[verifier::external_body]
fn digits_add(a: &Vec<u32>, b: &Vec<u32>) -> (r: Vec<u32>)
    ensures
        digits_value(r@) == digits_value(a@) + digits_value(b@),
{
    (num_bigint::BigUint::from_slice(a) + num_bigint::BigUint::from_slice(b)).to_u32_digits()
}

pub proof fn lemma_pair_index(n: int, i: int, j: int)
    requires
        0 <= n <= MAX_VERTICES,
        0 <= i < n,
        0 <= j < n,
    ensures
        0 <= i * n + j < n * n,
        n * n <= MAX_VERTICES * MAX_VERTICES,
{
    assert(0 <= i * n + j < n * n) by (nonlinear_arith)
        requires
            0 <= i < n,
            0 <= j < n,
    ;
    assert(n * n <= MAX_VERTICES * MAX_VERTICES) by (nonlinear_arith)
        requires
            0 <= n <= MAX_VERTICES,
    ;
}

pub proof fn lemma_pair_inj(n: int, a: int, b: int, i: int, j: int)
    requires
        0 <= a < n,
        0 <= b < n,
        0 <= i < n,
        0 <= j < n,
        a * n + b == i * n + j,
    ensures
        a == i,
        b == j,
{
    vstd::arithmetic::div_mod::lemma_fundamental_div_mod_converse(i * n + j, n, a, b);
    vstd::arithmetic::div_mod::lemma_fundamental_div_mod_converse(i * n + j, n, i, j);
}

/// The largest number of vertices of a revealed-preference graph.
pub const MAX_VERTICES: u32 = 0x1000;

/// A revealed-preference multigraph: for each ordered pair of alternatives, the indices
/// of the observations that give an edge between them.
pub struct Multigraph {
    vertices: u32,
    edges: Vec<Vec<u32>>,
}

impl Multigraph {
    /// The number of vertices.
    pub closed spec fn n(&self) -> int {
        self.vertices as int
    }

    /// The observations that give the edge `i → j`.
    pub closed spec fn row(&self, i: int, j: int) -> Seq<u32> {
        self.edges@[i * self.vertices + j]@
    }

    /// The matrix has one list per ordered pair.
    pub closed spec fn wf(&self) -> bool {
        &&& self.vertices <= MAX_VERTICES
        &&& self.edges@.len() == self.vertices * self.vertices
        &&& forall|k: int| 0 <= k < self.edges@.len() ==> (#[trigger] self.edges@[k])@.len() <= u32::MAX
    }

    /// No edges on `vertices` vertices.
    pub fn new(vertices: u32) -> (r: Multigraph)
        requires
            vertices <= MAX_VERTICES,
        ensures
            r.wf(),
            r.n() == vertices,
            forall|i: int, j: int| 0 <= i < vertices && 0 <= j < vertices ==> #[trigger] r.row(i, j) == Seq::<u32>::empty(),
    {
        proof {
            assert(vertices * vertices <= MAX_VERTICES * MAX_VERTICES) by (nonlinear_arith)
                requires
                    vertices <= MAX_VERTICES,
            ;
        }
        let total = (vertices as usize) * (vertices as usize);
        let mut edges: Vec<Vec<u32>> = Vec::new();
        let mut k: usize = 0;
        while k < total
            invariant
                k <= total,
                edges@.len() == k,
                forall|j: int| 0 <= j < k ==> (#[trigger] edges@[j])@ == Seq::<u32>::empty(),
            decreases total - k,
        {
            edges.push(Vec::new());
            k = k + 1;
        }
        let r = Multigraph { vertices, edges };
        proof {
            assert forall|i: int, j: int| 0 <= i < vertices && 0 <= j < vertices implies #[trigger] r.row(i, j) == Seq::<u32>::empty() by {
                lemma_pair_index(vertices as int, i, j);
            }
        }
        r
    }

    /// Whether there is an edge `i → j`.
    pub fn has_edge(&self, i: Alt, j: Alt) -> (r: bool)
        requires
            self.wf(),
            i.0 < self.n(),
            j.0 < self.n(),
        ensures
            r == (self.row(i.0 as int, j.0 as int).len() > 0),
    {
        self.count(i, j) > 0
    }

    /// The number of edges `i → j`.
    pub fn count(&self, i: Alt, j: Alt) -> (r: u32)
        requires
            self.wf(),
            i.0 < self.n(),
            j.0 < self.n(),
        ensures
            r == self.row(i.0 as int, j.0 as int).len(),
    {
        proof {
            lemma_pair_index(self.vertices as int, i.0 as int, j.0 as int);
        }
        let idx = (self.vertices as usize) * (i.0 as usize) + (j.0 as usize);
        proof {
            assert(idx == i.0 * self.vertices + j.0) by (nonlinear_arith)
                requires
                    idx == self.vertices * i.0 + j.0,
            ;
        }
        self.edges[idx].len() as u32
    }
}

/// Observation `cr` reveals `i ≤ j`: `i` was available and `j` was chosen.
pub open spec fn weak_edge(cr: ChoiceRow, i: int, j: int) -> bool {
    cr.menu.alts().contains(Alt(i as u32)) && cr.choice.alts().contains(Alt(j as u32))
}

/// Observation `cr` reveals `i < j`: moreover `i` was not chosen.
pub open spec fn strict_edge(cr: ChoiceRow, i: int, j: int) -> bool {
    weak_edge(cr, i, j) && !cr.choice.alts().contains(Alt(i as u32))
}

/// The indices, in ascending order, of the first `k` observations that give the edge
/// `i → j` (a strict one when `strict`).
pub open spec fn edge_rows(choices: Seq<ChoiceRow>, strict: bool, i: int, j: int, k: int) -> Seq<u32>
    decreases k,
{
    if k <= 0 {
        Seq::empty()
    } else {
        let prev = edge_rows(choices, strict, i, j, k - 1);
        if (if strict { strict_edge(choices[k - 1], i, j) } else { weak_edge(choices[k - 1], i, j) }) {
            prev.push((k - 1) as u32)
        } else {
            prev
        }
    }
}

pub proof fn lemma_edge_rows_len(choices: Seq<ChoiceRow>, strict: bool, i: int, j: int, k: int)
    requires
        0 <= k,
    ensures
        edge_rows(choices, strict, i, j, k).len() <= k,
    decreases k,
{
    if k > 0 {
        lemma_edge_rows_len(choices, strict, i, j, k - 1);
    }
}

/// Every observation is about alternatives below `n`.
pub open spec fn rows_below(choices: Seq<ChoiceRow>, n: int) -> bool {
    forall|k: int|
        0 <= k < choices.len() ==> (#[trigger] choices[k]).menu.alts().subset_of(alts_below(n))
            && choices[k].choice.alts().subset_of(alts_below(n))
}

/// A copy of `v`.
fn copy_row(v: &Vec<u32>) -> (r: Vec<u32>)
    ensures
        r@ == v@,
{
    let mut r: Vec<u32> = Vec::new();
    let mut k: usize = 0;
    while k < v.len()
        invariant
            k <= v@.len(),
            r@ == v@.subrange(0, k as int),
        decreases v@.len() - k,
    {
        r.push(v[k]);
        k = k + 1;
    }
    proof {
        assert(r@ =~= v@);
    }
    r
}

impl Multigraph {
    /// Adds an edge `i → j` given by observation `e`.
    fn push_edge(&mut self, i: u32, j: u32, e: u32)
        requires
            old(self).wf(),
            i < old(self).n(),
            j < old(self).n(),
            old(self).row(i as int, j as int).len() < u32::MAX,
        ensures
            final(self).wf(),
            final(self).n() == old(self).n(),
            final(self).row(i as int, j as int) == old(self).row(i as int, j as int).push(e),
            forall|a: int, b: int|
                0 <= a < old(self).n() && 0 <= b < old(self).n() && (a != i || b != j) ==> #[trigger] final(self).row(a, b)
                    == old(self).row(a, b),
    {
        proof {
            lemma_pair_index(self.vertices as int, i as int, j as int);
        }
        let idx = (i as usize) * (self.vertices as usize) + (j as usize);
        let mut row = copy_row(&self.edges[idx]);
        row.push(e);
        self.edges.set(idx, row);
        proof {
            let n = self.vertices as int;
            assert forall|a: int, b: int| 0 <= a < n && 0 <= b < n && (a != i || b != j) implies #[trigger] self.row(a, b) == old(self).row(a, b) by {
                lemma_pair_index(n, a, b);
                if a * n + b == i * n + j {
                    lemma_pair_inj(n, a, b, i as int, j as int);
                }
            }
        }
    }
}

/// Adds the edges that observation `idx` gives.
fn add_choice_row(strict: &mut Multigraph, non_strict: &mut Multigraph, cr: &ChoiceRow, idx: u32, Ghost(choices): Ghost<Seq<ChoiceRow>>)
    requires
        old(strict).wf(),
        old(non_strict).wf(),
        old(strict).n() == old(non_strict).n(),
        idx < choices.len() <= u32::MAX,
        choices[idx as int] == *cr,
        forall|i: int, j: int| 0 <= i < old(strict).n() && 0 <= j < old(strict).n() ==> #[trigger] old(strict).row(i, j) == edge_rows(choices, true, i, j, idx as int),
        forall|i: int, j: int| 0 <= i < old(strict).n() && 0 <= j < old(strict).n() ==> #[trigger] old(non_strict).row(i, j) == edge_rows(choices, false, i, j, idx as int),
    ensures
        final(strict).wf(),
        final(non_strict).wf(),
        final(strict).n() == old(strict).n(),
        final(non_strict).n() == old(strict).n(),
        forall|i: int, j: int| 0 <= i < old(strict).n() && 0 <= j < old(strict).n() ==> #[trigger] final(strict).row(i, j) == edge_rows(choices, true, i, j, idx + 1),
        forall|i: int, j: int| 0 <= i < old(strict).n() && 0 <= j < old(strict).n() ==> #[trigger] final(non_strict).row(i, j) == edge_rows(choices, false, i, j, idx + 1),
{
    let n = strict.vertices;
    let menu = cr.menu.view();
    let choice = cr.choice.view();
    let mut i: u32 = 0;
    while i < n
        invariant
            strict.wf(),
            non_strict.wf(),
            strict.n() == n,
            non_strict.n() == n,
            idx < choices.len() <= u32::MAX,
            choices[idx as int] == *cr,
            menu@ == cr.menu.alts(),
            choice@ == cr.choice.alts(),
            i <= n,
            forall|a: int, b: int| 0 <= a < n && 0 <= b < n ==> #[trigger] strict.row(a, b) == edge_rows(choices, true, a, b, if a < i { idx + 1 } else { idx as int }),
            forall|a: int, b: int| 0 <= a < n && 0 <= b < n ==> #[trigger] non_strict.row(a, b) == edge_rows(choices, false, a, b, if a < i { idx + 1 } else { idx as int }),
        decreases n - i,
    {
        let mut j: u32 = 0;
        while j < n
            invariant
                strict.wf(),
                non_strict.wf(),
                strict.n() == n,
                non_strict.n() == n,
                idx < choices.len() <= u32::MAX,
                choices[idx as int] == *cr,
                menu@ == cr.menu.alts(),
                choice@ == cr.choice.alts(),
                i < n,
                j <= n,
                forall|a: int, b: int| 0 <= a < n && 0 <= b < n ==> #[trigger] strict.row(a, b) == edge_rows(choices, true, a, b, if a < i || (a == i && b < j) { idx + 1 } else { idx as int }),
                forall|a: int, b: int| 0 <= a < n && 0 <= b < n ==> #[trigger] non_strict.row(a, b) == edge_rows(choices, false, a, b, if a < i || (a == i && b < j) { idx + 1 } else { idx as int }),
            decreases n - j,
        {
            proof {
                lemma_edge_rows_len(choices, true, i as int, j as int, idx as int);
                lemma_edge_rows_len(choices, false, i as int, j as int, idx as int);
            }
            if menu.contains(Alt(i)) && choice.contains(Alt(j)) {
                non_strict.push_edge(i, j, idx);
                if !choice.contains(Alt(i)) {
                    strict.push_edge(i, j, idx);
                }
            }
            j = j + 1;
        }
        i = i + 1;
    }
}

/// The strict and the non-strict revealed-preference multigraphs of `choices` on
/// `alt_count` alternatives.
pub fn build_graphs(alt_count: u32, choices: &[ChoiceRow]) -> (r: (Multigraph, Multigraph))
    requires
        alt_count <= MAX_VERTICES,
        choices@.len() <= u32::MAX,
    ensures
        r.0.wf(),
        r.1.wf(),
        r.0.n() == alt_count,
        r.1.n() == alt_count,
        forall|i: int, j: int| 0 <= i < alt_count && 0 <= j < alt_count ==> #[trigger] r.0.row(i, j) == edge_rows(choices@, true, i, j, choices@.len() as int),
        forall|i: int, j: int| 0 <= i < alt_count && 0 <= j < alt_count ==> #[trigger] r.1.row(i, j) == edge_rows(choices@, false, i, j, choices@.len() as int),
{
    let mut strict = Multigraph::new(alt_count);
    let mut non_strict = Multigraph::new(alt_count);
    let mut k: usize = 0;
    while k < choices.len()
        invariant
            strict.wf(),
            non_strict.wf(),
            strict.n() == alt_count,
            non_strict.n() == alt_count,
            k <= choices@.len() <= u32::MAX,
            forall|i: int, j: int| 0 <= i < alt_count && 0 <= j < alt_count ==> #[trigger] strict.row(i, j) == edge_rows(choices@, true, i, j, k as int),
            forall|i: int, j: int| 0 <= i < alt_count && 0 <= j < alt_count ==> #[trigger] non_strict.row(i, j) == edge_rows(choices@, false, i, j, k as int),
        decreases choices@.len() - k,
    {
        add_choice_row(&mut strict, &mut non_strict, &choices[k], k as u32, Ghost(choices@));
        k = k + 1;
    }
    (strict, non_strict)
}

/// `m` is the first position of a minimum of `xs`.
pub open spec fn first_min(xs: Seq<u32>, m: int) -> bool {
    &&& 0 <= m < xs.len()
    &&& forall|k: int| 0 <= k < xs.len() ==> xs[m] <= #[trigger] xs[k]
    &&& forall|k: int| 0 <= k < m ==> xs[m] < #[trigger] xs[k]
}

/// The first position of a minimum of a non-empty `xs`.
fn min_index(xs: &[u32]) -> (m: usize)
    requires
        xs@.len() > 0,
    ensures
        first_min(xs@, m as int),
{
    let mut m: usize = 0;
    let mut k: usize = 1;
    while k < xs.len()
        invariant
            0 <= m < k <= xs@.len(),
            forall|j: int| 0 <= j < k ==> xs@[m as int] <= #[trigger] xs@[j],
            forall|j: int| 0 <= j < m ==> xs@[m as int] < #[trigger] xs@[j],
        decreases xs@.len() - k,
    {
        if xs[k] < xs[m] {
            m = k;
        }
        k = k + 1;
    }
    m
}

/// `xs` rotated so that it starts at the first position of its minimum.
pub fn rotate_min(xs: &[u32]) -> (r: Vec<u32>)
    ensures
        xs@.len() == 0 ==> r@.len() == 0,
        xs@.len() > 0 ==> exists|m: int| first_min(xs@, m) && r@ == xs@.subrange(m, xs@.len() as int) + xs@.subrange(0, m),
{
    let mut r: Vec<u32> = Vec::new();
    if xs.len() == 0 {
        return r;
    }
    let m = min_index(xs);
    let mut k: usize = m;
    while k < xs.len()
        invariant
            m <= k <= xs@.len(),
            r@ == xs@.subrange(m as int, k as int),
        decreases xs@.len() - k,
    {
        r.push(xs[k]);
        k = k + 1;
    }
    let mut k: usize = 0;
    while k < m
        invariant
            k <= m < xs@.len(),
            r@ == xs@.subrange(m as int, xs@.len() as int) + xs@.subrange(0, k as int),
        decreases m - k,
    {
        r.push(xs[k]);
        proof {
            assert(xs@.subrange(0, k + 1) =~= xs@.subrange(0, k as int).push(xs@[k as int]));
        }
        k = k + 1;
    }
    r
}

/// The position of the first occurrence of `x` in `xs`.
pub fn find(x: Alt, xs: &[Alt]) -> (r: Option<usize>)
    ensures
        r matches Some(i) ==> i < xs@.len() && xs@[i as int] == x && forall|k: int| 0 <= k < i ==> xs@[k] != x,
        r is None ==> !xs@.contains(x),
{
    let mut k: usize = 0;
    while k < xs.len()
        invariant
            k <= xs@.len(),
            forall|j: int| 0 <= j < k ==> xs@[j] != x,
        decreases xs@.len() - k,
    {
        if xs[k] == x {
            return Some(k);
        }
        k = k + 1;
    }
    None
}

/// A simple cycle of `g` through the vertices of `vs`, in order, back to the first.
pub open spec fn is_cycle(g: &Multigraph, vs: Seq<Alt>) -> bool {
    &&& vs.len() >= 2
    &&& vs.no_duplicates()
    &&& forall|k: int| 0 <= k < vs.len() ==> (#[trigger] vs[k]).0 < g.n()
    &&& forall|k: int| 0 < k < vs.len() ==> g.row((#[trigger] vs[k - 1]).0 as int, vs[k].0 as int).len() > 0
    &&& g.row(vs[vs.len() - 1].0 as int, vs[0].0 as int).len() > 0
}

/// A cycle of alternatives, stored starting from its least vertex.
#[derive(Clone, PartialEq, Eq, PartialOrd, Ord, Hash, Debug)]
pub struct Cycle {
    vertices: Vec<Alt>,
}

/// The vertex indices of `vs`.
pub open spec fn indices_of(vs: Seq<Alt>) -> Seq<u32> {
    vs.map_values(|a: Alt| a.0)
}

impl Cycle {
    /// The vertices, starting from the least.
    pub closed spec fn verts(&self) -> Seq<Alt> {
        self.vertices@
    }

    /// The cycle through `vertices`, rotated to start from its least vertex.
    pub fn new(vertices: &[Alt]) -> (r: Cycle)
        ensures
            vertices@.len() > 0 ==> exists|m: int| first_min(indices_of(vertices@), m)
                && r.verts() == vertices@.subrange(m, vertices@.len() as int) + vertices@.subrange(0, m),
            vertices@.len() == 0 ==> r.verts().len() == 0,
    {
        let mut xs: Vec<u32> = Vec::new();
        let mut k: usize = 0;
        while k < vertices.len()
            invariant
                k <= vertices@.len(),
                xs@ == indices_of(vertices@.subrange(0, k as int)),
            decreases vertices@.len() - k,
        {
            xs.push(vertices[k].0);
            proof {
                assert(indices_of(vertices@.subrange(0, k + 1)) =~= indices_of(vertices@.subrange(0, k as int)).push(vertices@[k as int].0));
            }
            k = k + 1;
        }
        proof {
            assert(vertices@.subrange(0, vertices@.len() as int) =~= vertices@);
        }
        let rotated = rotate_min(xs.as_slice());
        let mut vs: Vec<Alt> = Vec::new();
        let mut k: usize = 0;
        while k < rotated.len()
            invariant
                k <= rotated@.len(),
                vs@.len() == k,
                forall|j: int| 0 <= j < k ==> (#[trigger] vs@[j]) == Alt(rotated@[j]),
            decreases rotated@.len() - k,
        {
            vs.push(Alt(rotated[k]));
            k = k + 1;
        }
        proof {
            if vertices@.len() > 0 {
                let m = choose|m: int| first_min(xs@, m) && rotated@ == xs@.subrange(m, xs@.len() as int) + xs@.subrange(0, m);
                let n = vertices@.len() as int;
                assert(vs@ =~= vertices@.subrange(m, n) + vertices@.subrange(0, m)) by {
                    assert forall|j: int| 0 <= j < n implies vs@[j] == (vertices@.subrange(m, n) + vertices@.subrange(0, m))[j] by {
                        if j < n - m {
                            assert(rotated@[j] == xs@[m + j]);
                        } else {
                            assert(rotated@[j] == xs@[j - (n - m)]);
                        }
                    }
                }
            }
        }
        Cycle { vertices: vs }
    }

    /// The number of vertices.
    pub fn len(&self) -> (r: u32)
        requires
            self.verts().len() <= u32::MAX,
        ensures
            r == self.verts().len(),
    {
        self.vertices.len() as u32
    }

    /// The vertices, starting from the least.
    pub fn vertices(&self) -> (r: &Vec<Alt>)
        ensures
            r@ == self.verts(),
    {
        &self.vertices
    }
}

/// The same vertex sequence.
fn same_vertices(a: &Vec<Alt>, b: &Vec<Alt>) -> (r: bool)
    ensures
        r == (a@ == b@),
{
    if a.len() != b.len() {
        return false;
    }
    let mut k: usize = 0;
    while k < a.len()
        invariant
            a@.len() == b@.len(),
            k <= a@.len(),
            forall|j: int| 0 <= j < k ==> a@[j] == b@[j],
        decreases a@.len() - k,
    {
        if a[k] != b[k] {
            return false;
        }
        k = k + 1;
    }
    proof {
        assert(a@ =~= b@);
    }
    true
}

/// Rotating a cycle gives a cycle.
proof fn lemma_rotated_cycle(g: &Multigraph, vs: Seq<Alt>, m: int)
    requires
        is_cycle(g, vs),
        0 <= m < vs.len(),
    ensures
        is_cycle(g, vs.subrange(m, vs.len() as int) + vs.subrange(0, m)),
{
    let n = vs.len() as int;
    let ws = vs.subrange(m, n) + vs.subrange(0, m);
    assert forall|k: int| 0 <= k < n implies #[trigger] ws[k] == vs[if k < n - m { m + k } else { k - (n - m) }] by {}
    assert forall|k: int| 0 < k < n implies g.row((#[trigger] ws[k - 1]).0 as int, ws[k].0 as int).len() > 0 by {
        if k < n - m {
            assert(ws[k - 1] == vs[m + k - 1]);
            assert(ws[k] == vs[m + k]);
        } else if k == n - m {
            assert(ws[k - 1] == vs[n - 1]);
            assert(ws[k] == vs[0]);
        } else {
            let k2 = k - (n - m);
            assert(ws[k - 1] == vs[k2 - 1]);
            assert(ws[k] == vs[k2]);
        }
    }
    if m > 0 {
        assert(ws[n - 1] == vs[m - 1]);
        assert(ws[0] == vs[m]);
    } else {
        assert(ws =~= vs);
    }
    assert forall|a: int, b: int| 0 <= a < n && 0 <= b < n && a != b implies ws[a] != ws[b] by {
        let pa = if a < n - m { m + a } else { a - (n - m) };
        let pb = if b < n - m { m + b } else { b - (n - m) };
        assert(ws[a] == vs[pa]);
        assert(ws[b] == vs[pb]);
    }
    assert forall|k: int| 0 <= k < n implies (#[trigger] ws[k]).0 < g.n() by {
        let pk = if k < n - m { m + k } else { k - (n - m) };
        assert(ws[k] == vs[pk]);
    }
}

/// The vertices of `history` are distinct and form a path of `g`.
pub open spec fn is_path(g: &Multigraph, history: Seq<Alt>) -> bool {
    &&& history.no_duplicates()
    &&& forall|k: int| 0 <= k < history.len() ==> (#[trigger] history[k]).0 < g.n()
    &&& forall|k: int| 0 < k < history.len() ==> g.row((#[trigger] history[k - 1]).0 as int, history[k].0 as int).len() > 0
}

/// Every cycle of `result` is a cycle of `g`, and no two are the same.
pub open spec fn cycles_of(g: &Multigraph, result: Seq<Cycle>) -> bool {
    &&& forall|k: int| 0 <= k < result.len() ==> is_cycle(g, (#[trigger] result[k]).verts())
    &&& forall|a: int, b: int| 0 <= a < result.len() && 0 <= b < result.len() && a != b ==> (#[trigger] result[a]).verts() != (#[trigger] result[b]).verts()
}

/// Adds `c` to `result` unless the same cycle is there already.
fn insert_cycle(result: &mut Vec<Cycle>, c: Cycle, Ghost(g): Ghost<&Multigraph>)
    requires
        cycles_of(g, old(result)@),
        is_cycle(g, c.verts()),
    ensures
        cycles_of(g, final(result)@),
        final(result)@.len() >= old(result)@.len(),
{
    let mut k: usize = 0;
    while k < result.len()
        invariant
            k <= result@.len(),
            result@ == old(result)@,
            cycles_of(g, result@),
            forall|j: int| 0 <= j < k ==> (#[trigger] result@[j]).verts() != c.verts(),
        decreases result@.len() - k,
    {
        if same_vertices(&result[k].vertices, &c.vertices) {
            return;
        }
        k = k + 1;
    }
    let ghost before = result@;
    result.push(c);
    proof {
        assert forall|a: int, b: int| 0 <= a < result@.len() && 0 <= b < result@.len() && a != b implies (#[trigger] result@[a]).verts() != (#[trigger] result@[b]).verts() by {
            if a < before.len() && b < before.len() {
                assert(result@[a] == before[a]);
                assert(result@[b] == before[b]);
            } else if a < before.len() {
                assert(result@[a] == before[a]);
            } else {
                assert(result@[b] == before[b]);
            }
        }
        assert forall|k: int| 0 <= k < result@.len() implies is_cycle(g, (#[trigger] result@[k]).verts()) by {
            if k < before.len() {
                assert(result@[k] == before[k]);
            }
        }
    }
}

/// Explores the simple paths of `g` that extend `history` through `root`, recording each
/// cycle that closes back onto the path.
fn find_cycles_from(untouched: &mut Vec<bool>, g: &Multigraph, history: &mut Vec<Alt>, root: Alt, result: &mut Vec<Cycle>)
    requires
        g.wf(),
        old(untouched)@.len() == g.n(),
        root.0 < g.n(),
        is_path(g, old(history)@),
        !old(history)@.contains(root),
        old(history)@.len() > 0 ==> g.row(old(history)@.last().0 as int, root.0 as int).len() > 0,
        cycles_of(g, old(result)@),
    ensures
        final(untouched)@.len() == g.n(),
        final(history)@ == old(history)@,
        cycles_of(g, final(result)@),
        !final(untouched)@[root.0 as int],
        forall|v: int| 0 <= v < g.n() && !old(untouched)@[v] ==> !#[trigger] final(untouched)@[v],
    decreases g.n() - old(history)@.len(),
{
    untouched.set(root.0 as usize, false);
    let ghost h0 = history@;
    history.push(root);
    proof {
        assert forall|a: int, b: int| 0 <= a < history@.len() && 0 <= b < history@.len() && a != b implies history@[a] != history@[b] by {
            if a == h0.len() {
                assert(history@[b] == h0[b]);
            } else if b == h0.len() {
                assert(history@[a] == h0[a]);
            }
        }
        assert forall|k: int| 0 < k < history@.len() implies g.row((#[trigger] history@[k - 1]).0 as int, history@[k].0 as int).len() > 0 by {
            if k < h0.len() {
                assert(history@[k - 1] == h0[k - 1]);
                assert(history@[k] == h0[k]);
            } else {
                assert(history@[k - 1] == h0.last());
            }
        }
        // the path has distinct vertices below n
        lemma_path_len(g, history@);
    }
    let n = g.vertices;
    let mut next: u32 = 0;
    while next < n
        invariant
            g.wf(),
            n == g.n(),
            untouched@.len() == n,
            history@ == h0.push(root),
            h0 == old(history)@,
            is_path(g, history@),
            history@.len() <= n,
            root.0 < n,
            cycles_of(g, result@),
            !untouched@[root.0 as int],
            forall|v: int| 0 <= v < g.n() && !old(untouched)@[v] ==> !#[trigger] untouched@[v],
            next <= n,
        decreases n - next,
    {
        let nx = Alt(next);
        if g.has_edge(root, nx) && nx != root {
            match find(nx, history.as_slice()) {
                Some(idx) => {
                    let c = Cycle::new(vstd::slice::slice_subrange(history.as_slice(), idx, history.len()));
                    proof {
                        let vs = history@.subrange(idx as int, history@.len() as int);
                        assert(is_cycle(g, vs)) by {
                            assert(vs.last() == root);
                            assert(vs[0] == nx);
                            assert forall|a: int, b: int| 0 <= a < vs.len() && 0 <= b < vs.len() && a != b implies vs[a] != vs[b] by {
                                assert(vs[a] == history@[idx + a]);
                                assert(vs[b] == history@[idx + b]);
                            }
                            assert forall|k: int| 0 < k < vs.len() implies g.row((#[trigger] vs[k - 1]).0 as int, vs[k].0 as int).len() > 0 by {
                                assert(vs[k - 1] == history@[idx + k - 1]);
                                assert(vs[k] == history@[idx + k]);
                            }
                            assert forall|k: int| 0 <= k < vs.len() implies (#[trigger] vs[k]).0 < g.n() by {
                                assert(vs[k] == history@[idx + k]);
                            }
                            if vs.len() < 2 {
                                assert(vs[0] == root);
                            }
                        }
                        let m = choose|m: int| first_min(indices_of(vs), m) && c.verts() == vs.subrange(m, vs.len() as int) + vs.subrange(0, m);
                        lemma_rotated_cycle(g, vs, m);
                    }
                    insert_cycle(result, c, Ghost(g));
                },
                None => {
                    let ghost hb = history@;
                    find_cycles_from(untouched, g, history, nx, result);
                },
            }
        }
        next = next + 1;
    }
    history.pop();
    proof {
        assert(history@ =~= h0);
    }
}

/// A path has at most as many vertices as the graph.
proof fn lemma_path_len(g: &Multigraph, history: Seq<Alt>)
    requires
        is_path(g, history),
        g.n() >= 0,
    ensures
        history.len() <= g.n(),
{
    let s = indices_of(history).map_values(|i: u32| i as int).to_set();
    let t = indices_of(history).map_values(|i: u32| i as int);
    assert(t.no_duplicates()) by {
        assert forall|a: int, b: int| 0 <= a < t.len() && 0 <= b < t.len() && a != b implies t[a] != t[b] by {
            assert(history[a] != history[b]);
            assert(t[a] == history[a].0 as int);
            assert(t[b] == history[b].0 as int);
        }
    }
    t.unique_seq_to_set();
    assert forall|x: int| s.contains(x) implies 0 <= x < g.n() by {
        let k = choose|k: int| 0 <= k < t.len() && t[k] == x;
        assert(t[k] == history[k].0 as int);
    }
    vstd::set_lib::lemma_int_range(0, g.n());
    assert(s.subset_of(vstd::set_lib::set_int_range(0, g.n())));
    vstd::set_lib::lemma_len_subset(s, vstd::set_lib::set_int_range(0, g.n()));
}

/// The simple cycles of `g` found by a depth-first search from each vertex not yet
/// reached, in ascending order; each is stored once, from its least vertex.
pub fn find_cycles(g: &Multigraph) -> (r: Vec<Cycle>)
    requires
        g.wf(),
    ensures
        cycles_of(g, r@),
{
    let n = g.vertices;
    let mut untouched: Vec<bool> = Vec::new();
    let mut k: u32 = 0;
    while k < n
        invariant
            k <= n,
            untouched@.len() == k,
        decreases n - k,
    {
        untouched.push(true);
        k = k + 1;
    }
    let mut result: Vec<Cycle> = Vec::new();
    let mut root: u32 = 0;
    while root < n
        invariant
            g.wf(),
            n == g.n(),
            untouched@.len() == n,
            cycles_of(g, result@),
            root <= n,
        decreases n - root,
    {
        if untouched[root as usize] {
            let mut history: Vec<Alt> = Vec::new();
            proof {
                assert(!history@.contains(Alt(root)));
            }
            find_cycles_from(&mut untouched, g, &mut history, Alt(root), &mut result);
        }
        root = root + 1;
    }
    result
}

/// The edges of the cycle through `vs`: from the last vertex to the first, then along `vs`.
pub open spec fn cycle_edges(vs: Seq<Alt>) -> Seq<(Alt, Alt)> {
    Seq::new(vs.len(), |k: int| if k == 0 { (vs[vs.len() - 1], vs[0]) } else { (vs[k - 1], vs[k]) })
}

/// The product of the edge counts of `es` in `g`.
pub open spec fn count_product(g: &Multigraph, es: Seq<(Alt, Alt)>) -> nat
    decreases es.len(),
{
    if es.len() == 0 {
        1
    } else {
        count_product(g, es.drop_last()) * g.row(es.last().0.0 as int, es.last().1.0 as int).len()
    }
}

/// The number of ways to pick one observation per edge of `es`, each giving a non-strict
/// edge, with at least one strict edge among them (or anywhere, when `got_strict`).
pub open spec fn garp_count(strict: &Multigraph, non_strict: &Multigraph, es: Seq<(Alt, Alt)>, got_strict: bool) -> int
    decreases es.len(),
{
    if es.len() == 0 {
        if got_strict { 1 } else { 0 }
    } else {
        let u = es[0].0.0 as int;
        let v = es[0].1.0 as int;
        let s = strict.row(u, v).len() as int;
        let ns = non_strict.row(u, v).len() as int;
        let rest = es.drop_first();
        if s > 0 {
            s * garp_count(strict, non_strict, rest, true) + (ns - s) * garp_count(strict, non_strict, rest, got_strict)
        } else {
            ns * garp_count(strict, non_strict, rest, got_strict)
        }
    }
}

/// The strict graph is part of the non-strict one.
pub open spec fn nested(strict: &Multigraph, non_strict: &Multigraph) -> bool {
    &&& strict.wf()
    &&& non_strict.wf()
    &&& strict.n() == non_strict.n()
    &&& forall|i: int, j: int| 0 <= i < strict.n() && 0 <= j < strict.n() ==> (#[trigger] strict.row(i, j)).len() <= non_strict.row(i, j).len()
}

pub proof fn lemma_edge_rows_nested(choices: Seq<ChoiceRow>, i: int, j: int, k: int)
    requires
        0 <= k,
    ensures
        edge_rows(choices, true, i, j, k).len() <= edge_rows(choices, false, i, j, k).len(),
    decreases k,
{
    if k > 0 {
        lemma_edge_rows_nested(choices, i, j, k - 1);
    }
}

/// The graphs that `build_graphs` returns are nested.
pub proof fn lemma_build_nested(strict: &Multigraph, non_strict: &Multigraph, choices: Seq<ChoiceRow>, n: int)
    requires
        strict.wf(),
        non_strict.wf(),
        strict.n() == n,
        non_strict.n() == n,
        forall|i: int, j: int| 0 <= i < n && 0 <= j < n ==> #[trigger] strict.row(i, j) == edge_rows(choices, true, i, j, choices.len() as int),
        forall|i: int, j: int| 0 <= i < n && 0 <= j < n ==> #[trigger] non_strict.row(i, j) == edge_rows(choices, false, i, j, choices.len() as int),
    ensures
        nested(strict, non_strict),
{
    assert forall|i: int, j: int| 0 <= i < n && 0 <= j < n implies (#[trigger] strict.row(i, j)).len() <= non_strict.row(i, j).len() by {
        lemma_edge_rows_nested(choices, i, j, choices.len() as int);
    }
}

/// The edges of the cycle through `vs`, as a vector.
fn edges_of(vs: &Vec<Alt>) -> (r: Vec<(Alt, Alt)>)
    requires
        vs@.len() > 0,
    ensures
        r@ == cycle_edges(vs@),
{
    let mut r: Vec<(Alt, Alt)> = Vec::new();
    let mut last = vs[vs.len() - 1];
    let mut k: usize = 0;
    while k < vs.len()
        invariant
            0 < vs@.len(),
            k <= vs@.len(),
            r@ == cycle_edges(vs@).subrange(0, k as int),
            last == if k == 0 { vs@[vs@.len() - 1] } else { vs@[k - 1] },
        decreases vs@.len() - k,
    {
        r.push((last, vs[k]));
        last = vs[k];
        proof {
            assert(cycle_edges(vs@).subrange(0, k + 1) =~= cycle_edges(vs@).subrange(0, k as int).push(cycle_edges(vs@)[k as int]));
        }
        k = k + 1;
    }
    proof {
        assert(cycle_edges(vs@).subrange(0, vs@.len() as int) =~= cycle_edges(vs@));
    }
    r
}

/// The ways to pick one observation per remaining edge, from `es[from..]`.
fn garp_from(strict: &Multigraph, non_strict: &Multigraph, got_strict: bool, es: &Vec<(Alt, Alt)>, from: usize) -> (r: Vec<u32>)
    requires
        nested(strict, non_strict),
        from <= es@.len(),
        forall|k: int| 0 <= k < es@.len() ==> (#[trigger] es@[k]).0.0 < strict.n() && es@[k].1.0 < strict.n(),
    ensures
        digits_value(r@) == garp_count(strict, non_strict, es@.subrange(from as int, es@.len() as int), got_strict),
    decreases es@.len() - from,
{
    let ghost rest = es@.subrange(from as int, es@.len() as int);
    if from == es.len() {
        let mut r: Vec<u32> = Vec::new();
        if got_strict {
            r.push(1);
            proof {
                assert(digits_value(r@.drop_first()) == 0);
            }
        }
        return r;
    }
    let (u, v) = es[from];
    proof {
        assert(rest[0] == es@[from as int]);
        assert(rest.drop_first() =~= es@.subrange(from + 1, es@.len() as int));
    }
    let s = strict.count(u, v);
    let ns = non_strict.count(u, v);
    if s > 0 {
        let with_strict = garp_from(strict, non_strict, true, es, from + 1);
        let without = garp_from(strict, non_strict, got_strict, es, from + 1);
        let a = digits_mul(&with_strict, s);
        let b = digits_mul(&without, ns - s);
        let r = digits_add(&a, &b);
        proof {
            let x = garp_count(strict, non_strict, rest.drop_first(), true);
            let y = garp_count(strict, non_strict, rest.drop_first(), got_strict);
            assert(digits_value(a@) == x * s);
            assert(digits_value(b@) == y * (ns - s));
            assert(garp_count(strict, non_strict, rest, got_strict) == s * x + (ns - s) * y);
            assert(x * s == s * x) by (nonlinear_arith);
            assert(y * (ns - s) == (ns - s) * y) by (nonlinear_arith);
        }
        r
    } else {
        let without = garp_from(strict, non_strict, got_strict, es, from + 1);
        let r = digits_mul(&without, ns);
        proof {
            let y = garp_count(strict, non_strict, rest.drop_first(), got_strict);
            assert(garp_count(strict, non_strict, rest, got_strict) == ns * y);
            assert(y * ns == ns * y) by (nonlinear_arith);
        }
        r
    }
}

impl Cycle {
    /// The product of the edge counts of the cycle in `g`.
    pub fn multiplicity_in(&self, g: &Multigraph) -> (r: Vec<u32>)
        requires
            g.wf(),
            is_cycle(g, self.verts()),
        ensures
            digits_value(r@) == count_product(g, cycle_edges(self.verts())),
    {
        let es = edges_of(&self.vertices);
        let mut r: Vec<u32> = Vec::new();
        r.push(1);
        proof {
            assert(digits_value(r@.drop_first()) == 0);
            assert(es@.subrange(0, 0) =~= Seq::<(Alt, Alt)>::empty());
        }
        let mut k: usize = 0;
        while k < es.len()
            invariant
                g.wf(),
                is_cycle(g, self.verts()),
                es@ == cycle_edges(self.verts()),
                k <= es@.len(),
                digits_value(r@) == count_product(g, es@.subrange(0, k as int)),
            decreases es@.len() - k,
        {
            let (u, v) = es[k];
            proof {
                assert(es@.subrange(0, k + 1).drop_last() =~= es@.subrange(0, k as int));
                let vs = self.verts();
                if k == 0 {
                    assert(es@[0] == (vs[vs.len() - 1], vs[0]));
                } else {
                    assert(es@[k as int] == (vs[k - 1], vs[k as int]));
                }
            }
            let c = g.count(u, v);
            r = digits_mul(&r, c);
            k = k + 1;
        }
        proof {
            assert(es@.subrange(0, es@.len() as int) =~= es@);
        }
        r
    }

    /// The ways the cycle closes with non-strict edges, at least one of them strict.
    pub fn garp_multiplicity_in(&self, strict: &Multigraph, non_strict: &Multigraph) -> (r: Vec<u32>)
        requires
            nested(strict, non_strict),
            is_cycle(non_strict, self.verts()),
        ensures
            digits_value(r@) == garp_count(strict, non_strict, cycle_edges(self.verts()), false),
    {
        let es = edges_of(&self.vertices);
        proof {
            let vs = self.verts();
            assert forall|k: int| 0 <= k < es@.len() implies (#[trigger] es@[k]).0.0 < strict.n() && es@[k].1.0 < strict.n() by {
                if k == 0 {
                    assert(vs[vs.len() - 1].0 < non_strict.n());
                } else {
                    assert(vs[k - 1].0 < non_strict.n());
                }
            }
            assert(es@.subrange(0, es@.len() as int) =~= es@);
        }
        garp_from(strict, non_strict, false, &es, 0)
    }
}

/// The alternatives chosen from `b`'s menu that were offered in `a`'s smaller menu but
/// not chosen there; none unless `a`'s menu is a proper subset of `b`'s.
pub open spec fn contraction_violations(a: ChoiceRow, b: ChoiceRow) -> nat {
    if a.menu.alts().subset_of(b.menu.alts()) && a.menu.alts() != b.menu.alts() {
        b.choice.alts().intersect(a.menu.alts()).difference(a.choice.alts()).len()
    } else {
        0
    }
}

/// The violations of `a` against the first `k` observations, and the number of those
/// observations with any.
pub open spec fn contraction_row(choices: Seq<ChoiceRow>, a: ChoiceRow, k: int) -> (nat, nat)
    decreases k,
{
    if k <= 0 {
        (0, 0)
    } else {
        let prev = contraction_row(choices, a, k - 1);
        let v = contraction_violations(a, choices[k - 1]);
        (prev.0 + v, prev.1 + if v > 0 { 1nat } else { 0nat })
    }
}

/// All violations of contraction consistency among the first `k` observations as the
/// smaller menu, and the number of pairs of observations with any.
pub open spec fn contraction_totals(choices: Seq<ChoiceRow>, k: int) -> (nat, nat)
    decreases k,
{
    if k <= 0 {
        (0, 0)
    } else {
        let prev = contraction_totals(choices, k - 1);
        let row = contraction_row(choices, choices[k - 1], choices.len() as int);
        (prev.0 + row.0, prev.1 + row.1)
    }
}

proof fn lemma_contraction_mono(choices: Seq<ChoiceRow>, k: int, m: int)
    requires
        0 <= k <= m,
    ensures
        contraction_totals(choices, k).0 <= contraction_totals(choices, m).0,
        contraction_totals(choices, k).1 <= contraction_totals(choices, m).1,
    decreases m - k,
{
    if k < m {
        lemma_contraction_mono(choices, k, m - 1);
    }
}

proof fn lemma_contraction_row_mono(choices: Seq<ChoiceRow>, a: ChoiceRow, k: int, m: int)
    requires
        0 <= k <= m,
    ensures
        contraction_row(choices, a, k).0 <= contraction_row(choices, a, m).0,
        contraction_row(choices, a, k).1 <= contraction_row(choices, a, m).1,
    decreases m - k,
{
    if k < m {
        lemma_contraction_row_mono(choices, a, k, m - 1);
    }
}

/// The number of contraction-consistency violations of the pair `(a, b)`.
fn violations_of(a: &ChoiceRow, b: &ChoiceRow) -> (r: u32)
    ensures
        r == contraction_violations(*a, *b),
{
    if !a.menu.view().is_strict_subset_of(b.menu.view()) {
        return 0;
    }
    let mut rest = b.choice.clone();
    rest.intersect_with(a.menu.view());
    rest.difference_with(a.choice.view());
    rest.size()
}

/// Contraction consistency: `(all, pairs)`, the number of violations over all ordered
/// pairs of observations whose first menu is a proper subset of the second, and the
/// number of such pairs with any violation.
pub fn contraction_consistency(choices: &[ChoiceRow]) -> (r: (u32, u32))
    requires
        contraction_totals(choices@, choices@.len() as int).0 <= u32::MAX,
        contraction_totals(choices@, choices@.len() as int).1 <= u32::MAX,
    ensures
        r.0 == contraction_totals(choices@, choices@.len() as int).0,
        r.1 == contraction_totals(choices@, choices@.len() as int).1,
{
    let n = choices.len();
    let mut all: u32 = 0;
    let mut pairs: u32 = 0;
    let mut i: usize = 0;
    while i < n
        invariant
            n == choices@.len(),
            i <= n,
            contraction_totals(choices@, n as int).0 <= u32::MAX,
            contraction_totals(choices@, n as int).1 <= u32::MAX,
            all == contraction_totals(choices@, i as int).0,
            pairs == contraction_totals(choices@, i as int).1,
        decreases n - i,
    {
        let a = &choices[i];
        proof {
            lemma_contraction_mono(choices@, i + 1, n as int);
        }
        let mut j: usize = 0;
        let mut row_all: u32 = 0;
        let mut row_pairs: u32 = 0;
        while j < n
            invariant
                n == choices@.len(),
                i < n,
                j <= n,
                *a == choices@[i as int],
                all == contraction_totals(choices@, i as int).0,
                pairs == contraction_totals(choices@, i as int).1,
                all + contraction_row(choices@, *a, n as int).0 <= u32::MAX,
                pairs + contraction_row(choices@, *a, n as int).1 <= u32::MAX,
                row_all == contraction_row(choices@, *a, j as int).0,
                row_pairs == contraction_row(choices@, *a, j as int).1,
            decreases n - j,
        {
            proof {
                lemma_contraction_row_mono(choices@, *a, j + 1, n as int);
            }
            let v = violations_of(a, &choices[j]);
            row_all = row_all + v;
            if v > 0 {
                row_pairs = row_pairs + 1;
            }
            j = j + 1;
        }
        all = all + row_all;
        pairs = pairs + row_pairs;
        i = i + 1;
    }
    (all, pairs)
}

/// Two observations share a menu.
pub open spec fn repeated_menus(choices: Seq<ChoiceRow>) -> bool {
    exists|i: int, j: int| 0 <= i < j < choices.len() && (#[trigger] choices[i]).menu.alts() == (#[trigger] choices[j]).menu.alts()
}

/// Whether two observations share a menu.
pub fn has_repeated_menus(choices: &[ChoiceRow]) -> (r: bool)
    ensures
        r == repeated_menus(choices@),
{
    let n = choices.len();
    let mut j: usize = 0;
    while j < n
        invariant
            n == choices@.len(),
            j <= n,
            forall|a: int, b: int| 0 <= a < b < j ==> (#[trigger] choices@[a]).menu.alts() != (#[trigger] choices@[b]).menu.alts(),
        decreases n - j,
    {
        let mut i: usize = 0;
        while i < j
            invariant
                n == choices@.len(),
                i <= j < n,
                forall|a: int, b: int| 0 <= a < b < j ==> (#[trigger] choices@[a]).menu.alts() != (#[trigger] choices@[b]).menu.alts(),
                forall|a: int| 0 <= a < i ==> (#[trigger] choices@[a]).menu.alts() != choices@[j as int].menu.alts(),
            decreases j - i,
        {
            if choices[i].menu == choices[j].menu {
                return true;
            }
            i = i + 1;
        }
        j = j + 1;
    }
    false
}

/// Scores for one cycle length; the counts are little-endian base-2^32 digits.
#[derive(Clone, PartialEq, Eq, Debug)]
pub struct Row {
    pub cycle_length: u32,
    pub garp: Vec<u32>,
    pub sarp: Vec<u32>,
    pub garp_binary_menus: Vec<u32>,
    pub sarp_binary_menus: Vec<u32>,
    pub binary_intransitivities: Vec<u32>,
}

impl Row {
    /// All counts zero.
    pub fn new(cycle_length: u32) -> (r: Row)
        ensures
            r.cycle_length == cycle_length,
            digits_value(r.garp@) == 0,
            digits_value(r.sarp@) == 0,
            digits_value(r.garp_binary_menus@) == 0,
            digits_value(r.sarp_binary_menus@) == 0,
            digits_value(r.binary_intransitivities@) == 0,
    {
        Row {
            cycle_length,
            garp: Vec::new(),
            sarp: Vec::new(),
            garp_binary_menus: Vec::new(),
            sarp_binary_menus: Vec::new(),
            binary_intransitivities: Vec::new(),
        }
    }
}

/// The rows are in strictly ascending order of cycle length.
pub open spec fn rows_sorted(rows: Seq<Row>) -> bool {
    forall|a: int, b: int| 0 <= a < b < rows.len() ==> (#[trigger] rows[a]).cycle_length < (#[trigger] rows[b]).cycle_length
}

/// The position of the row for `length`, added if missing.
fn row_index(rows: &mut Vec<Row>, length: u32) -> (r: usize)
    requires
        rows_sorted(old(rows)@),
    ensures
        rows_sorted(final(rows)@),
        r < final(rows)@.len(),
        final(rows)@[r as int].cycle_length == length,
        final(rows)@.len() <= old(rows)@.len() + 1,
{
    let mut k: usize = 0;
    while k < rows.len() && rows[k].cycle_length < length
        invariant
            rows@ == old(rows)@,
            rows_sorted(rows@),
            k <= rows@.len(),
            forall|j: int| 0 <= j < k ==> (#[trigger] rows@[j]).cycle_length < length,
        decreases rows@.len() - k,
    {
        k = k + 1;
    }
    if k < rows.len() && rows[k].cycle_length == length {
        return k;
    }
    let ghost before = rows@;
    rows.insert(k, Row::new(length));
    proof {
        assert forall|a: int, b: int| 0 <= a < b < rows@.len() implies (#[trigger] rows@[a]).cycle_length < (#[trigger] rows@[b]).cycle_length by {
            if b < k {
                assert(rows@[a] == before[a]);
                assert(rows@[b] == before[b]);
            } else if b == k {
                assert(rows@[a] == before[a]);
            } else if a < k {
                assert(rows@[a] == before[a]);
                assert(rows@[b] == before[b - 1]);
            } else if a == k {
                assert(rows@[b] == before[b - 1]);
                if k < before.len() {
                    assert(before[k as int].cycle_length > length);
                    if b - 1 > k {
                        assert(before[k as int].cycle_length < before[b - 1].cycle_length);
                    }
                }
            } else {
                assert(rows@[a] == before[a - 1]);
                assert(rows@[b] == before[b - 1]);
            }
        }
    }
    k
}

/// What a row accumulates.
pub enum Column {
    Garp,
    Sarp,
    GarpBinaryMenus,
    SarpBinaryMenus,
    BinaryIntransitivities,
}

/// Adds `amount` to one count of the row for `length`.
fn add_to_row(rows: &mut Vec<Row>, length: u32, column: Column, amount: &Vec<u32>)
    requires
        rows_sorted(old(rows)@),
    ensures
        rows_sorted(final(rows)@),
        final(rows)@.len() <= old(rows)@.len() + 1,
{
    let k = row_index(rows, length);
    let mut row = rows[k].clone();
    match column {
        Column::Garp => {
            row.garp = digits_add(&row.garp, amount);
        },
        Column::Sarp => {
            row.sarp = digits_add(&row.sarp, amount);
        },
        Column::GarpBinaryMenus => {
            row.garp_binary_menus = digits_add(&row.garp_binary_menus, amount);
        },
        Column::SarpBinaryMenus => {
            row.sarp_binary_menus = digits_add(&row.sarp_binary_menus, amount);
        },
        Column::BinaryIntransitivities => {
            row.binary_intransitivities = digits_add(&row.binary_intransitivities, amount);
        },
    }
    row.cycle_length = length;
    let ghost before = rows@;
    rows.set(k, row);
    proof {
        assert forall|a: int, b: int| 0 <= a < b < rows@.len() implies (#[trigger] rows@[a]).cycle_length < (#[trigger] rows@[b]).cycle_length by {
            assert(rows@[a].cycle_length == before[a].cycle_length);
            assert(rows@[b].cycle_length == before[b].cycle_length);
        }
    }
}

/// Every path of `paths` lists distinct alternatives below `n`.
pub open spec fn simple_paths(paths: Seq<Vec<Alt>>, n: int) -> bool {
    forall|k: int| 0 <= k < paths.len() ==> (#[trigger] paths[k])@.no_duplicates() && forall|j: int|
        0 <= j < paths[k]@.len() ==> (#[trigger] paths[k]@[j]).0 < n
}

/// Every sequence of distinct alternatives below `n` that extends `prefix`, in
/// depth-first order, each followed by its extensions before the prefix itself.
fn paths_from(prefix: &mut Vec<Alt>, used: &mut Vec<bool>, n: u32, out: &mut Vec<Vec<Alt>>)
    requires
        old(used)@.len() == n,
        old(prefix)@.no_duplicates(),
        forall|j: int| 0 <= j < old(prefix)@.len() ==> (#[trigger] old(prefix)@[j]).0 < n,
        forall|v: int| 0 <= v < n ==> (#[trigger] old(used)@[v] <==> old(prefix)@.contains(Alt(v as u32))),
        simple_paths(old(out)@, n as int),
    ensures
        final(prefix)@ == old(prefix)@,
        final(used)@ == old(used)@,
        simple_paths(final(out)@, n as int),
    decreases n - old(prefix)@.len(),
{
    proof {
        let t = prefix@.map_values(|a: Alt| a.0 as int);
        assert(t.no_duplicates()) by {
            assert forall|a: int, b: int| 0 <= a < t.len() && 0 <= b < t.len() && a != b implies t[a] != t[b] by {
                assert(prefix@[a] != prefix@[b]);
            }
        }
        t.unique_seq_to_set();
        assert forall|x: int| t.to_set().contains(x) implies 0 <= x < n by {
            let k = choose|k: int| 0 <= k < t.len() && t[k] == x;
            assert(t[k] == prefix@[k].0 as int);
        }
        vstd::set_lib::lemma_int_range(0, n as int);
        assert(t.to_set().subset_of(vstd::set_lib::set_int_range(0, n as int)));
        vstd::set_lib::lemma_len_subset(t.to_set(), vstd::set_lib::set_int_range(0, n as int));
    }
    let mut x: u32 = 0;
    while x < n
        invariant
            used@.len() == n,
            prefix@ == old(prefix)@,
            used@ == old(used)@,
            prefix@.len() <= n,
            prefix@.no_duplicates(),
            forall|j: int| 0 <= j < prefix@.len() ==> (#[trigger] prefix@[j]).0 < n,
            forall|v: int| 0 <= v < n ==> (#[trigger] used@[v] <==> prefix@.contains(Alt(v as u32))),
            simple_paths(out@, n as int),
            x <= n,
        decreases n - x,
    {
        if !used[x as usize] {
            let ghost prev = prefix@;
            prefix.push(Alt(x));
            used.set(x as usize, true);
            proof {
                assert(!prev.contains(Alt(x)));
                assert forall|a: int, b: int| 0 <= a < prefix@.len() && 0 <= b < prefix@.len() && a != b implies prefix@[a] != prefix@[b] by {
                    if a == prev.len() {
                        assert(prefix@[b] == prev[b]);
                    } else if b == prev.len() {
                        assert(prefix@[a] == prev[a]);
                    }
                }
                assert forall|j: int| 0 <= j < prefix@.len() implies (#[trigger] prefix@[j]).0 < n by {
                    if j < prev.len() {
                        assert(prefix@[j] == prev[j]);
                    }
                }
                lemma_simple_path_len(prefix@, n as int);
                assert forall|v: int| 0 <= v < n implies (#[trigger] used@[v] <==> prefix@.contains(Alt(v as u32))) by {
                    if v == x {
                        assert(prefix@[prev.len() as int] == Alt(x));
                    } else {
                        if prefix@.contains(Alt(v as u32)) {
                            let k = choose|k: int| 0 <= k < prefix@.len() && prefix@[k] == Alt(v as u32);
                            assert(k < prev.len());
                            assert(prev[k] == Alt(v as u32));
                        }
                        if prev.contains(Alt(v as u32)) {
                            let k = choose|k: int| 0 <= k < prev.len() && prev[k] == Alt(v as u32);
                            assert(prefix@[k] == Alt(v as u32));
                        }
                    }
                }
            }
            paths_from(prefix, used, n, out);
            prefix.pop();
            used.set(x as usize, false);
            proof {
                assert(prefix@ =~= prev);
                assert(used@ =~= old(used)@);
            }
        }
        x = x + 1;
    }
    let path = copy_path(prefix);
    let ghost before = out@;
    out.push(path);
    proof {
        assert forall|k: int| 0 <= k < out@.len() implies (#[trigger] out@[k])@.no_duplicates() && forall|j: int|
            0 <= j < out@[k]@.len() ==> (#[trigger] out@[k]@[j]).0 < n by {
            if k < before.len() {
                assert(out@[k] == before[k]);
            }
        }
    }
}

/// A copy of `v`.
fn copy_path(v: &Vec<Alt>) -> (r: Vec<Alt>)
    ensures
        r@ == v@,
{
    let mut r: Vec<Alt> = Vec::new();
    let mut k: usize = 0;
    while k < v.len()
        invariant
            k <= v@.len(),
            r@ == v@.subrange(0, k as int),
        decreases v@.len() - k,
    {
        r.push(v[k]);
        k = k + 1;
    }
    proof {
        assert(r@ =~= v@);
    }
    r
}

/// The number of the first `k` observations with a menu of two alternatives holding `x`
/// and `y` that did not choose `x`.
pub open spec fn failed_binary(choices: Seq<ChoiceRow>, x: int, y: int, k: int) -> nat
    decreases k,
{
    if k <= 0 {
        0
    } else {
        let cr = choices[k - 1];
        failed_binary(choices, x, y, k - 1) + if cr.menu.alts().len() == 2 && cr.menu.alts().contains(Alt(x as u32))
            && cr.menu.alts().contains(Alt(y as u32)) && !cr.choice.alts().contains(Alt(x as u32)) {
            1nat
        } else {
            0nat
        }
    }
}

/// The product of the counts of the edges `p[t] → p[t - 1]`, for `0 < t < e`.
pub open spec fn path_product(g: &Multigraph, p: Seq<Alt>, e: int) -> nat
    decreases e,
{
    if e <= 1 {
        1
    } else {
        path_product(g, p, e - 1) * g.row(p[e - 1].0 as int, p[e - 2].0 as int).len()
    }
}

/// `(len, value)` is a binary intransitivity of `g` and `choices`: a path of `len` distinct
/// alternatives below `n` whose product of edge counts times the failed binary observations
/// of its ends is `value`, a positive number.
pub open spec fn intransitivity(g: &Multigraph, choices: Seq<ChoiceRow>, n: int, len: int, value: nat) -> bool {
    exists|p: Seq<Alt>| {
        &&& #[trigger] p.len() == len
        &&& len >= 2
        &&& p.no_duplicates()
        &&& forall|j: int| 0 <= j < p.len() ==> (#[trigger] p[j]).0 < n
        &&& value == path_product(g, p, len) * failed_binary(choices, p[0].0 as int, p[len - 1].0 as int, choices.len() as int)
        &&& value > 0
    }
}

/// The binary intransitivities: for each path `x_0 > ... > x_m` of at least one edge of
/// the non-strict graph `g` of the binary menus, the product of its edge counts times
/// the number of binary observations of `{x_0, x_m}` that failed to choose `x_0`; paths
/// with a zero product are left out. Each comes with its number of vertices.
fn binary_intransitivities(alt_count: u32, g: &Multigraph, choices: &[ChoiceRow]) -> (r: Vec<(u32, Vec<u32>)>)
    requires
        g.wf(),
        g.n() == alt_count,
        rows_below(choices@, alt_count as int),
        choices@.len() <= u32::MAX,
    ensures
        forall|k: int| 0 <= k < r@.len() ==> intransitivity(g, choices@, alt_count as int, (#[trigger] r@[k]).0 as int, digits_value(r@[k].1@)),
{
    let n = alt_count;
    proof {
        assert(n * n <= MAX_VERTICES * MAX_VERTICES) by (nonlinear_arith)
            requires
                n <= MAX_VERTICES,
        ;
    }
    // candidates[x * n + y]: binary observations with x, y on the menu that did not choose x
    let total = (n as usize) * (n as usize);
    let mut candidates: Vec<u32> = Vec::new();
    let mut x: u32 = 0;
    while x < n
        invariant
            n <= MAX_VERTICES,
            total == n * n,
            x <= n,
            candidates@.len() == x * n,
            choices@.len() <= u32::MAX,
            forall|a: int, b: int| 0 <= a < x && 0 <= b < n ==> #[trigger] candidates@[a * n + b] == failed_binary(choices@, a, b, choices@.len() as int),
        decreases n - x,
    {
        let mut y: u32 = 0;
        while y < n
            invariant
                n <= MAX_VERTICES,
                x < n,
                y <= n,
                candidates@.len() == x * n + y,
                choices@.len() <= u32::MAX,
                forall|a: int, b: int| 0 <= a < x && 0 <= b < n ==> #[trigger] candidates@[a * n + b] == failed_binary(choices@, a, b, choices@.len() as int),
                forall|b: int| 0 <= b < y ==> #[trigger] candidates@[x * n + b] == failed_binary(choices@, x as int, b, choices@.len() as int),
            decreases n - y,
        {
            let mut count: u32 = 0;
            let mut c: usize = 0;
            while c < choices.len()
                invariant
                    c <= choices@.len() <= u32::MAX,
                    count <= c,
                    count == failed_binary(choices@, x as int, y as int, c as int),
                decreases choices@.len() - c,
            {
                let cr = &choices[c];
                if cr.menu.size() == 2 && cr.menu.view().contains(Alt(x)) && cr.menu.view().contains(Alt(y))
                    && !cr.choice.view().contains(Alt(x)) {
                    count = count + 1;
                }
                c = c + 1;
            }
            let ghost before = candidates@;
            candidates.push(count);
            proof {
                assert forall|a: int, b: int| 0 <= a < x && 0 <= b < n implies #[trigger] candidates@[a * n + b] == failed_binary(choices@, a, b, choices@.len() as int) by {
                    lemma_pair_index(n as int, a, b);
                    assert(a * n + b < x * n) by (nonlinear_arith)
                        requires
                            a < x,
                            b < n,
                    ;
                    assert(candidates@[a * n + b] == before[a * n + b]);
                }
                assert forall|b: int| 0 <= b < y + 1 implies #[trigger] candidates@[x * n + b] == failed_binary(choices@, x as int, b, choices@.len() as int) by {
                    if b < y {
                        assert(candidates@[x * n + b] == before[x * n + b]);
                    }
                }
            }
            y = y + 1;
        }
        proof {
            assert((x + 1) * n == x * n + n) by (nonlinear_arith);
            assert forall|a: int, b: int| 0 <= a < x + 1 && 0 <= b < n implies #[trigger] candidates@[a * n + b] == failed_binary(choices@, a, b, choices@.len() as int) by {
                if a == x {
                    assert(candidates@[x * n + b] == failed_binary(choices@, x as int, b, choices@.len() as int));
                }
            }
        }
        x = x + 1;
    }
    let mut paths: Vec<Vec<Alt>> = Vec::new();
    let mut prefix: Vec<Alt> = Vec::new();
    let mut used: Vec<bool> = Vec::new();
    let mut k: u32 = 0;
    while k < n
        invariant
            k <= n,
            used@.len() == k,
            forall|v: int| 0 <= v < k ==> !(#[trigger] used@[v]),
        decreases n - k,
    {
        used.push(false);
        k = k + 1;
    }
    paths_from(&mut prefix, &mut used, n, &mut paths);
    let mut result: Vec<(u32, Vec<u32>)> = Vec::new();
    let mut p: usize = 0;
    while p < paths.len()
        invariant
            g.wf(),
            g.n() == n,
            n <= MAX_VERTICES,
            total == n * n,
            candidates@.len() == total,
            forall|a: int, b: int| 0 <= a < n && 0 <= b < n ==> #[trigger] candidates@[a * n + b] == failed_binary(choices@, a, b, choices@.len() as int),
            simple_paths(paths@, n as int),
            p <= paths@.len(),
            forall|k: int| 0 <= k < result@.len() ==> intransitivity(g, choices@, n as int, (#[trigger] result@[k]).0 as int, digits_value(result@[k].1@)),
        decreases paths@.len() - p,
    {
        let path = &paths[p];
        proof {
            assert(path@.no_duplicates());
            lemma_simple_path_len(path@, n as int);
        }
        if path.len() >= 2 {
            let mut mult: Vec<u32> = Vec::new();
            mult.push(1);
            proof {
                assert(digits_value(mult@.drop_first()) == 0);
            }
            let mut zero = false;
            let mut e: usize = 1;
            while e < path.len()
                invariant
                    g.wf(),
                    g.n() == n,
                    forall|j: int| 0 <= j < path@.len() ==> (#[trigger] path@[j]).0 < n,
                    1 <= e <= path@.len(),
                    digits_value(mult@) == path_product(g, path@, e as int),
                    !zero ==> path_product(g, path@, e as int) > 0,
                decreases path@.len() - e,
            {
                let c = g.count(path[e], path[e - 1]);
                if c == 0 {
                    zero = true;
                }
                proof {
                    let pp = path_product(g, path@, e as int);
                    assert(path_product(g, path@, e + 1) == pp * c);
                    if !zero {
                        assert(pp * c > 0) by (nonlinear_arith)
                            requires
                                pp > 0,
                                c > 0,
                        ;
                    }
                }
                mult = digits_mul(&mult, c);
                e = e + 1;
            }
            if !zero {
                let u = path[0];
                let v = path[path.len() - 1];
                proof {
                    lemma_pair_index(n as int, u.0 as int, v.0 as int);
                }
                let cnt = candidates[(u.0 as usize) * (n as usize) + (v.0 as usize)];
                if cnt > 0 {
                    let ghost pp = digits_value(mult@);
                    mult = digits_mul(&mult, cnt);
                    let ghost before = result@;
                    result.push((path.len() as u32, mult));
                    proof {
                        assert(pp * cnt > 0) by (nonlinear_arith)
                            requires
                                pp > 0,
                                cnt > 0,
                        ;
                        let len = path@.len() as int;
                        assert(candidates@[u.0 * n + v.0] == failed_binary(choices@, u.0 as int, v.0 as int, choices@.len() as int));
                        assert(path@[0] == u && path@[len - 1] == v);
                        assert(intransitivity(g, choices@, n as int, len, digits_value(mult@))) by {
                            assert(path@.len() == len);
                        }
                        assert forall|k: int| 0 <= k < result@.len() implies intransitivity(g, choices@, n as int, (#[trigger] result@[k]).0 as int, digits_value(result@[k].1@)) by {
                            if k < before.len() {
                                assert(result@[k] == before[k]);
                            }
                        }
                    }
                }
            }
        }
        p = p + 1;
    }
    result
}

/// A path of distinct alternatives below `n` has at most `n` vertices.
proof fn lemma_simple_path_len(path: Seq<Alt>, n: int)
    requires
        0 <= n,
        path.no_duplicates(),
        forall|j: int| 0 <= j < path.len() ==> (#[trigger] path[j]).0 < n,
    ensures
        path.len() <= n,
{
    let t = path.map_values(|a: Alt| a.0 as int);
    assert(t.no_duplicates()) by {
        assert forall|a: int, b: int| 0 <= a < t.len() && 0 <= b < t.len() && a != b implies t[a] != t[b] by {
            assert(path[a] != path[b]);
        }
    }
    t.unique_seq_to_set();
    assert forall|x: int| t.to_set().contains(x) implies 0 <= x < n by {
        let k = choose|k: int| 0 <= k < t.len() && t[k] == x;
        assert(t[k] == path[k].0 as int);
    }
    vstd::set_lib::lemma_int_range(0, n);
    assert(t.to_set().subset_of(vstd::set_lib::set_int_range(0, n)));
    vstd::set_lib::lemma_len_subset(t.to_set(), vstd::set_lib::set_int_range(0, n));
}

/// The unordered pairs of observations `(f, b)` such that `f` gives a strict edge `v → w`
/// and `b` a non-strict edge `w → v`, for distinct `v`, `w`; each pair once, as
/// `(smaller, larger)`.
fn warp_pair_list(alt_count: u32, g_strict: &Multigraph, g_non_strict: &Multigraph) -> (r: Vec<(u32, u32)>)
    requires
        g_strict.wf(),
        g_non_strict.wf(),
        g_strict.n() == alt_count,
        g_non_strict.n() == alt_count,
    ensures
        r@.no_duplicates(),
        forall|k: int| 0 <= k < r@.len() ==> (#[trigger] r@[k]).0 <= r@[k].1,
{
    let mut pairs: Vec<(u32, u32)> = Vec::new();
    let mut v: u32 = 0;
    while v < alt_count
        invariant
            g_strict.wf(),
            g_non_strict.wf(),
            g_strict.n() == alt_count,
            g_non_strict.n() == alt_count,
            v <= alt_count,
            pairs@.no_duplicates(),
            forall|k: int| 0 <= k < pairs@.len() ==> (#[trigger] pairs@[k]).0 <= pairs@[k].1,
        decreases alt_count - v,
    {
        let mut w: u32 = 0;
        while w < alt_count
            invariant
                g_strict.wf(),
                g_non_strict.wf(),
                g_strict.n() == alt_count,
                g_non_strict.n() == alt_count,
                v < alt_count,
                w <= alt_count,
                pairs@.no_duplicates(),
                forall|k: int| 0 <= k < pairs@.len() ==> (#[trigger] pairs@[k]).0 <= pairs@[k].1,
            decreases alt_count - w,
        {
            if v != w {
                let forth = g_strict.edge_list(Alt(v), Alt(w));
                let back = g_non_strict.edge_list(Alt(w), Alt(v));
                let mut a: usize = 0;
                while a < forth.len()
                    invariant
                        a <= forth@.len(),
                        pairs@.no_duplicates(),
                        forall|k: int| 0 <= k < pairs@.len() ==> (#[trigger] pairs@[k]).0 <= pairs@[k].1,
                    decreases forth@.len() - a,
                {
                    let mut b: usize = 0;
                    while b < back.len()
                        invariant
                            a < forth@.len(),
                            b <= back@.len(),
                            pairs@.no_duplicates(),
                            forall|k: int| 0 <= k < pairs@.len() ==> (#[trigger] pairs@[k]).0 <= pairs@[k].1,
                        decreases back@.len() - b,
                    {
                        let f = forth[a];
                        let bk = back[b];
                        let p = if f < bk { (f, bk) } else { (bk, f) };
                        let mut seen = false;
                        let mut k: usize = 0;
                        while k < pairs.len()
                            invariant
                                k <= pairs@.len(),
                                !seen ==> forall|j: int| 0 <= j < k ==> pairs@[j] != p,
                            decreases pairs@.len() - k,
                        {
                            if pairs[k].0 == p.0 && pairs[k].1 == p.1 {
                                seen = true;
                            }
                            k = k + 1;
                        }
                        if !seen {
                            let ghost before = pairs@;
                            pairs.push(p);
                            proof {
                                assert forall|x: int, y: int| 0 <= x < pairs@.len() && 0 <= y < pairs@.len() && x != y implies pairs@[x] != pairs@[y] by {
                                    if x == before.len() {
                                        assert(pairs@[y] == before[y]);
                                    } else if y == before.len() {
                                        assert(pairs@[x] == before[x]);
                                    }
                                }
                            }
                        }
                        b = b + 1;
                    }
                    a = a + 1;
                }
            }
            w = w + 1;
        }
        v = v + 1;
    }
    pairs
}

impl Multigraph {
    /// The observations that give the edge `i → j`.
    pub fn edge_list(&self, i: Alt, j: Alt) -> (r: &Vec<u32>)
        requires
            self.wf(),
            i.0 < self.n(),
            j.0 < self.n(),
        ensures
            r@ == self.row(i.0 as int, j.0 as int),
    {
        proof {
            lemma_pair_index(self.vertices as int, i.0 as int, j.0 as int);
        }
        let idx = (i.0 as usize) * (self.vertices as usize) + (j.0 as usize);
        &self.edges[idx]
    }
}

/// Why a subject's consistency could not be analysed.
#[derive(Clone, Copy, PartialEq, Eq, Structural, Debug)]
pub enum Error {
    TooManyTuples,
    RepeatedMenus,
}

/// The analysis of one subject.
#[derive(Clone, Debug)]
pub struct Response {
    pub subject_name: String,
    pub rows: Vec<Row>,
    pub warp_pairs: u32,
    pub warp: Vec<u32>,
    pub contraction_consistency_pairs: u32,
    pub contraction_consistency_all: u32,
}

/// The observations with a menu of two alternatives, in order.
fn binary_rows(choices: &[ChoiceRow], Ghost(n): Ghost<int>) -> (r: Vec<ChoiceRow>)
    requires
        rows_below(choices@, n),
    ensures
        r@.len() <= choices@.len(),
        rows_below(r@, n),
        forall|k: int| 0 <= k < r@.len() ==> (#[trigger] r@[k]).menu.alts().len() == 2,
{
    let mut r: Vec<ChoiceRow> = Vec::new();
    let mut k: usize = 0;
    while k < choices.len()
        invariant
            k <= choices@.len(),
            r@.len() <= k,
            rows_below(choices@, n),
            rows_below(r@, n),
            forall|j: int| 0 <= j < r@.len() ==> (#[trigger] r@[j]).menu.alts().len() == 2,
        decreases choices@.len() - k,
    {
        if choices[k].menu.size() == 2 {
            let cr = ChoiceRow { menu: choices[k].menu.clone(), default: choices[k].default, choice: choices[k].choice.clone() };
            let ghost before = r@;
            r.push(cr);
            proof {
                assert forall|j: int| 0 <= j < r@.len() implies (#[trigger] r@[j]).menu.alts().subset_of(alts_below(n))
                    && r@[j].choice.alts().subset_of(alts_below(n)) by {
                    if j < before.len() {
                        assert(r@[j] == before[j]);
                    } else {
                        assert(choices@[k as int].menu.alts().subset_of(alts_below(n)));
                    }
                }
                assert forall|j: int| 0 <= j < r@.len() implies (#[trigger] r@[j]).menu.alts().len() == 2 by {
                    if j < before.len() {
                        assert(r@[j] == before[j]);
                    }
                }
            }
        }
        k = k + 1;
    }
    r
}

/// The request: a subject, and whether repeated menus are allowed.
pub struct Request {
    pub subject: Subject,
    pub allow_repeated_menus: bool,
}

/// Adds, for each cycle, its multiplicity (strict, or GARP when `strict` is given as the
/// strict graph of the pair) to the rows.
fn summarise_cycles(
    rows: &mut Vec<Row>,
    cycles: &Vec<Cycle>,
    g_strict: &Multigraph,
    g_non_strict: &Multigraph,
    garp: bool,
    column: Column,
)
    requires
        rows_sorted(old(rows)@),
        nested(g_strict, g_non_strict),
        garp ==> cycles_of(g_non_strict, cycles@),
        !garp ==> cycles_of(g_strict, cycles@),
    ensures
        rows_sorted(final(rows)@),
{
    let mut k: usize = 0;
    while k < cycles.len()
        invariant
            k <= cycles@.len(),
            rows_sorted(rows@),
            nested(g_strict, g_non_strict),
            garp ==> cycles_of(g_non_strict, cycles@),
            !garp ==> cycles_of(g_strict, cycles@),
        decreases cycles@.len() - k,
    {
        let c = &cycles[k];
        let m = if garp {
            c.garp_multiplicity_in(g_strict, g_non_strict)
        } else {
            c.multiplicity_in(g_strict)
        };
        proof {
            let g = if garp { g_non_strict } else { g_strict };
            assert(is_cycle(g, c.verts()));
            lemma_simple_path_len(c.verts(), g.n());
        }
        let len = c.len();
        let col = match column {
            Column::Garp => Column::Garp,
            Column::Sarp => Column::Sarp,
            Column::GarpBinaryMenus => Column::GarpBinaryMenus,
            Column::SarpBinaryMenus => Column::SarpBinaryMenus,
            Column::BinaryIntransitivities => Column::BinaryIntransitivities,
        };
        add_to_row(rows, len, col, &m);
        k = k + 1;
    }
}

/// Counts the GARP, SARP and WARP violations, contraction-consistency violations and
/// binary intransitivities of a subject, by cycle length.
pub fn run(request: &Request) -> (r: Result<Response, Error>)
    requires
        request.subject.alternatives@.len() <= MAX_VERTICES,
        request.subject.choices@.len() <= u32::MAX,
        rows_below(request.subject.choices@, request.subject.alternatives@.len() as int),
        contraction_totals(request.subject.choices@, request.subject.choices@.len() as int).0 <= u32::MAX,
        contraction_totals(request.subject.choices@, request.subject.choices@.len() as int).1 <= u32::MAX,
    ensures
        r is Err <==> !request.allow_repeated_menus && repeated_menus(request.subject.choices@),
        r matches Err(e) ==> e == Error::RepeatedMenus,
        r matches Ok(resp) ==> resp.subject_name@ == request.subject.name@
            && rows_sorted(resp.rows@)
            && resp.contraction_consistency_all == contraction_totals(request.subject.choices@, request.subject.choices@.len() as int).0
            && resp.contraction_consistency_pairs == contraction_totals(request.subject.choices@, request.subject.choices@.len() as int).1,
{
    let subject = &request.subject;
    let alt_count = subject.alternatives.len() as u32;
    let choices = subject.choices.as_slice();
    if !request.allow_repeated_menus && has_repeated_menus(choices) {
        return Err(Error::RepeatedMenus);
    }
    let (g_strict, g_non_strict) = build_graphs(alt_count, choices);
    proof {
        lemma_build_nested(&g_strict, &g_non_strict, choices@, alt_count as int);
    }
    let cycles_non_strict = find_cycles(&g_non_strict);
    let cycles_strict = find_cycles(&g_strict);
    let mut rows: Vec<Row> = Vec::new();
    summarise_cycles(&mut rows, &cycles_strict, &g_strict, &g_non_strict, false, Column::Sarp);
    let mut warp: Vec<u32> = Vec::new();
    let mut k: usize = 0;
    while k < cycles_non_strict.len()
        invariant
            k <= cycles_non_strict@.len(),
            nested(&g_strict, &g_non_strict),
            cycles_of(&g_non_strict, cycles_non_strict@),
        decreases cycles_non_strict@.len() - k,
    {
        let c = &cycles_non_strict[k];
        if c.vertices().len() == 2 {
            let m = c.garp_multiplicity_in(&g_strict, &g_non_strict);
            warp = digits_add(&warp, &m);
        }
        k = k + 1;
    }
    summarise_cycles(&mut rows, &cycles_non_strict, &g_strict, &g_non_strict, true, Column::Garp);
    let warp_pairs = warp_pair_list(alt_count, &g_strict, &g_non_strict).len() as u32;
    let (contraction_consistency_all, contraction_consistency_pairs) = contraction_consistency(choices);
    let choices_binary = binary_rows(choices, Ghost(alt_count as int));
    let (g_strict_binary, g_non_strict_binary) = build_graphs(alt_count, choices_binary.as_slice());
    proof {
        lemma_build_nested(&g_strict_binary, &g_non_strict_binary, choices_binary@, alt_count as int);
    }
    let cycles_strict_binary = find_cycles(&g_strict_binary);
    let cycles_non_strict_binary = find_cycles(&g_non_strict_binary);
    summarise_cycles(&mut rows, &cycles_non_strict_binary, &g_strict_binary, &g_non_strict_binary, true, Column::GarpBinaryMenus);
    summarise_cycles(&mut rows, &cycles_strict_binary, &g_strict_binary, &g_non_strict_binary, false, Column::SarpBinaryMenus);
    let intrans = binary_intransitivities(alt_count, &g_non_strict_binary, choices);
    let mut k: usize = 0;
    while k < intrans.len()
        invariant
            k <= intrans@.len(),
            rows_sorted(rows@),
        decreases intrans@.len() - k,
    {
        let (len, m) = (intrans[k].0, &intrans[k].1);
        add_to_row(&mut rows, len, Column::BinaryIntransitivities, m);
        k = k + 1;
    }
    Ok(Response {
        subject_name: subject.name.clone(),
        rows,
        warp_pairs,
        warp,
        contraction_consistency_pairs,
        contraction_consistency_all,
    })
}

/// The longest cycle whose instantiations are enumerated.
pub const MAX_TUPLE_CYCLE: u32 = 24;

/// Tuples of menus that together form an inconsistency, of one size.
#[derive(Clone, Debug)]
pub struct RowMenus {
    pub tuple_size: u32,
    pub garp_menu_tuples: Vec<Vec<AltSet>>,
}

/// Sets of alternatives involved in an inconsistency, of one size.
#[derive(Clone, Debug)]
pub struct RowAlts {
    pub tuple_size: u32,
    pub garp_alt_tuples: Vec<AltSet>,
}

/// Tuples of one subject, by size.
#[derive(Clone, Debug)]
pub struct TupleResponse<R> {
    pub subject_name: String,
    pub rows: Vec<R>,
}

/// Whether `v` holds a set equal to `s`.
fn contains_set(v: &Vec<AltSet>, s: &AltSet) -> (r: bool)
    ensures
        r == exists|k: int| 0 <= k < v@.len() && (#[trigger] v@[k]).alts() == s.alts(),
{
    let mut k: usize = 0;
    while k < v.len()
        invariant
            k <= v@.len(),
            forall|j: int| 0 <= j < k ==> (#[trigger] v@[j]).alts() != s.alts(),
        decreases v@.len() - k,
    {
        if v[k] == *s {
            return true;
        }
        k = k + 1;
    }
    false
}

/// The distinct sets of observations that instantiate the cycle: one observation giving
/// each of its non-strict edges.
fn instantiations(cycle: &Cycle, g: &Multigraph) -> (r: Vec<AltSet>)
    requires
        g.wf(),
        is_cycle(g, cycle.verts()),
{
    let es = edges_of(cycle.vertices());
    let mut paths: Vec<AltSet> = Vec::new();
    paths.push(AltSet::empty());
    let mut e: usize = 0;
    while e < es.len()
        invariant
            g.wf(),
            is_cycle(g, cycle.verts()),
            es@ == cycle_edges(cycle.verts()),
            e <= es@.len(),
        decreases es@.len() - e,
    {
        let (u, v) = es[e];
        proof {
            let vs = cycle.verts();
            if e == 0 {
                assert(es@[0] == (vs[vs.len() - 1], vs[0]));
            } else {
                assert(es@[e as int] == (vs[e - 1], vs[e as int]));
            }
        }
        let rows = g.edge_list(u, v);
        let mut extended: Vec<AltSet> = Vec::new();
        let mut p: usize = 0;
        while p < paths.len()
            invariant
                p <= paths@.len(),
            decreases paths@.len() - p,
        {
            let mut q: usize = 0;
            while q < rows.len()
                invariant
                    q <= rows@.len(),
                    p < paths@.len(),
                decreases rows@.len() - q,
            {
                if rows[q] < 0x8000_0000 {
                    let mut s = paths[p].clone();
                    let single = AltSet::singleton(Alt(rows[q]));
                    s.union_with(single.view());
                    if !contains_set(&extended, &s) {
                        extended.push(s);
                    }
                }
                q = q + 1;
            }
            p = p + 1;
        }
        paths = extended;
        e = e + 1;
    }
    paths
}

/// Whether some edge of the cycle is strict.
fn has_strict_edge(cycle: &Cycle, g_strict: &Multigraph) -> (r: bool)
    requires
        g_strict.wf(),
        forall|k: int| 0 <= k < cycle.verts().len() ==> (#[trigger] cycle.verts()[k]).0 < g_strict.n(),
        cycle.verts().len() > 0,
{
    let es = edges_of(cycle.vertices());
    let mut e: usize = 0;
    while e < es.len()
        invariant
            g_strict.wf(),
            forall|k: int| 0 <= k < cycle.verts().len() ==> (#[trigger] cycle.verts()[k]).0 < g_strict.n(),
            es@ == cycle_edges(cycle.verts()),
            e <= es@.len(),
        decreases es@.len() - e,
    {
        let (u, v) = es[e];
        proof {
            let vs = cycle.verts();
            if e == 0 {
                assert(es@[0] == (vs[vs.len() - 1], vs[0]));
            } else {
                assert(es@[e as int] == (vs[e - 1], vs[e as int]));
            }
        }
        if g_strict.has_edge(u, v) {
            return true;
        }
        e = e + 1;
    }
    false
}

/// The position of the first observation with the same menu as observation `k`.
fn first_with_menu(choices: &[ChoiceRow], k: usize) -> (r: u32)
    requires
        k < choices@.len() <= 0x8000_0000,
    ensures
        r <= k,
{
    let mut j: usize = 0;
    while j < k
        invariant
            j <= k,
            k < choices@.len(),
        decreases k - j,
    {
        if choices[j].menu == choices[k].menu {
            return j as u32;
        }
        j = j + 1;
    }
    k as u32
}

/// The cycles of the non-strict graph with a strict edge, as instantiations: by the sets
/// of observations when `by_menus`, else by their sets of alternatives. `None` when such a
/// cycle is longer than `MAX_TUPLE_CYCLE`.
fn tuples(request: &Request, by_menus: bool) -> (r: Option<(Vec<(u32, AltSet)>)>)
    requires
        request.subject.alternatives@.len() <= MAX_VERTICES,
        request.subject.choices@.len() <= 0x8000_0000,
{
    let subject = &request.subject;
    let alt_count = subject.alternatives.len() as u32;
    let choices = subject.choices.as_slice();
    let (g_strict, g_non_strict) = build_graphs(alt_count, choices);
    proof {
        lemma_build_nested(&g_strict, &g_non_strict, choices@, alt_count as int);
    }
    let cycles = find_cycles(&g_non_strict);
    let mut out: Vec<(u32, AltSet)> = Vec::new();
    let mut c: usize = 0;
    while c < cycles.len()
        invariant
            nested(&g_strict, &g_non_strict),
            cycles_of(&g_non_strict, cycles@),
            g_strict.n() == alt_count,
            choices@.len() <= 0x8000_0000,
            c <= cycles@.len(),
        decreases cycles@.len() - c,
    {
        let cycle = &cycles[c];
        proof {
            assert(is_cycle(&g_non_strict, cycle.verts()));
            lemma_simple_path_len(cycle.verts(), g_non_strict.n());
        }
        if has_strict_edge(cycle, &g_strict) {
            if cycle.len() > MAX_TUPLE_CYCLE {
                return None;
            }
            let insts = instantiations(cycle, &g_non_strict);
            let vs = cycle.vertices();
            proof {
                assert forall|q: int| 0 <= q < vs@.len() implies (#[trigger] vs@[q]).0 < MAX_BLOCKS * 32 by {
                    assert(vs@[q].0 < g_non_strict.n());
                }
            }
            let cycle_alts = AltSet::from_alts(vs.as_slice());
            let mut k: usize = 0;
            while k < insts.len()
                invariant
                    k <= insts@.len(),
                    choices@.len() <= 0x8000_0000,
                decreases insts@.len() - k,
            {
                let inst = &insts[k];
                let size = inst.size();
                if by_menus {
                    // one representative observation per distinct menu
                    let rows = inst.view().iter();
                    let mut canon = AltSet::empty();
                    let mut j: usize = 0;
                    while j < rows.len()
                        invariant
                            j <= rows@.len(),
                            choices@.len() <= 0x8000_0000,
                        decreases rows@.len() - j,
                    {
                        let idx = rows[j].0 as usize;
                        if idx < choices.len() {
                            let first = first_with_menu(choices, idx);
                            let single = AltSet::singleton(Alt(first));
                            canon.union_with(single.view());
                        }
                        j = j + 1;
                    }
                    out.push((size, canon));
                } else {
                    out.push((size, cycle_alts.clone()));
                }
                k = k + 1;
            }
        }
        c = c + 1;
    }
    Some(out)
}

/// Groups `(size, set)` items into rows by size, ascending, each set once per row.
fn group_by_size(items: &Vec<(u32, AltSet)>) -> (r: Vec<(u32, Vec<AltSet>)>)
    ensures
        forall|a: int, b: int| 0 <= a < b < r@.len() ==> (#[trigger] r@[a]).0 < (#[trigger] r@[b]).0,
{
    let mut rows: Vec<(u32, Vec<AltSet>)> = Vec::new();
    let mut k: usize = 0;
    while k < items.len()
        invariant
            k <= items@.len(),
            forall|a: int, b: int| 0 <= a < b < rows@.len() ==> (#[trigger] rows@[a]).0 < (#[trigger] rows@[b]).0,
        decreases items@.len() - k,
    {
        let size = items[k].0;
        let mut pos: usize = 0;
        while pos < rows.len() && rows[pos].0 < size
            invariant
                pos <= rows@.len(),
                forall|a: int, b: int| 0 <= a < b < rows@.len() ==> (#[trigger] rows@[a]).0 < (#[trigger] rows@[b]).0,
                forall|a: int| 0 <= a < pos ==> (#[trigger] rows@[a]).0 < size,
            decreases rows@.len() - pos,
        {
            pos = pos + 1;
        }
        if pos < rows.len() && rows[pos].0 == size {
            let (s, mut sets) = (rows[pos].0, clone_sets(&rows[pos].1));
            if !contains_set(&sets, &items[k].1) {
                sets.push(items[k].1.clone());
            }
            let ghost before = rows@;
            rows.set(pos, (s, sets));
            proof {
                assert forall|a: int, b: int| 0 <= a < b < rows@.len() implies (#[trigger] rows@[a]).0 < (#[trigger] rows@[b]).0 by {
                    assert(rows@[a].0 == before[a].0);
                    assert(rows@[b].0 == before[b].0);
                }
            }
        } else {
            let mut sets: Vec<AltSet> = Vec::new();
            sets.push(items[k].1.clone());
            let ghost before = rows@;
            rows.insert(pos, (size, sets));
            proof {
                assert forall|a: int, b: int| 0 <= a < b < rows@.len() implies (#[trigger] rows@[a]).0 < (#[trigger] rows@[b]).0 by {
                    if b < pos {
                        assert(rows@[a] == before[a]);
                        assert(rows@[b] == before[b]);
                    } else if b == pos {
                        assert(rows@[a] == before[a]);
                    } else if a < pos {
                        assert(rows@[a] == before[a]);
                        assert(rows@[b] == before[b - 1]);
                    } else if a == pos {
                        assert(rows@[b] == before[b - 1]);
                        if pos < before.len() {
                            assert(before[pos as int].0 > size);
                            if b - 1 > pos {
                                assert(before[pos as int].0 < before[b - 1].0);
                            }
                        }
                    } else {
                        assert(rows@[a] == before[a - 1]);
                        assert(rows@[b] == before[b - 1]);
                    }
                }
            }
        }
        k = k + 1;
    }
    rows
}

/// A copy of each set.
fn clone_sets(v: &Vec<AltSet>) -> (r: Vec<AltSet>)
    ensures
        r@.len() == v@.len(),
{
    let mut r: Vec<AltSet> = Vec::new();
    let mut k: usize = 0;
    while k < v.len()
        invariant
            k <= v@.len(),
            r@.len() == k,
        decreases v@.len() - k,
    {
        r.push(v[k].clone());
        k = k + 1;
    }
    r
}

/// The menu tuples of the GARP cycles, by the number of observations that instantiate
/// them; each tuple lists the distinct menus, in the order of their first observation.
pub fn run_menus(request: &Request) -> (r: Result<TupleResponse<RowMenus>, Error>)
    requires
        request.subject.alternatives@.len() <= MAX_VERTICES,
        request.subject.choices@.len() <= 0x8000_0000,
    ensures
        r matches Ok(resp) ==> forall|a: int, b: int| 0 <= a < b < resp.rows@.len() ==> (#[trigger] resp.rows@[a]).tuple_size < (#[trigger] resp.rows@[b]).tuple_size,
        r matches Err(e) ==> e == Error::TooManyTuples,
{
    let items = match tuples(request, true) {
        Some(items) => items,
        None => {
            return Err(Error::TooManyTuples);
        },
    };
    let grouped = group_by_size(&items);
    let choices = request.subject.choices.as_slice();
    let mut rows: Vec<RowMenus> = Vec::new();
    let mut k: usize = 0;
    while k < grouped.len()
        invariant
            k <= grouped@.len(),
            rows@.len() <= k,
            forall|a: int, b: int| 0 <= a < b < grouped@.len() ==> (#[trigger] grouped@[a]).0 < (#[trigger] grouped@[b]).0,
            forall|j: int| 0 <= j < rows@.len() ==> exists|g: int| 0 <= g < k && (#[trigger] rows@[j]).tuple_size == grouped@[g].0,
            forall|a: int, b: int| 0 <= a < b < rows@.len() ==> (#[trigger] rows@[a]).tuple_size < (#[trigger] rows@[b]).tuple_size,
            forall|j: int| 0 <= j < rows@.len() ==> (#[trigger] rows@[j]).tuple_size > 0,
        decreases grouped@.len() - k,
    {
        let (size, sets) = (grouped[k].0, &grouped[k].1);
        if size > 0 {
            let mut tuples_out: Vec<Vec<AltSet>> = Vec::new();
            let mut t: usize = 0;
            while t < sets.len()
                invariant
                    t <= sets@.len(),
                decreases sets@.len() - t,
            {
                let idxs = sets[t].view().iter();
                let mut menus: Vec<AltSet> = Vec::new();
                let mut j: usize = 0;
                while j < idxs.len()
                    invariant
                        j <= idxs@.len(),
                    decreases idxs@.len() - j,
                {
                    let idx = idxs[j].0 as usize;
                    if idx < choices.len() {
                        menus.push(choices[idx].menu.clone());
                    }
                    j = j + 1;
                }
                tuples_out.push(menus);
                t = t + 1;
            }
            let ghost before = rows@;
            rows.push(RowMenus { tuple_size: size, garp_menu_tuples: tuples_out });
            proof {
                assert forall|a: int, b: int| 0 <= a < b < rows@.len() implies (#[trigger] rows@[a]).tuple_size < (#[trigger] rows@[b]).tuple_size by {
                    if b == before.len() {
                        assert(rows@[a] == before[a]);
                        let g = choose|g: int| 0 <= g < k && (#[trigger] before[a]).tuple_size == grouped@[g].0;
                    } else {
                        assert(rows@[a] == before[a]);
                        assert(rows@[b] == before[b]);
                    }
                }
                assert forall|j: int| 0 <= j < rows@.len() implies exists|g: int| 0 <= g < k + 1 && (#[trigger] rows@[j]).tuple_size == grouped@[g].0 by {
                    if j < before.len() {
                        assert(rows@[j] == before[j]);
                        let g = choose|g: int| 0 <= g < k && (#[trigger] before[j]).tuple_size == grouped@[g].0;
                    } else {
                        assert(rows@[j].tuple_size == grouped@[k as int].0);
                    }
                }
                assert forall|j: int| 0 <= j < rows@.len() implies (#[trigger] rows@[j]).tuple_size > 0 by {
                    if j < before.len() {
                        assert(rows@[j] == before[j]);
                    }
                }
            }
        }
        k = k + 1;
    }
    Ok(TupleResponse { subject_name: request.subject.name.clone(), rows })
}

/// The sets of alternatives of the GARP cycles, by their number of alternatives.
pub fn run_alts(request: &Request) -> (r: Result<TupleResponse<RowAlts>, Error>)
    requires
        request.subject.alternatives@.len() <= MAX_VERTICES,
        request.subject.choices@.len() <= 0x8000_0000,
    ensures
        r matches Ok(resp) ==> forall|a: int, b: int| 0 <= a < b < resp.rows@.len() ==> (#[trigger] resp.rows@[a]).tuple_size < (#[trigger] resp.rows@[b]).tuple_size,
        r matches Err(e) ==> e == Error::TooManyTuples,
{
    let items = match tuples(request, false) {
        Some(items) => items,
        None => {
            return Err(Error::TooManyTuples);
        },
    };
    let mut keyed: Vec<(u32, AltSet)> = Vec::new();
    let mut k: usize = 0;
    while k < items.len()
        invariant
            k <= items@.len(),
        decreases items@.len() - k,
    {
        let s = items[k].1.clone();
        keyed.push((s.size(), s));
        k = k + 1;
    }
    let grouped = group_by_size(&keyed);
    let mut rows: Vec<RowAlts> = Vec::new();
    let mut k: usize = 0;
    while k < grouped.len()
        invariant
            k <= grouped@.len(),
            rows@.len() == k,
            forall|a: int, b: int| 0 <= a < b < grouped@.len() ==> (#[trigger] grouped@[a]).0 < (#[trigger] grouped@[b]).0,
            forall|j: int| 0 <= j < k ==> (#[trigger] rows@[j]).tuple_size == grouped@[j].0,
        decreases grouped@.len() - k,
    {
        rows.push(RowAlts { tuple_size: grouped[k].0, garp_alt_tuples: clone_sets(&grouped[k].1) });
        k = k + 1;
    }
    proof {
        assert forall|a: int, b: int| 0 <= a < b < rows@.len() implies (#[trigger] rows@[a]).tuple_size < (#[trigger] rows@[b]).tuple_size by {
            assert(rows@[a].tuple_size == grouped@[a].0);
            assert(rows@[b].tuple_size == grouped@[b].0);
        }
    }
    Ok(TupleResponse { subject_name: request.subject.name.clone(), rows })
}

/// Lower and upper bounds on a quantity.
#[derive(Clone, Copy, PartialEq, Eq, Structural, Debug)]
pub struct BoundEstimate {
    pub lower: u64,
    pub upper: u64,
}

/// Whether the two sets share an element.
fn intersects(a: &AltSet, b: &AltSet) -> (r: bool)
    ensures
        r == !a.alts().disjoint(b.alts()),
{
    let mut both = a.clone();
    both.intersect_with(b.view());
    let r = both.view().is_nonempty();
    proof {
        if r {
            if !(exists|x: Alt| both.alts().contains(x)) {
                assert(both.alts() =~= Set::<Alt>::empty());
            }
            let x = choose|x: Alt| both.alts().contains(x);
            assert(a.alts().contains(x) && b.alts().contains(x));
        } else {
            assert forall|x: Alt| a.alts().contains(x) implies !b.alts().contains(x) by {
                if b.alts().contains(x) {
                    assert(both.alts().contains(x));
                }
            }
        }
    }
    r
}

/// The vertices of cycle `c`.
pub open spec fn cycle_vertices(cycles: Seq<Cycle>, c: int) -> Set<Alt> {
    cycles[c].verts().to_set()
}

/// Some component holds all of `s`.
pub open spec fn within_one(comps: Seq<AltSet>, s: Set<Alt>) -> bool {
    exists|j: int| 0 <= j < comps.len() && s.subset_of(#[trigger] comps[j].alts())
}

/// `a` is a vertex of some cycle.
pub open spec fn on_cycle(cycles: Seq<Cycle>, a: Alt) -> bool {
    exists|c: int| 0 <= c < cycles.len() && #[trigger] cycle_vertices(cycles, c).contains(a)
}

/// `comps` are components of `cycles`: each cycle lies within one, and they hold only
/// vertices of cycles.
pub open spec fn components_of(cycles: Seq<Cycle>, comps: Seq<AltSet>) -> bool {
    &&& forall|c: int| 0 <= c < cycles.len() ==> within_one(comps, #[trigger] cycle_vertices(cycles, c))
    &&& forall|j: int, a: Alt| 0 <= j < comps.len() && #[trigger] comps[j].alts().contains(a) ==> on_cycle(cycles, a)
}

/// The vertex sets of the connected components of the cycles: cycles that share a vertex
/// are in one component.
pub fn connected_components(cycles: &Vec<Cycle>, g: &Multigraph) -> (r: Vec<AltSet>)
    requires
        g.wf(),
        cycles_of(g, cycles@),
    ensures
        r@.len() <= cycles@.len(),
        cycles@.len() > 0 ==> r@.len() > 0,
        forall|a: int, b: int| 0 <= a < r@.len() && 0 <= b < r@.len() && a != b ==> (#[trigger] r@[a]).alts().disjoint((#[trigger] r@[b]).alts()),
        components_of(cycles@, r@),
{
    let mut components: Vec<AltSet> = Vec::new();
    let mut k: usize = 0;
    while k < cycles.len()
        invariant
            g.wf(),
            cycles_of(g, cycles@),
            k <= cycles@.len(),
            components@.len() == k,
            forall|j: int| 0 <= j < k ==> (#[trigger] components@[j]).alts() == cycle_vertices(cycles@, j),
        decreases cycles@.len() - k,
    {
        let vs = cycles[k].vertices();
        proof {
            assert(is_cycle(g, cycles@[k as int].verts()));
            assert forall|q: int| 0 <= q < vs@.len() implies (#[trigger] vs@[q]).0 < MAX_BLOCKS * 32 by {
                assert(vs@[q].0 < g.n());
            }
        }
        let ghost before = components@;
        components.push(AltSet::from_alts(vs.as_slice()));
        proof {
            assert forall|j: int| 0 <= j < k + 1 implies (#[trigger] components@[j]).alts() == cycle_vertices(cycles@, j) by {
                if j < k {
                    assert(components@[j] == before[j]);
                }
            }
        }
        k = k + 1;
    }
    proof {
        assert forall|c: int| 0 <= c < cycles@.len() implies within_one(components@, #[trigger] cycle_vertices(cycles@, c)) by {
            assert(components@[c].alts() == cycle_vertices(cycles@, c));
        }
        assert forall|j: int, a: Alt| 0 <= j < components@.len() && #[trigger] components@[j].alts().contains(a) implies on_cycle(cycles@, a) by {
            assert(components@[j].alts() == cycle_vertices(cycles@, j));
        }
    }
    // merge two intersecting components until no two intersect
    loop
        invariant
            components@.len() <= cycles@.len(),
            cycles@.len() > 0 ==> components@.len() > 0,
            components_of(cycles@, components@),
        decreases components@.len(),
    {
        let mut pair: Option<(usize, usize)> = None;
        let mut i: usize = 0;
        while i < components.len()
            invariant
                i <= components@.len(),
                pair matches Some(p) ==> p.0 < p.1 < components@.len(),
                pair is None ==> forall|a: int, b: int| 0 <= a < i && 0 <= b < components@.len() && a != b ==> (#[trigger] components@[a]).alts().disjoint((#[trigger] components@[b]).alts()),
            decreases components@.len() - i,
        {
            if pair.is_none() {
                let mut j: usize = 0;
                while j < components.len()
                    invariant
                        i < components@.len(),
                        j <= components@.len(),
                        pair matches Some(p) ==> p.0 < p.1 < components@.len(),
                        pair is None ==> forall|a: int, b: int| 0 <= a < i && 0 <= b < components@.len() && a != b ==> (#[trigger] components@[a]).alts().disjoint((#[trigger] components@[b]).alts()),
                        pair is None ==> forall|b: int| 0 <= b < j && b != i ==> components@[i as int].alts().disjoint((#[trigger] components@[b]).alts()),
                    decreases components@.len() - j,
                {
                    if pair.is_none() && j != i && intersects(&components[i], &components[j]) {
                        pair = if i < j { Some((i, j)) } else { Some((j, i)) };
                    }
                    j = j + 1;
                }
                proof {
                    if pair is None {
                        assert forall|a: int, b: int| 0 <= a < i + 1 && 0 <= b < components@.len() && a != b implies (#[trigger] components@[a]).alts().disjoint((#[trigger] components@[b]).alts()) by {
                            if a == i {
                                assert(components@[i as int].alts().disjoint(components@[b].alts()));
                            }
                        }
                    }
                }
            }
            i = i + 1;
        }
        match pair {
            None => {
                return components;
            },
            Some((a, b)) => {
                let ghost before = components@;
                let cb = components.remove(b);
                let mut merged = components[a].clone();
                merged.union_with(cb.view());
                components.set(a, merged);
                proof {
                    // index `j` of `before` is now at `at(j)`
                    assert forall|c: int| 0 <= c < cycles@.len() implies within_one(components@, #[trigger] cycle_vertices(cycles@, c)) by {
                        let j = choose|j: int| 0 <= j < before.len() && cycle_vertices(cycles@, c).subset_of(#[trigger] before[j].alts());
                        let at = if j == b { a as int } else if j < b { j } else { j - 1 };
                        if j != a && j != b {
                            assert(components@[at] == before[j]);
                        }
                        assert(cycle_vertices(cycles@, c).subset_of(components@[at].alts()));
                    }
                    assert forall|j: int, x: Alt| 0 <= j < components@.len() && #[trigger] components@[j].alts().contains(x) implies on_cycle(cycles@, x) by {
                        if j == a {
                            if before[a as int].alts().contains(x) {
                            } else {
                                assert(before[b as int].alts().contains(x));
                            }
                        } else if j < b {
                            assert(components@[j] == before[j]);
                        } else {
                            assert(components@[j] == before[j + 1]);
                        }
                    }
                }
            },
        }
    }
}

/// Houtman-Maks bounds from the cycles of a graph on `vertex_count` vertices: at least
/// the number of connected components of the cycles, at most the size of a greedy cover
/// of the cycles by vertices.
/// The indices, as alternatives, of the cycles in `cycles` that pass through vertex `v`.
pub open spec fn cycles_through(cycles: Seq<Cycle>, v: int) -> Set<Alt> {
    Set::new(|c: Alt| (c.0 as int) < cycles.len() && cycles[c.0 as int].verts().contains(Alt(v as u32)))
}

/// Vertex `v`'s set holds the cycles through `v`, for every vertex below `n`.
pub open spec fn cycle_sets(cycles: Seq<Cycle>, sets: Seq<AltSet>, n: int) -> bool {
    &&& sets.len() == n
    &&& forall|v: int| 0 <= v < n ==> (#[trigger] sets[v]).alts() == cycles_through(cycles, v)
}

pub fn hm_bounds(vertex_count: u32, cycles: &Vec<Cycle>, g: &Multigraph) -> (r: BoundEstimate)
    requires
        g.wf(),
        g.n() == vertex_count,
        cycles_of(g, cycles@),
        cycles@.len() <= 0x8000_0000,
    ensures
        r.lower <= cycles@.len(),
        r.lower == 0 <==> cycles@.len() == 0,
        exists|comps: Seq<AltSet>| #[trigger] components_of(cycles@, comps) && comps.len() == r.lower && forall|a: int, b: int|
            0 <= a < comps.len() && 0 <= b < comps.len() && a != b ==> (#[trigger] comps[a]).alts().disjoint((#[trigger] comps[b]).alts()),
        exists|sets: Seq<AltSet>, picks: Seq<usize>|
            #![trigger cycle_sets(cycles@, sets, vertex_count as int), picks.no_duplicates()]
            cycle_sets(cycles@, sets, vertex_count as int) && picks.len() == r.upper && picks.no_duplicates()
            && forall|t: int| 0 <= t < picks.len() ==> #[trigger] crate::set_cover::greedy_pick(sets, picks, t),
{
    let mut per_vertex: Vec<AltSet> = Vec::new();
    let mut v: u32 = 0;
    while v < vertex_count
        invariant
            g.wf(),
            g.n() == vertex_count,
            cycles_of(g, cycles@),
            cycles@.len() <= 0x8000_0000,
            v <= vertex_count,
            cycle_sets(cycles@, per_vertex@, v as int),
        decreases vertex_count - v,
    {
        let mut nrs: Vec<Alt> = Vec::new();
        let mut c: usize = 0;
        while c < cycles.len()
            invariant
                c <= cycles@.len() <= 0x8000_0000,
                forall|q: int| 0 <= q < nrs@.len() ==> (#[trigger] nrs@[q]).0 < MAX_BLOCKS * 32,
                forall|a: Alt|
                    #![trigger nrs@.contains(a)]
                    #![trigger cycles@[a.0 as int].verts().contains(Alt(v))]
                    nrs@.contains(a) <==> (a.0 < c && cycles@[a.0 as int].verts().contains(Alt(v))),
            decreases cycles@.len() - c,
        {
            let ghost before = nrs@;
            let found = find(Alt(v), cycles[c].vertices().as_slice());
            proof {
                assert(found.is_some() <==> cycles@[c as int].verts().contains(Alt(v)));
            }
            if found.is_some() {
                nrs.push(Alt(c as u32));
                proof {
                    assert forall|q: int| 0 <= q < nrs@.len() implies (#[trigger] nrs@[q]).0 < MAX_BLOCKS * 32 by {
                        if q < before.len() {
                            assert(nrs@[q] == before[q]);
                        }
                    }
                    assert forall|a: Alt|
                        #![trigger nrs@.contains(a)]
                        #![trigger cycles@[a.0 as int].verts().contains(Alt(v))]
                        nrs@.contains(a) <==> (a.0 < c + 1 && cycles@[a.0 as int].verts().contains(Alt(v))) by {
                        assert(before.contains(a) <==> (a.0 < c && cycles@[a.0 as int].verts().contains(Alt(v))));
                        if nrs@.contains(a) {
                            let q = choose|q: int| 0 <= q < nrs@.len() && nrs@[q] == a;
                            if q < before.len() {
                                assert(before.contains(a));
                            }
                        }
                        if a.0 < c + 1 && cycles@[a.0 as int].verts().contains(Alt(v)) {
                            if a.0 < c {
                                assert(before.contains(a));
                                let q = choose|q: int| 0 <= q < before.len() && before[q] == a;
                                assert(nrs@[q] == a);
                            } else {
                                assert(a == Alt(c as u32));
                                assert(nrs@[before.len() as int] == a);
                            }
                        }
                    }
                }
            } else {
                proof {
                    assert forall|a: Alt|
                        #![trigger nrs@.contains(a)]
                        #![trigger cycles@[a.0 as int].verts().contains(Alt(v))]
                        nrs@.contains(a) <==> (a.0 < c + 1 && cycles@[a.0 as int].verts().contains(Alt(v))) by {
                        assert(before.contains(a) <==> (a.0 < c && cycles@[a.0 as int].verts().contains(Alt(v))));
                        if a.0 == c {
                            assert(!cycles@[a.0 as int].verts().contains(Alt(v)));
                            assert(!before.contains(a));
                        }
                    }
                }
            }
            c = c + 1;
        }
        let set = AltSet::from_alts(nrs.as_slice());
        let ghost prev = per_vertex@;
        per_vertex.push(set);
        proof {
            assert forall|a: Alt| #[trigger] set.alts().contains(a) <==> cycles_through(cycles@, v as int).contains(a) by {
                if set.alts().contains(a) {
                    assert(nrs@.contains(a));
                }
                if cycles_through(cycles@, v as int).contains(a) {
                    assert(cycles@[a.0 as int].verts().contains(Alt(v)));
                    assert(nrs@.contains(a));
                }
            }
            assert(set.alts() =~= cycles_through(cycles@, v as int));
            assert forall|w: int| 0 <= w < v + 1 implies (#[trigger] per_vertex@[w]).alts() == cycles_through(cycles@, w) by {
                if w < v {
                    assert(per_vertex@[w] == prev[w]);
                }
            }
        }
        v = v + 1;
    }
    let components = connected_components(cycles, g);
    let cover = crate::set_cover::greedy(per_vertex.as_slice());
    let r = BoundEstimate { lower: components.len() as u64, upper: cover.len() as u64 };
    proof {
        assert(components_of(cycles@, components@));
        assert(cycle_sets(cycles@, per_vertex@, vertex_count as int));
        assert(cover@.no_duplicates());
    }
    r
}

} // verus!

