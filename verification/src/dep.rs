//! The dependency graph of a formula: which later clauses share a variable
//! with a clause, and how likely each clause is to be violated.

use crate::ordered::{lists_in_order, sorted_elements, strictly_increasing};
use crate::probability::{is_max_of, max_probability, Probability};
use crate::sat::{clause_vars, lit_var, mentions, shares_variable, Formula, SAT};
use std::collections::BTreeSet;
use vstd::prelude::*;

verus! {

/// Clause `j` depends on the earlier clause `i`: they have a variable in common.
pub open spec fn depends(f: Formula, i: int, j: int) -> bool {
    0 <= i < j < f.clauses.len() && shares_variable(f.clauses[i], f.clauses[j])
}

/// The earlier clauses that clause `j` shares a variable with.
pub open spec fn predecessors(f: Formula, j: int) -> Set<usize> {
    Set::new(|i: usize| depends(f, i as int, j))
}

/// The estimate of the probability that clause `i` is violated under a
/// uniformly random assignment: one half to the power of the formula's
/// clause size, or of the clause's own size where the formula has none.
pub open spec fn clause_probability(f: Formula, i: int) -> Probability {
    if f.arity != 0 {
        Probability::PowerOfHalf(f.arity as usize)
    } else {
        Probability::PowerOfHalf(f.clauses[i].len() as usize)
    }
}

/// The clauses before `id` that mention variable `v`.
pub open spec fn seen(f: Formula, id: int, v: nat) -> Set<usize> {
    Set::new(|j: usize| j < id && mentions(f.clauses[j as int], v))
}

/// The clauses before `id` that mention the variable of one of the first `t`
/// literals of clause `id`.
pub open spec fn near(f: Formula, id: int, t: int) -> Set<usize> {
    Set::new(
        |j: usize|
            j < id && exists|b: int|
                0 <= b < t && mentions(f.clauses[j as int], lit_var(#[trigger] f.clauses[id][b])),
    )
}

/// `g` lists, in increasing order, the clauses before `id` that depend on
/// clause `i`.
pub open spec fn gamma_upto(f: Formula, g: Seq<usize>, i: int, id: int) -> bool {
    &&& strictly_increasing(g)
    &&& forall|j: usize| g.contains(j) <==> (depends(f, i, j as int) && j < id)
}

/// Edges are ordered by their later clause, then by their earlier one.
pub open spec fn edge_order(e: Seq<(usize, usize)>) -> bool {
    forall|x: int, y: int|
        0 <= x < y < e.len() ==> (#[trigger] e[x]).1 < (#[trigger] e[y]).1 || (e[x].1 == e[y].1
            && e[x].0 < e[y].0)
}

/// `e` lists, in order, the dependencies among the clauses before `id`.
pub open spec fn edges_upto(f: Formula, e: Seq<(usize, usize)>, id: int) -> bool {
    &&& edge_order(e)
    &&& forall|a: usize, b: usize|
        #![trigger e.contains((a, b))]
        #![trigger depends(f, a as int, b as int)]
        e.contains((a, b)) <==> (depends(f, a as int, b as int) && b < id)
}

/// `d` is the largest number of predecessors that a clause before `id` has.
pub open spec fn degree_upto(f: Formula, d: nat, id: int) -> bool {
    &&& forall|j: int| 0 <= j < id ==> (#[trigger] predecessors(f, j)).len() <= d
    &&& if id == 0 {
        d == 0
    } else {
        exists|j: int| 0 <= j < id && (#[trigger] predecessors(f, j)).len() == d
    }
}

/// `x` is one of the first `e` entries of `s`.
pub open spec fn among(s: Seq<usize>, e: int, x: usize) -> bool {
    exists|w: int| 0 <= w < e && s[w] == x
}

/// The mathematical content of a dependency graph.
pub struct GraphView {
    /// For each clause, the later clauses that depend on it, in increasing order.
    pub gamma: Seq<Seq<usize>>,
    /// All dependencies, as pairs of an earlier and a later clause.
    pub edges: Seq<(usize, usize)>,
    /// For each clause, the estimate of the probability that it is violated.
    pub p: Seq<Probability>,
    /// The largest number of predecessors of a clause.
    pub max_d: nat,
    /// The largest entry of `p`.
    pub max_p: Probability,
}

/// The list of each clause names later clauses only, in increasing order,
/// and there is an estimate for each clause.
pub open spec fn forward(g: GraphView) -> bool {
    &&& g.p.len() == g.gamma.len()
    &&& forall|i: int| 0 <= i < g.gamma.len() ==> strictly_increasing(#[trigger] g.gamma[i])
    &&& forall|i: int, k: int|
        0 <= i < g.gamma.len() && 0 <= k < g.gamma[i].len() ==> i < #[trigger] g.gamma[i][k] < g.gamma.len()
}

/// `g` is the dependency graph of `f`.
pub open spec fn is_graph_of(g: GraphView, f: Formula) -> bool {
    let n = f.clauses.len() as int;
    &&& g.gamma.len() == n
    &&& forall|i: int| 0 <= i < n ==> gamma_upto(f, #[trigger] g.gamma[i], i, n)
    &&& edges_upto(f, g.edges, n)
    &&& g.p.len() == n
    &&& forall|i: int| 0 <= i < n ==> #[trigger] g.p[i] == clause_probability(f, i)
    &&& is_max_of(g.p, g.max_p)
    &&& degree_upto(f, g.max_d, n)
}

/// The dependency structure among the clauses of a formula.
pub struct DependencyGraph {
    n: usize,
    m: usize,
    edge: Vec<(usize, usize)>,
    gamma: Vec<Vec<usize>>,
    p: Vec<Probability>,
    max_d: usize,
    max_p: Probability,
}

impl View for DependencyGraph {
    type V = GraphView;

    closed spec fn view(&self) -> GraphView {
        GraphView {
            gamma: Seq::new(self.gamma@.len(), |i: int| self.gamma@[i]@),
            edges: self.edge@,
            p: self.p@,
            max_d: self.max_d as nat,
            max_p: self.max_p,
        }
    }
}

/// Going through all literals of clause `id` reaches exactly its predecessors.
proof fn lemma_near_is_predecessors(f: Formula, id: int)
    requires
        0 <= id < f.clauses.len(),
    ensures
        near(f, id, f.clauses[id].len() as int) =~= predecessors(f, id),
{
    let c = f.clauses[id];
    assert forall|j: usize| near(f, id, c.len() as int).contains(j) <==> predecessors(f, id).contains(
        j,
    ) by {
        let d = f.clauses[j as int];
        if near(f, id, c.len() as int).contains(j) {
            let b = choose|b: int| 0 <= b < c.len() && mentions(d, lit_var(#[trigger] c[b]));
            let a = choose|a: int| 0 <= a < d.len() && lit_var(#[trigger] d[a]) == lit_var(c[b]);
            assert(lit_var(d[a]) == lit_var(c[b]));
            assert(shares_variable(d, c));
        }
        if predecessors(f, id).contains(j) {
            let (a, b) = choose|a: int, b: int|
                #![trigger d[a], c[b]]
                0 <= a < d.len() && 0 <= b < c.len() && lit_var(d[a]) == lit_var(c[b]);
            assert(mentions(d, lit_var(c[b])));
        }
    }
}

/// The earlier clauses that share a variable with clause `id`, given for each
/// variable the earlier clauses that mention it.
#[verifier::loop_isolation(false)]
fn collect_predecessors(sat: &SAT, cache: &Vec<BTreeSet<usize>>, vars: &Vec<usize>, id: usize) -> (neighbor:
    BTreeSet<usize>)
    requires
        sat.wf(),
        id < sat@.clauses.len(),
        vars@ == clause_vars(sat@.clauses[id as int]),
        cache@.len() == sat@.variables,
        forall|v: int| 0 <= v < cache@.len() ==> (#[trigger] cache@[v])@ =~= seen(sat@, id as int, (v + 1) as nat),
    ensures
        neighbor@ == predecessors(sat@, id as int),
{
    let ghost f = sat@;
    let ghost c = f.clauses[id as int];
    let mut neighbor: BTreeSet<usize> = BTreeSet::new();
    let mut t: usize = 0;
    while t < vars.len()
        invariant
            t <= vars@.len(),
            neighbor@ =~= near(f, id as int, t as int),
        decreases vars@.len() - t,
    {
        let v = vars[t];
        assert(1 <= lit_var(c[t as int]) <= f.variables);
        let bucket = sorted_elements(&cache[v - 1]);
        let ghost start = neighbor@;
        let mut e: usize = 0;
        while e < bucket.len()
            invariant
                e <= bucket@.len(),
                forall|x: usize|
                    #[trigger] neighbor@.contains(x) <==> (start.contains(x) || among(bucket@, e as int, x)),
            decreases bucket@.len() - e,
        {
            let ghost before = neighbor@;
            neighbor.insert(bucket[e]);
            proof {
                assert forall|x: usize| #[trigger]
                    neighbor@.contains(x) <==> (start.contains(x) || among(bucket@, e + 1, x)) by {
                    assert(before.contains(x) <==> (start.contains(x) || among(bucket@, e as int, x)));
                    if among(bucket@, e as int, x) {
                        let w = choose|w: int| 0 <= w < e && bucket@[w] == x;
                        assert(0 <= w < e + 1 && bucket@[w] == x);
                    }
                    if among(bucket@, e + 1, x) {
                        let w = choose|w: int| 0 <= w < e + 1 && bucket@[w] == x;
                        if w < e {
                            assert(among(bucket@, e as int, x));
                        }
                    }
                    if x == bucket@[e as int] {
                        assert(among(bucket@, e + 1, x));
                    }
                }
            }
            e += 1;
        }
        proof {
            let bucket_set = seen(f, id as int, v as nat);
            assert(cache@[v - 1]@ =~= bucket_set);
            assert forall|x: usize| neighbor@.contains(x) <==> near(f, id as int, t + 1).contains(x) by {
                let d = f.clauses[x as int];
                assert(v as nat == lit_var(c[t as int]));
                if neighbor@.contains(x) {
                    if start.contains(x) {
                        assert(near(f, id as int, t as int).contains(x));
                        let b = choose|b: int| 0 <= b < t && mentions(d, lit_var(#[trigger] c[b]));
                        assert(0 <= b < t + 1 && mentions(d, lit_var(c[b])));
                        assert(near(f, id as int, t + 1).contains(x));
                    } else {
                        assert(among(bucket@, e as int, x));
                        let w = choose|w: int| 0 <= w < e && bucket@[w] == x;
                        assert(bucket@.contains(x));
                        assert(bucket_set.contains(x));
                        assert(mentions(d, lit_var(c[t as int])));
                        assert(near(f, id as int, t + 1).contains(x));
                    }
                }
                if near(f, id as int, t + 1).contains(x) {
                    let b = choose|b: int| 0 <= b < t + 1 && mentions(d, lit_var(#[trigger] c[b]));
                    if b < t {
                        assert(near(f, id as int, t as int).contains(x));
                        assert(start.contains(x));
                    } else {
                        assert(bucket_set.contains(x));
                        assert(bucket@.contains(x));
                        let w = choose|w: int| 0 <= w < bucket@.len() && bucket@[w] == x;
                        assert(among(bucket@, e as int, x));
                        assert(neighbor@.contains(x));
                    }
                }
            }
        }
        t += 1;
    }
    proof {
        lemma_near_is_predecessors(f, id as int);
    }
    neighbor
}

/// Records the dependencies of clause `id` on its predecessors `preds`.
#[verifier::loop_isolation(false)]
fn record_edges(
    gamma: &mut Vec<Vec<usize>>,
    edge: &mut Vec<(usize, usize)>,
    preds: &Vec<usize>,
    id: usize,
    Ghost(f): Ghost<Formula>,
)
    requires
        id < f.clauses.len(),
        old(gamma)@.len() == id,
        lists_in_order(preds@, predecessors(f, id as int)),
        forall|i: int| 0 <= i < id ==> gamma_upto(f, (#[trigger] old(gamma)@[i])@, i, id as int),
        edges_upto(f, old(edge)@, id as int),
    ensures
        final(gamma)@.len() == id + 1,
        forall|i: int| 0 <= i < id + 1 ==> gamma_upto(f, (#[trigger] final(gamma)@[i])@, i, id + 1),
        edges_upto(f, final(edge)@, id + 1),
{
    let ghost gamma0 = gamma@;
    let ghost edge0 = edge@;
    assert(edges_upto(f, edge0, id as int));
    let mut q: usize = 0;
    while q < preds.len()
        invariant
            q <= preds@.len(),
            gamma@.len() == id,
            forall|i: int|
                0 <= i < id ==> (#[trigger] gamma@[i])@ == if exists|w: int|
                    0 <= w < q && #[trigger] preds@[w] == i {
                    gamma0[i]@.push(id)
                } else {
                    gamma0[i]@
                },
            edge@ == edge0 + Seq::new(q as nat, |w: int| (preds@[w], id)),
        decreases preds@.len() - q,
    {
        let pre = preds[q];
        assert(preds@.contains(pre));
        assert(predecessors(f, id as int).contains(pre));
        let ghost gamma1 = gamma@;
        edge.push((pre, id));
        gamma[pre].push(id);
        proof {
            assert(edge@ =~= edge0 + Seq::new((q + 1) as nat, |w: int| (preds@[w], id)));
            assert forall|i: int| 0 <= i < id implies (#[trigger] gamma@[i])@ == if exists|w: int|
                0 <= w < q + 1 && #[trigger] preds@[w] == i {
                gamma0[i]@.push(id)
            } else {
                gamma0[i]@
            } by {
                if i == pre {
                    assert(preds@[q as int] == i);
                    if exists|w: int| 0 <= w < q && #[trigger] preds@[w] == i {
                        let w = choose|w: int| 0 <= w < q && #[trigger] preds@[w] == i;
                        assert(preds@[w] < preds@[q as int]);
                    }
                    assert(gamma1[i]@ == gamma0[i]@);
                } else {
                    assert(gamma@[i] == gamma1[i]);
                    if exists|w: int| 0 <= w < q + 1 && #[trigger] preds@[w] == i {
                        let w = choose|w: int| 0 <= w < q + 1 && #[trigger] preds@[w] == i;
                        assert(w < q);
                    }
                }
            }
        }
        q += 1;
    }
    let ghost gamma2 = gamma@;
    gamma.push(Vec::new());
    proof {
        let added = Seq::new(q as nat, |w: int| (preds@[w], id));
        assert forall|i: int| 0 <= i < id + 1 implies gamma_upto(f, (#[trigger] gamma@[i])@, i, id + 1) by {
            let g = gamma@[i]@;
            if i == id {
                assert(g =~= Seq::<usize>::empty());
            } else {
                assert(gamma@[i] == gamma2[i]);
                let g0 = gamma0[i]@;
                assert(gamma_upto(f, g0, i, id as int));
                let linked = exists|w: int| 0 <= w < q && #[trigger] preds@[w] == i;
                if linked {
                    let w = choose|w: int| 0 <= w < q && #[trigger] preds@[w] == i;
                    assert(preds@.contains(i as usize));
                    assert(g == g0.push(id));
                    assert forall|a: int, b: int| 0 <= a < b < g.len() implies g[a] < g[b] by {
                        assert(g0.contains(g0[a]));
                        if b < g0.len() {
                            assert(g[b] == g0[b]);
                        }
                    }
                    assert forall|j: usize| g.contains(j) <==> (depends(f, i, j as int) && j < id + 1) by {
                        if g.contains(j) {
                            let x = choose|x: int| 0 <= x < g.len() && g[x] == j;
                            if x < g0.len() {
                                assert(g0[x] == j);
                                assert(g0.contains(j));
                            } else {
                                assert(predecessors(f, id as int).contains(i as usize));
                            }
                        }
                        if depends(f, i, j as int) && j < id + 1 {
                            if j < id {
                                assert(g0.contains(j));
                                let x = choose|x: int| 0 <= x < g0.len() && g0[x] == j;
                                assert(g[x] == j);
                            } else {
                                assert(g[g0.len() as int] == j);
                            }
                        }
                    }
                } else {
                    assert(g == g0);
                    assert forall|j: usize| g.contains(j) <==> (depends(f, i, j as int) && j < id + 1) by {
                        if depends(f, i, j as int) && j == id {
                            assert(predecessors(f, id as int).contains(i as usize));
                            assert(preds@.contains(i as usize));
                            let w = choose|w: int| 0 <= w < preds@.len() && preds@[w] == i as usize;
                            assert(preds@[w] == i);
                        }
                    }
                }
            }
        }
        let e = edge@;
        assert forall|x: int, y: int| 0 <= x < y < e.len() implies (#[trigger] e[x]).1 < (#[trigger] e[y]).1
            || (e[x].1 == e[y].1 && e[x].0 < e[y].0) by {
            if y < edge0.len() {
                assert(e[x] == edge0[x] && e[y] == edge0[y]);
            } else if x < edge0.len() {
                assert(e[x] == edge0[x]);
                let (a, b) = edge0[x];
                assert(edge0[x] == (a, b));
                assert(edge0.contains((a, b)));
                assert(depends(f, a as int, b as int) && b < id);
                assert(e[y] == added[y - edge0.len()]);
            } else {
                assert(e[x] == added[x - edge0.len()]);
                assert(e[y] == added[y - edge0.len()]);
            }
        }
        assert forall|a: usize, b: usize| e.contains((a, b)) <==> (depends(f, a as int, b as int) && b < id
            + 1) by {
            if e.contains((a, b)) {
                let x = choose|x: int| 0 <= x < e.len() && e[x] == (a, b);
                if x < edge0.len() {
                    assert(edge0[x] == (a, b));
                    assert(edge0.contains((a, b)));
                } else {
                    assert(e[x] == added[x - edge0.len()]);
                    assert(preds@.contains(a));
                    assert(predecessors(f, id as int).contains(a));
                }
            }
            if depends(f, a as int, b as int) && b < id + 1 {
                if b < id {
                    assert(edge0.contains((a, b)));
                    let x = choose|x: int| 0 <= x < edge0.len() && edge0[x] == (a, b);
                    assert(e[x] == (a, b));
                } else {
                    assert(predecessors(f, id as int).contains(a));
                    assert(preds@.contains(a));
                    let w = choose|w: int| 0 <= w < preds@.len() && preds@[w] == a;
                    assert(added[w] == (a, b));
                    assert(e[edge0.len() + w] == (a, b));
                }
            }
        }
    }
}

/// Records clause `id` against each of its variables.
#[verifier::loop_isolation(false)]
fn record_clause(cache: &mut Vec<BTreeSet<usize>>, vars: &Vec<usize>, id: usize, Ghost(f): Ghost<Formula>)
    requires
        f.wf(),
        id < f.clauses.len(),
        vars@ == clause_vars(f.clauses[id as int]),
        old(cache)@.len() == f.variables,
        forall|v: int|
            0 <= v < old(cache)@.len() ==> (#[trigger] old(cache)@[v])@ =~= seen(f, id as int, (v + 1) as nat),
    ensures
        final(cache)@.len() == f.variables,
        forall|v: int|
            0 <= v < final(cache)@.len() ==> (#[trigger] final(cache)@[v])@ =~= seen(f, id + 1, (v + 1) as nat),
{
    let ghost c = f.clauses[id as int];
    let mut t: usize = 0;
    while t < vars.len()
        invariant
            t <= vars@.len(),
            cache@.len() == f.variables,
            forall|v: int|
                0 <= v < cache@.len() ==> (#[trigger] cache@[v])@ =~= if exists|b: int|
                    0 <= b < t && lit_var(#[trigger] c[b]) == v + 1 {
                    seen(f, id as int, (v + 1) as nat).insert(id)
                } else {
                    seen(f, id as int, (v + 1) as nat)
                },
        decreases vars@.len() - t,
    {
        let var = vars[t];
        assert(1 <= lit_var(c[t as int]) <= f.variables);
        let ghost cache1 = cache@;
        cache[var - 1].insert(id);
        proof {
            assert forall|v: int| 0 <= v < cache@.len() implies (#[trigger] cache@[v])@ =~= if exists|b: int|
                0 <= b < t + 1 && lit_var(#[trigger] c[b]) == v + 1 {
                seen(f, id as int, (v + 1) as nat).insert(id)
            } else {
                seen(f, id as int, (v + 1) as nat)
            } by {
                let now = exists|b: int| 0 <= b < t + 1 && lit_var(#[trigger] c[b]) == v + 1;
                let before = exists|b: int| 0 <= b < t && lit_var(#[trigger] c[b]) == v + 1;
                if v == var - 1 {
                    assert(lit_var(c[t as int]) == v + 1);
                    assert(now);
                } else {
                    assert(cache@[v] == cache1[v]);
                    if now {
                        let b = choose|b: int| 0 <= b < t + 1 && lit_var(#[trigger] c[b]) == v + 1;
                        assert(b < t);
                    }
                    if before {
                        let b = choose|b: int| 0 <= b < t && lit_var(#[trigger] c[b]) == v + 1;
                        assert(0 <= b < t + 1 && lit_var(c[b]) == v + 1);
                    }
                }
            }
        }
        t += 1;
    }
    proof {
        assert forall|v: int| 0 <= v < cache@.len() implies (#[trigger] cache@[v])@ =~= seen(
            f,
            id + 1,
            (v + 1) as nat,
        ) by {
            let target = seen(f, id + 1, (v + 1) as nat);
            let base = seen(f, id as int, (v + 1) as nat);
            let hit = exists|b: int| 0 <= b < t && lit_var(#[trigger] c[b]) == v + 1;
            assert forall|j: usize| cache@[v]@.contains(j) <==> target.contains(j) by {
                if hit {
                    let b = choose|b: int| 0 <= b < t && lit_var(#[trigger] c[b]) == v + 1;
                    assert(mentions(c, (v + 1) as nat));
                }
                if target.contains(j) && j == id {
                    let b = choose|b: int| 0 <= b < c.len() && lit_var(#[trigger] c[b]) == (v + 1) as nat;
                    assert(hit);
                }
            }
        }
    }
}

impl Clone for DependencyGraph {
    #[verifier::loop_isolation(false)]
    fn clone(&self) -> (dep: DependencyGraph)
        ensures
            dep@ == self@,
            self.wf() ==> dep.wf(),
    {
        let mut edge: Vec<(usize, usize)> = Vec::with_capacity(self.edge.len());
        let mut i: usize = 0;
        while i < self.edge.len()
            invariant
                i <= self.edge@.len(),
                edge@ == self.edge@.take(i as int),
            decreases self.edge@.len() - i,
        {
            edge.push(self.edge[i]);
            assert(edge@ =~= self.edge@.take(i + 1));
            i += 1;
        }
        assert(edge@ =~= self.edge@);
        let mut gamma: Vec<Vec<usize>> = Vec::with_capacity(self.gamma.len());
        let mut i: usize = 0;
        while i < self.gamma.len()
            invariant
                i <= self.gamma@.len(),
                gamma@.len() == i,
                forall|j: int| 0 <= j < i ==> (#[trigger] gamma@[j])@ == self.gamma@[j]@,
            decreases self.gamma@.len() - i,
        {
            let list = self.gamma[i].clone();
            assert(list@ =~= self.gamma@[i as int]@);
            gamma.push(list);
            i += 1;
        }
        let mut p: Vec<Probability> = Vec::with_capacity(self.p.len());
        let mut i: usize = 0;
        while i < self.p.len()
            invariant
                i <= self.p@.len(),
                p@ == self.p@.take(i as int),
            decreases self.p@.len() - i,
        {
            p.push(self.p[i]);
            assert(p@ =~= self.p@.take(i + 1));
            i += 1;
        }
        assert(p@ =~= self.p@);
        let dep = DependencyGraph { n: self.n, m: self.m, edge, gamma, p, max_d: self.max_d, max_p: self.max_p };
        assert(dep@.gamma =~= self@.gamma);
        dep
    }
}

impl DependencyGraph {
    /// The stored counts agree with the lists, and the lists are those of a
    /// graph.
    pub closed spec fn wf(&self) -> bool {
        self.n == self@.gamma.len() && self.m == self@.edges.len() && forward(self@)
    }

    /// What holds of every valid graph.
    pub proof fn lemma_wf(&self)
        requires
            self.wf(),
        ensures
            forward(self@),
            self@.gamma.len() <= usize::MAX,
    {
    }

    /// The number of clauses.
    pub fn size(&self) -> (n: usize)
        requires
            self.wf(),
        ensures
            n == self@.gamma.len(),
    {
        self.n
    }

    /// The number of dependencies.
    pub fn edge_count(&self) -> (m: usize)
        requires
            self.wf(),
        ensures
            m == self@.edges.len(),
    {
        self.m
    }

    /// The largest number of predecessors of a clause.
    pub fn max_d(&self) -> (d: usize)
        ensures
            d == self@.max_d,
    {
        self.max_d
    }

    /// The largest of the clauses' probability estimates.
    pub fn max_p(&self) -> (p: Probability)
        ensures
            p == self@.max_p,
    {
        self.max_p
    }

    /// The dependency graph of `sat`.
    #[verifier::loop_isolation(false)]
    pub fn form_sat(sat: &SAT) -> (dep: DependencyGraph)
        requires
            sat.wf(),
        ensures
            dep.wf(),
            is_graph_of(dep@, sat@),
    {
        let n = sat.size();
        let ghost f = sat@;
        let mut edge: Vec<(usize, usize)> = Vec::new();
        let mut gamma: Vec<Vec<usize>> = Vec::new();
        let mut p: Vec<Probability> = Vec::with_capacity(n);
        let k = sat.clause_size();
        let mut i: usize = 0;
        while i < n
            invariant
                i <= n,
                p@.len() == i,
                forall|j: int| 0 <= j < i ==> #[trigger] p@[j] == clause_probability(f, j),
            decreases n - i,
        {
            if k != 0 {
                p.push(Probability::PowerOfHalf(k));
            } else {
                p.push(Probability::PowerOfHalf(sat.get_clause(i).size()));
            }
            i += 1;
        }
        let max_p = max_probability(&p);
        let mut max_d: usize = 0;
        let mut cache: Vec<BTreeSet<usize>> = Vec::new();
        let mut v: usize = 0;
        while v < sat.variable_count()
            invariant
                v <= f.variables,
                cache@.len() == v,
                forall|w: int| 0 <= w < v ==> (#[trigger] cache@[w])@ =~= Set::<usize>::empty(),
            decreases f.variables - v,
        {
            cache.push(BTreeSet::new());
            v += 1;
        }
        let mut id: usize = 0;
        while id < n
            invariant
                id <= n,
                gamma@.len() == id,
                cache@.len() == f.variables,
                forall|w: int|
                    0 <= w < cache@.len() ==> (#[trigger] cache@[w])@ =~= seen(f, id as int, (w + 1) as nat),
                forall|i: int| 0 <= i < id ==> gamma_upto(f, (#[trigger] gamma@[i])@, i, id as int),
                edges_upto(f, edge@, id as int),
                degree_upto(f, max_d as nat, id as int),
            decreases n - id,
        {
            let vars = sat.get_clause(id).collect_varible();
            let neighbor = collect_predecessors(sat, &cache, &vars, id);
            let degree = neighbor.len();
            let ghost max_before = max_d;
            if degree > max_d {
                max_d = degree;
            }
            let preds = sorted_elements(&neighbor);
            record_edges(&mut gamma, &mut edge, &preds, id, Ghost(f));
            record_clause(&mut cache, &vars, id, Ghost(f));
            proof {
                assert(predecessors(f, id as int).len() == degree);
                if id > 0 && max_d == max_before {
                    let j = choose|j: int| 0 <= j < id && (#[trigger] predecessors(f, j)).len() == max_before;
                    assert(predecessors(f, j).len() == max_d);
                }
            }
            id += 1;
        }
        let m = edge.len();
        let dep = DependencyGraph { n, m, edge, gamma, p, max_d, max_p };
        proof {
            assert(dep@.gamma.len() == n);
            assert forall|i: int| 0 <= i < n implies gamma_upto(f, #[trigger] dep@.gamma[i], i, n as int) by {
                assert(dep@.gamma[i] == gamma@[i]@);
            }
            lemma_gamma_points_forward(dep@, f);
        }
        dep
    }

    /// The later clauses that depend on clause `index`, in increasing order.
    pub fn get_gamma(&self, index: usize) -> (g: &Vec<usize>)
        requires
            index < self@.gamma.len(),
        ensures
            g@ == self@.gamma[index as int],
    {
        &self.gamma[index]
    }

    /// The later clauses that depend on clause `id`, followed by `id` itself.
    pub fn get_gamma_plus(&self, id: usize) -> (g: Vec<usize>)
        requires
            id < self@.gamma.len(),
        ensures
            g@ == self@.gamma[id as int].push(id),
    {
        let mut ret = self.get_gamma(id).clone();
        assert(ret@ =~= self@.gamma[id as int]);
        ret.push(id);
        ret
    }

    /// The estimate of the probability that clause `id` is violated.
    pub fn get_p(&self, id: usize) -> (p: Probability)
        requires
            id < self@.p.len(),
        ensures
            p == self@.p[id as int],
    {
        self.p[id]
    }
}

/// In the dependency graph of a formula, the list of a clause names later
/// clauses only, and each of them has a variable in common with it.
pub proof fn lemma_gamma_points_forward(g: GraphView, f: Formula)
    requires
        is_graph_of(g, f),
    ensures
        forall|i: int, k: int|
            0 <= i < g.gamma.len() && 0 <= k < g.gamma[i].len() ==> i < #[trigger] g.gamma[i][k]
                < f.clauses.len() && shares_variable(f.clauses[i], f.clauses[g.gamma[i][k] as int]),
{
    assert forall|i: int, k: int| 0 <= i < g.gamma.len() && 0 <= k < g.gamma[i].len() implies i
        < #[trigger] g.gamma[i][k] < f.clauses.len() && shares_variable(
        f.clauses[i],
        f.clauses[g.gamma[i][k] as int],
    ) by {
        assert(gamma_upto(f, g.gamma[i], i, f.clauses.len() as int));
        assert(g.gamma[i].contains(g.gamma[i][k]));
    }
}

/// In the dependency graph of a formula, the estimate for each clause lies
/// in `(0, 1]`, none exceeds `max_p`, and `max_p` is one of them where there
/// is a clause.
pub proof fn lemma_probabilities_in_range(g: GraphView, f: Formula)
    requires
        is_graph_of(g, f),
    ensures
        forall|i: int|
            0 <= i < g.p.len() ==> 0 < (#[trigger] g.p[i]).numerator() <= g.p[i].denominator() && g.p[i].le(
                g.max_p,
            ),
        g.p.len() > 0 ==> exists|i: int| 0 <= i < g.p.len() && #[trigger] g.p[i] == g.max_p,
{
    assert forall|i: int| 0 <= i < g.p.len() implies 0 < (#[trigger] g.p[i]).numerator()
        <= g.p[i].denominator() && g.p[i].le(g.max_p) by {
        assert(g.p[i] == clause_probability(f, i));
        crate::probability::lemma_probability_range(g.p[i]);
    }
}

} // verus!
