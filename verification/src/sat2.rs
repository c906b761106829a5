use crate::all_types::{clause_in_range, formula_in_range, BoolValue, Cnf, Lit, MAX_CLAUSES, MAX_VARS};
use crate::graph::{
    comp_of, comps_view, graph_add_edge, graph_add_node, graph_edges, graph_new, graph_nodes,
    graph_sccs, graph_weight, is_scc_order, is_walk, reaches, stands_in, steps,
};
use crate::logic::{
    clause_holds, clause_value, completion, is_model, lit_holds, lit_value, makes_true,
    satisfiable, satisfies,
};
use crate::solver::Solver;
use std::collections::HashSet;
use std::ops::Not;
use vstd::prelude::*;

verus! {

broadcast use vstd::std_specs::hash::group_hash_axioms;

/// Every clause of the formula has at most two literals.
pub open spec fn two_sat(f: Seq<Seq<Lit>>) -> bool {
    forall|k: int| 0 <= k < f.len() ==> (#[trigger] f[k]).len() <= 2
}

/// Whether every clause of the formula has at most two literals.
pub fn is_2sat(cnf: &Cnf) -> (b: bool)
    ensures
        b == two_sat(cnf.formula()),
{
    let mut k: usize = 0;
    while k < cnf.clauses.len()
        invariant
            k <= cnf.clauses@.len(),
            forall|q: int| 0 <= q < k ==> (#[trigger] cnf.formula()[q]).len() <= 2,
        decreases cnf.clauses@.len() - k,
    {
        if cnf.clauses[k].len() > 2 {
            assert(cnf.formula()[k as int].len() > 2);
            return false;
        }
        k += 1;
    }
    true
}

/// Some clause of the formula is empty.
pub open spec fn has_empty_clause(f: Seq<Seq<Lit>>) -> bool {
    exists|k: int| 0 <= k < f.len() && (#[trigger] f[k]).len() == 0
}

/// The table that gives each literal its node and the list of nodes describe
/// each other.
pub open spec fn table_matches(table: Seq<Option<usize>>, nodes: Seq<u32>) -> bool {
    &&& forall|c: int|
        0 <= c < table.len() ==> match #[trigger] table[c] {
            Some(i) => i < nodes.len() && nodes[i as int] == c,
            None => true,
        }
    &&& forall|i: int|
        0 <= i < nodes.len() ==> (#[trigger] nodes[i]) < table.len() && table[nodes[i] as int] is Some
            && table[nodes[i] as int]->0 == i
}

/// The second literal of a clause; of a clause of one literal, that literal.
pub open spec fn second_lit(c: Seq<Lit>) -> Lit {
    if c.len() > 1 {
        c[1]
    } else {
        c[0]
    }
}

/// The node of literal `l`.
pub open spec fn node_of(table: Seq<Option<usize>>, l: Lit) -> int {
    table[l.code()]->0 as int
}

/// Clause `c`, the clause at position `q`, is in the graph: its first two
/// literals `a` and `b` and their complements have nodes, and the edges at
/// positions `2q` and `2q + 1` lead from not-`b` to `a` and from not-`a` to `b`.
pub open spec fn wired(table: Seq<Option<usize>>, edges: Seq<(int, int)>, c: Seq<Lit>, q: int) -> bool {
    let a = c[0];
    let b = second_lit(c);
    &&& c.len() >= 1
    &&& 0 <= q
    &&& 2 * q + 1 < edges.len()
    &&& table[a.code()] is Some
    &&& table[a.complement().code()] is Some
    &&& table[b.code()] is Some
    &&& table[b.complement().code()] is Some
    &&& edges[2 * q] == (node_of(table, b.complement()), node_of(table, a))
    &&& edges[2 * q + 1] == (node_of(table, a.complement()), node_of(table, b))
}

/// For each literal code below `len`, whether the set holds it.
pub open spec fn seen(set: Set<u32>, len: int) -> Seq<bool> {
    Seq::new(len as nat, |c: int| set.contains(c as u32))
}

/// The literal that node `v` stands for.
pub open spec fn lit_at(nodes: Seq<u32>, v: int) -> Lit {
    Lit::of_code(nodes[v] as int)
}

/// The literal on variable `x` that is true under `values`.
pub open spec fn true_lit(values: Seq<BoolValue>, x: int) -> Lit {
    Lit::make(x, values[x] == BoolValue::False)
}

/// A variable with a value got it in a component up to `bound`: the
/// component of the node of its true literal.
pub open spec fn settled(
    values: Seq<BoolValue>,
    assigned_in: Seq<int>,
    comps: Seq<Seq<int>>,
    table: Seq<Option<usize>>,
    x: int,
    bound: int,
) -> bool {
    values[x] != BoolValue::Undefined ==> {
        &&& table[true_lit(values, x).code()] is Some
        &&& comp_of(comps, node_of(table, true_lit(values, x))) == assigned_in[x]
        &&& 0 <= assigned_in[x] <= bound
    }
}

/// Node `v`, of component `i`, has been looked at: its variable has a value,
/// which it got in that component or an earlier one, and if in that one, the
/// literal of the node is true.
pub open spec fn node_done(
    values: Seq<BoolValue>,
    assigned_in: Seq<int>,
    nodes: Seq<u32>,
    v: int,
    i: int,
) -> bool {
    let l = lit_at(nodes, v);
    &&& values[l.var_id()] != BoolValue::Undefined
    &&& assigned_in[l.var_id()] <= i
    &&& assigned_in[l.var_id()] == i ==> lit_value(values, l) == BoolValue::True
}

/// In every model in which the literal of the node that an edge leaves holds,
/// the literal of the node that it enters holds.
pub open spec fn edge_valid(m: Seq<bool>, nodes: Seq<u32>, e: (int, int)) -> bool {
    lit_holds(m, lit_at(nodes, e.0)) ==> lit_holds(m, lit_at(nodes, e.1))
}

/// Along a walk over valid edges, if the literal of the first node holds,
/// so does the literal of the last.
proof fn lemma_walk_implies(m: Seq<bool>, nodes: Seq<u32>, edges: Seq<(int, int)>, p: Seq<int>)
    requires
        forall|e: int| 0 <= e < edges.len() ==> edge_valid(m, nodes, #[trigger] edges[e]),
        is_walk(edges, p),
        lit_holds(m, lit_at(nodes, p[0])),
    ensures
        lit_holds(m, lit_at(nodes, p[p.len() - 1])),
    decreases p.len(),
{
    if p.len() > 1 {
        let q = p.drop_last();
        assert(is_walk(edges, q)) by {
            assert forall|t: int| 0 <= t < q.len() - 1 implies #[trigger] steps(edges, q, t) by {
                assert(steps(edges, p, t));
                assert(q[t] == p[t] && q[t + 1] == p[t + 1]);
            }
        }
        lemma_walk_implies(m, nodes, edges, q);
        let t = p.len() - 2;
        assert(steps(edges, p, t));
        let e = choose|e: int| 0 <= e < edges.len() && #[trigger] edges[e] == (p[t], p[t + 1]);
        assert(edge_valid(m, nodes, edges[e]));
        assert(q[q.len() - 1] == p[t]);
    }
}

/// With clauses of at most two literals, every edge of the graph is valid
/// in every model of the formula.
proof fn lemma_edges_valid(
    m: Seq<bool>,
    n: int,
    f: Seq<Seq<Lit>>,
    table: Seq<Option<usize>>,
    nodes: Seq<u32>,
    edges: Seq<(int, int)>,
)
    requires
        is_model(m, n, f),
        two_sat(f),
        formula_in_range(f, n),
        table_matches(table, nodes),
        table.len() == 2 * n,
        edges.len() == 2 * f.len(),
        forall|q: int| 0 <= q < f.len() ==> wired(table, edges, #[trigger] f[q], q),
    ensures
        forall|e: int| 0 <= e < edges.len() ==> edge_valid(m, nodes, #[trigger] edges[e]),
{
    assert forall|e: int| 0 <= e < edges.len() implies edge_valid(m, nodes, #[trigger] edges[e]) by {
        let q = e / 2;
        let c = f[q];
        assert(wired(table, edges, c, q));
        assert(clause_holds(m, c));
        assert(clause_in_range(c, n));
        let a = c[0];
        let b = second_lit(c);
        let h = choose|h: int| 0 <= h < c.len() && lit_holds(m, #[trigger] c[h]);
        assert(c[h] == a || c[h] == b);
        a.lemma_complement();
        b.lemma_complement();
        a.lemma_var_range();
        b.lemma_var_range();
        lemma_node_lit(table, nodes, a);
        lemma_node_lit(table, nodes, b);
        lemma_node_lit(table, nodes, a.complement());
        lemma_node_lit(table, nodes, b.complement());
        crate::logic::lemma_complement_holds(m, a);
        crate::logic::lemma_complement_holds(m, b);
    }
}

/// The node of a literal stands for that literal.
proof fn lemma_node_lit(table: Seq<Option<usize>>, nodes: Seq<u32>, l: Lit)
    requires
        table_matches(table, nodes),
        l.code() < table.len(),
        table[l.code()] is Some,
    ensures
        0 <= node_of(table, l) < nodes.len(),
        lit_at(nodes, node_of(table, l)) == l,
{
    l.lemma_code_range();
    Lit::lemma_of_code(nodes[node_of(table, l)] as int);
    Lit::lemma_code_injective(lit_at(nodes, node_of(table, l)), l);
}

/// Two literals, each the complement of the other, whose nodes stand in one
/// component show that the formula has no model.
proof fn lemma_conflict_unsat(
    n: int,
    f: Seq<Seq<Lit>>,
    table: Seq<Option<usize>>,
    nodes: Seq<u32>,
    edges: Seq<(int, int)>,
    comps: Seq<Seq<int>>,
    u: int,
    v: int,
)
    requires
        two_sat(f),
        formula_in_range(f, n),
        table_matches(table, nodes),
        table.len() == 2 * n,
        edges.len() == 2 * f.len(),
        forall|q: int| 0 <= q < f.len() ==> wired(table, edges, #[trigger] f[q], q),
        is_scc_order(nodes.len() as int, edges, comps),
        0 <= u < nodes.len(),
        0 <= v < nodes.len(),
        comp_of(comps, u) == comp_of(comps, v),
        lit_at(nodes, u) == lit_at(nodes, v).complement(),
    ensures
        !satisfiable(n, f),
{
    assert forall|m: Seq<bool>| !is_model(m, n, f) by {
        if is_model(m, n, f) {
            lemma_edges_valid(m, n, f, table, nodes, edges);
            crate::graph::lemma_scc_mutual(nodes.len() as int, edges, comps, u, v);
            let l = lit_at(nodes, v);
            l.lemma_var_range();
            assert(nodes[v] < table.len());
            Lit::lemma_of_code(nodes[v] as int);
            assert(l.code() == nodes[v]);
            assert(l.var_id() < n);
            crate::logic::lemma_complement_holds(m, l);
            if lit_holds(m, l) {
                let p = choose|p: Seq<int>| #[trigger]
                    is_walk(edges, p) && p[0] == v && p[p.len() - 1] == u;
                lemma_walk_implies(m, nodes, edges, p);
            } else {
                let p = choose|p: Seq<int>| #[trigger]
                    is_walk(edges, p) && p[0] == u && p[p.len() - 1] == v;
                lemma_walk_implies(m, nodes, edges, p);
            }
        }
    }
}

/// Where every node has been looked at and no component held a literal with
/// its complement, the first or the second literal of a clause in the graph
/// is true.
proof fn lemma_clause_true(
    values: Seq<BoolValue>,
    assigned_in: Seq<int>,
    table: Seq<Option<usize>>,
    nodes: Seq<u32>,
    edges: Seq<(int, int)>,
    comps: Seq<Seq<int>>,
    c: Seq<Lit>,
    q: int,
)
    requires
        values.len() * 2 == table.len(),
        assigned_in.len() == values.len(),
        table_matches(table, nodes),
        is_scc_order(nodes.len() as int, edges, comps),
        wired(table, edges, c, q),
        clause_in_range(c, values.len() as int),
        forall|x: int|
            0 <= x < values.len() ==> settled(values, assigned_in, comps, table, x, comps.len() as int),
        forall|i: int, j: int|
            0 <= i < comps.len() && 0 <= j < comps[i].len() ==> node_done(
                values,
                assigned_in,
                nodes,
                #[trigger] comps[i][j],
                i,
            ),
    ensures
        clause_value(values, c) == BoolValue::True,
{
    let a = c[0];
    let b = second_lit(c);
    let na = a.complement();
    let nb = b.complement();
    a.lemma_complement();
    b.lemma_complement();
    a.lemma_var_range();
    b.lemma_var_range();
    lemma_node_lit(table, nodes, a);
    lemma_node_lit(table, nodes, b);
    lemma_node_lit(table, nodes, na);
    lemma_node_lit(table, nodes, nb);
    let ia = node_of(table, a);
    let ib = node_of(table, b);
    let ina = node_of(table, na);
    let inb = node_of(table, nb);
    lemma_done_at_own(values, assigned_in, nodes, edges, comps, ia);
    lemma_done_at_own(values, assigned_in, nodes, edges, comps, ib);
    assert(lit_value(values, a) != BoolValue::Undefined);
    assert(lit_value(values, b) != BoolValue::Undefined);
    if lit_value(values, a) == BoolValue::False && lit_value(values, b) == BoolValue::False {
        assert(settled(values, assigned_in, comps, table, a.var_id(), comps.len() as int));
        assert(settled(values, assigned_in, comps, table, b.var_id(), comps.len() as int));
        Lit::lemma_same(true_lit(values, a.var_id()), na);
        Lit::lemma_same(true_lit(values, b.var_id()), nb);
        assert(comp_of(comps, ina) < comp_of(comps, ia));
        assert(comp_of(comps, inb) < comp_of(comps, ib));
        assert(edges[2 * q] == (inb, ia));
        assert(edges[2 * q + 1] == (ina, ib));
        crate::graph::lemma_scc_edge(nodes.len() as int, edges, comps, 2 * q);
        crate::graph::lemma_scc_edge(nodes.len() as int, edges, comps, 2 * q + 1);
        assert(comp_of(comps, ia) <= comp_of(comps, inb));
        assert(comp_of(comps, ib) <= comp_of(comps, ina));
    }
    if lit_value(values, a) == BoolValue::True {
        assert(lit_value(values, c[0]) == BoolValue::True);
    } else {
        assert(lit_value(values, b) == BoolValue::True);
        if c.len() > 1 {
            assert(lit_value(values, c[1]) == BoolValue::True);
        }
    }
}

/// A node has been looked at in its own component.
proof fn lemma_done_at_own(
    values: Seq<BoolValue>,
    assigned_in: Seq<int>,
    nodes: Seq<u32>,
    edges: Seq<(int, int)>,
    comps: Seq<Seq<int>>,
    v: int,
)
    requires
        is_scc_order(nodes.len() as int, edges, comps),
        0 <= v < nodes.len(),
        forall|i: int, j: int|
            0 <= i < comps.len() && 0 <= j < comps[i].len() ==> node_done(
                values,
                assigned_in,
                nodes,
                #[trigger] comps[i][j],
                i,
            ),
    ensures
        node_done(values, assigned_in, nodes, v, comp_of(comps, v)),
{
    let j = crate::graph::lemma_scc_place(nodes.len() as int, edges, comps, v);
    let i = comp_of(comps, v);
    assert(node_done(values, assigned_in, nodes, comps[i][j], i));
}

/// A solver for formulas in which every clause has at most two literals. It
/// reads the clause `a or b` as the two implications from not-`a` to `b` and
/// from not-`b` to `a`, and looks at the strongly connected components of
/// the graph that these make.
pub struct SAT2Solver {
    impl_graph: petgraph::graph::Graph<u32, (), petgraph::Directed, u32>,
    pub status: Option<bool>,
    pub assigns: Vec<BoolValue>,
    input: Ghost<Seq<Seq<Lit>>>,
    slots: Ghost<Seq<Option<usize>>>,
}

/// Gives literal `lit` a node unless it has one.
fn ensure_node(
    graph: &mut petgraph::graph::Graph<u32, (), petgraph::Directed, u32>,
    all_lits: &mut Vec<Option<usize>>,
    lit: Lit,
)
    requires
        table_matches(old(all_lits)@, graph_nodes(*old(graph))),
        lit.code() < old(all_lits)@.len(),
        old(all_lits)@.len() <= 2 * MAX_VARS,
    ensures
        table_matches(final(all_lits)@, graph_nodes(*final(graph))),
        final(all_lits)@.len() == old(all_lits)@.len(),
        graph_edges(*final(graph)) == graph_edges(*old(graph)),
        final(all_lits)@[lit.code()] is Some,
        graph_nodes(*old(graph)).len() <= graph_nodes(*final(graph)).len(),
        forall|c: int|
            0 <= c < old(all_lits)@.len() && old(all_lits)@[c] is Some ==> final(all_lits)@[c] == old(
                all_lits,
            )@[c],
{
    if all_lits[lit.index()].is_none() {
        let ghost nodes = graph_nodes(*graph);
        let ghost table = all_lits@;
        proof {
            // the nodes are distinct literals other than this one
            let codes = Seq::new(nodes.len() + 1, |i: int| if i < nodes.len() {
                nodes[i] as int
            } else {
                lit.code()
            });
            assert forall|a: int, b: int|
                0 <= a < codes.len() && 0 <= b < codes.len() && a != b implies codes[a]
                != codes[b] by {
                if a < nodes.len() {
                    assert(codes[a] == nodes[a]);
                    assert(table[nodes[a] as int]->0 == a);
                } else {
                    assert(codes[a] == lit.code());
                }
                if b < nodes.len() {
                    assert(codes[b] == nodes[b]);
                    assert(table[nodes[b] as int]->0 == b);
                } else {
                    assert(codes[b] == lit.code());
                }
            }
            assert forall|k: int| 0 <= k < codes.len() implies 0 <= #[trigger] codes[k]
                < table.len() by {
                if k < nodes.len() {
                    assert(nodes[k] < table.len());
                }
            }
            crate::measure::lemma_distinct_bounded(codes, table.len() as int);
        }
        let index = graph_add_node(graph, lit.to_code());
        all_lits[lit.index()] = Some(index);
        proof {
            let nodes2 = graph_nodes(*graph);
            assert forall|c: int| 0 <= c < all_lits@.len() implies match #[trigger] all_lits@[c] {
                Some(i) => i < nodes2.len() && nodes2[i as int] == c,
                None => true,
            } by {
                if c != lit.code() {
                    assert(all_lits@[c] == table[c]);
                }
            }
            assert forall|i: int| 0 <= i < nodes2.len() implies (#[trigger] nodes2[i])
                < all_lits@.len() && all_lits@[nodes2[i] as int] is Some
                && all_lits@[nodes2[i] as int]->0 == i by {
                if i < nodes.len() {
                    assert(nodes2[i] == nodes[i]);
                    assert(table[nodes[i] as int]->0 == i);
                }
            }
        }
    }
}

impl SAT2Solver {
    /// The number of variables.
    pub closed spec fn num_vars(&self) -> int {
        self.assigns@.len() as int
    }

    /// The clauses that the solver was given.
    pub closed spec fn formula(&self) -> Seq<Seq<Lit>> {
        self.input@
    }

    /// The value of each variable.
    pub closed spec fn values(&self) -> Seq<BoolValue> {
        self.assigns@
    }

    /// The verdict, once there is one: `Some(true)` for satisfiable.
    pub closed spec fn verdict(&self) -> Option<bool> {
        self.status
    }

    /// The solver is in a state in which its operations may be called.
    pub closed spec fn inv(&self) -> bool {
        let n = self.assigns@.len() as int;
        &&& n <= MAX_VARS
        &&& self.input@.len() <= MAX_CLAUSES
        &&& formula_in_range(self.input@, n)
        &&& match self.status {
            Some(true) => makes_true(self.assigns@, self.input@),
            Some(false) => !satisfiable(n, self.input@),
            None => {
                &&& self.slots@.len() == 2 * n
                &&& table_matches(self.slots@, graph_nodes(self.impl_graph))
                &&& graph_edges(self.impl_graph).len() == 2 * self.input@.len()
                &&& forall|q: int|
                    0 <= q < self.input@.len() ==> wired(
                        self.slots@,
                        graph_edges(self.impl_graph),
                        #[trigger] self.input@[q],
                        q,
                    )
            },
        }
    }

    /// Looks at the nodes of component `i` in turn: if the complement of a
    /// node's literal was seen in this component, stops with `false`;
    /// otherwise makes the literal true unless its variable has a value.
    fn visit_component(
        &mut self,
        scc: &Vec<usize>,
        Ghost(comps): Ghost<Seq<Seq<int>>>,
        Ghost(i): Ghost<int>,
        Ghost(assigned_in): Ghost<Seq<int>>,
    ) -> (r: (bool, Ghost<Seq<int>>))
        requires
            old(self).status is None,
            old(self).inv_graph(),
            is_scc_order(
                graph_nodes(old(self).impl_graph).len() as int,
                graph_edges(old(self).impl_graph),
                comps,
            ),
            0 <= i < comps.len(),
            comps[i] == Seq::new(scc@.len(), |j: int| scc@[j] as int),
            assigned_in.len() == old(self).assigns@.len(),
            forall|x: int|
                0 <= x < old(self).assigns@.len() ==> settled(
                    old(self).assigns@,
                    assigned_in,
                    comps,
                    old(self).slots@,
                    x,
                    i,
                ),
            forall|x: int|
                0 <= x < old(self).assigns@.len() && old(self).assigns@[x] != BoolValue::Undefined
                    ==> #[trigger] assigned_in[x] < i,
            forall|i2: int, j2: int|
                0 <= i2 < i && 0 <= j2 < comps[i2].len() ==> node_done(
                    old(self).assigns@,
                    assigned_in,
                    graph_nodes(old(self).impl_graph),
                    #[trigger] comps[i2][j2],
                    i2,
                ),
        ensures
            final(self).status is None,
            final(self).inv_graph(),
            final(self).impl_graph == old(self).impl_graph,
            final(self).input@ == old(self).input@,
            final(self).slots@ == old(self).slots@,
            final(self).assigns@.len() == old(self).assigns@.len(),
            !r.0 && two_sat(final(self).input@) ==> !satisfiable(
                final(self).assigns@.len() as int,
                final(self).input@,
            ),
            r.0 ==> {
                &&& r.1@.len() == final(self).assigns@.len()
                &&& forall|x: int|
                    0 <= x < final(self).assigns@.len() ==> settled(
                        final(self).assigns@,
                        r.1@,
                        comps,
                        final(self).slots@,
                        x,
                        i,
                    )
                &&& forall|i2: int, j2: int|
                    0 <= i2 <= i && 0 <= j2 < comps[i2].len() ==> node_done(
                        final(self).assigns@,
                        r.1@,
                        graph_nodes(final(self).impl_graph),
                        #[trigger] comps[i2][j2],
                        i2,
                    )
            },
    {
        let ghost n = self.assigns@.len() as int;
        let ghost nodes = graph_nodes(self.impl_graph);
        let ghost edges = graph_edges(self.impl_graph);
        let ghost table = self.slots@;
        let ghost f = self.input@;
        let ghost mut assigned_in = assigned_in;
        let mut all_literals: HashSet<u32> = HashSet::new();
        let ghost mut marks: Seq<bool> = seen(all_literals@, 2 * n);
        let mut j: usize = 0;
        while j < scc.len()
            invariant
                j <= scc@.len(),
                self.status is None,
                self.inv_graph(),
                self.impl_graph == old(self).impl_graph,
                self.input@ == f,
                self.slots@ == table,
                self.assigns@.len() == n,
                f == old(self).input@,
                table == old(self).slots@,
                n == old(self).assigns@.len(),
                nodes == graph_nodes(self.impl_graph),
                edges == graph_edges(self.impl_graph),
                is_scc_order(nodes.len() as int, edges, comps),
                0 <= i < comps.len(),
                comps[i] == Seq::new(scc@.len(), |j: int| scc@[j] as int),
                n <= MAX_VARS,
                marks == seen(all_literals@, 2 * n),
                assigned_in.len() == n,
                forall|c: int|
                    0 <= c < marks.len() ==> (#[trigger] marks[c] <==> exists|j2: int|
                        0 <= j2 < j && #[trigger] nodes[comps[i][j2]] == c),
                forall|x: int|
                    0 <= x < n ==> settled(self.assigns@, assigned_in, comps, table, x, i),
                forall|x: int|
                    0 <= x < n && #[trigger] self.assigns@[x] != BoolValue::Undefined
                        && assigned_in[x] == i ==> marks[true_lit(self.assigns@, x).code()],
                forall|i2: int, j2: int|
                    0 <= i2 < i && 0 <= j2 < comps[i2].len() ==> node_done(
                        self.assigns@,
                        assigned_in,
                        nodes,
                        #[trigger] comps[i2][j2],
                        i2,
                    ),
                forall|j2: int|
                    0 <= j2 < j ==> node_done(
                        self.assigns@,
                        assigned_in,
                        nodes,
                        #[trigger] comps[i][j2],
                        i,
                    ),
            decreases scc@.len() - j,
        {
            let node: usize = scc[j];
            proof {
                assert(comps[i][j as int] == node);
                crate::graph::lemma_scc_node(nodes.len() as int, edges, comps, i, j as int);
            }
            let code = graph_weight(&self.impl_graph, node);
            let lit = Lit::from_code(code);
            let other = lit.not();
            proof {
                lit.lemma_complement();
                lit.lemma_var_range();
                lit.lemma_code_range();
                other.lemma_code_range();
                assert(nodes[node as int] < table.len());
                assert(table[code as int]->0 == node);
                assert(lit == lit_at(nodes, node as int));
            }
            proof {
                assert(other.var_id() == lit.var_id());
                assert(0 <= other.code() < 2 * n);
                assert(marks[other.code()] == all_literals@.contains(other.code() as u32));
                assert(0 <= lit.code() < 2 * n);
            }
            if all_literals.contains(&other.to_code()) {
                proof {
                    assert(marks[other.code()]);
                    if two_sat(f) {
                        let j2 = choose|j2: int|
                            0 <= j2 < j && #[trigger] nodes[comps[i][j2]] == other.code();
                        crate::graph::lemma_scc_node(nodes.len() as int, edges, comps, i, j2);
                        let u = comps[i][j2];
                        Lit::lemma_of_code(nodes[u] as int);
                        Lit::lemma_code_injective(lit_at(nodes, u), other);
                        lemma_conflict_unsat(n, f, table, nodes, edges, comps, u, node as int);
                    }
                }
                return (false, Ghost(assigned_in));
            }
            let ghost marks_before = marks;
            let ghost values_before = self.assigns@;
            let ghost assigned_before = assigned_in;
            assert(!marks[other.code()]);
            all_literals.insert(lit.to_code());
            proof {
                marks = seen(all_literals@, 2 * n);
                assert(marks =~= marks_before.update(lit.code(), true));
            }
            let x: usize = lit.get_var().0 as usize;
            if self.assigns[x] == BoolValue::Undefined {
                self.assigns[x] = BoolValue::from_polarity(lit.is_neg());
                proof {
                    assigned_in = assigned_in.update(x as int, i);
                    Lit::lemma_same(true_lit(self.assigns@, x as int), lit);
                }
            }
            proof {
                let values = self.assigns@;
                assert forall|y: int| 0 <= y < n && y != x implies values[y] == values_before[y]
                    && assigned_in[y] == assigned_before[y] by {}
                // the true literal of the variable is this literal or was seen before
                if values_before[x as int] != BoolValue::Undefined {
                    assert(settled(values_before, assigned_before, comps, table, x as int, i));
                    if assigned_before[x as int] == i {
                        let tl = true_lit(values_before, x as int);
                        assert(marks_before[tl.code()]);
                        Lit::lemma_make(x as int, values_before[x as int] == BoolValue::False);
                        if tl.negated() == lit.negated() {
                            Lit::lemma_same(tl, lit);
                        } else {
                            Lit::lemma_same(tl, other);
                        }
                    }
                }
                assert(node_done(values, assigned_in, nodes, node as int, i));
                assert forall|c: int| 0 <= c < marks.len() implies (#[trigger] marks[c]
                    <==> exists|j2: int| 0 <= j2 < j + 1 && #[trigger] nodes[comps[i][j2]] == c) by {
                    if c == lit.code() {
                        assert(nodes[comps[i][j as int]] == c);
                    } else {
                        if marks_before[c] {
                            let j2 = choose|j2: int|
                                0 <= j2 < j && #[trigger] nodes[comps[i][j2]] == c;
                            assert(nodes[comps[i][j2]] == c);
                        }
                        if exists|j2: int| 0 <= j2 < j + 1 && #[trigger] nodes[comps[i][j2]] == c {
                            let j2 = choose|j2: int|
                                0 <= j2 < j + 1 && #[trigger] nodes[comps[i][j2]] == c;
                            assert(j2 < j);
                            assert(nodes[comps[i][j2]] == c);
                        }
                    }
                }
                assert forall|y: int| 0 <= y < n implies settled(
                    values,
                    assigned_in,
                    comps,
                    table,
                    y,
                    i,
                ) by {
                    if y != x {
                        assert(settled(values_before, assigned_before, comps, table, y, i));
                    } else if values_before[x as int] != BoolValue::Undefined {
                        assert(settled(values_before, assigned_before, comps, table, y, i));
                    }
                }
                assert forall|y: int|
                    0 <= y < n && #[trigger] values[y] != BoolValue::Undefined && assigned_in[y]
                        == i implies marks[true_lit(values, y).code()] by {
                    if y != x {
                        assert(values_before[y] != BoolValue::Undefined);
                        assert(marks_before[true_lit(values_before, y).code()]);
                        true_lit(values_before, y).lemma_code_range();
                        Lit::lemma_make(y, values_before[y] == BoolValue::False);
                        assert(true_lit(values_before, y).code() != lit.code());
                    } else if values_before[x as int] != BoolValue::Undefined {
                        assert(marks_before[true_lit(values_before, y).code()]);
                    }
                }
                assert forall|i2: int, j2: int|
                    0 <= i2 < i && 0 <= j2 < comps[i2].len() implies node_done(
                    values,
                    assigned_in,
                    nodes,
                    #[trigger] comps[i2][j2],
                    i2,
                ) by {
                    crate::graph::lemma_scc_node(nodes.len() as int, edges, comps, i2, j2);
                    let v = comps[i2][j2];
                    assert(nodes[v] < table.len());
                    Lit::lemma_of_code(nodes[v] as int);
                    assert(0 <= lit_at(nodes, v).var_id() < n);
                    assert(node_done(values_before, assigned_before, nodes, comps[i2][j2], i2));
                }
                assert forall|j2: int| 0 <= j2 < j + 1 implies node_done(
                    values,
                    assigned_in,
                    nodes,
                    #[trigger] comps[i][j2],
                    i,
                ) by {
                    if j2 < j {
                        crate::graph::lemma_scc_node(nodes.len() as int, edges, comps, i, j2);
                        let v = comps[i][j2];
                        assert(nodes[v] < table.len());
                        Lit::lemma_of_code(nodes[v] as int);
                        assert(0 <= lit_at(nodes, v).var_id() < n);
                        assert(node_done(values_before, assigned_before, nodes, comps[i][j2], i));
                    }
                }
            }
            j += 1;
        }
        (true, Ghost(assigned_in))
    }

    /// The graph and the table of nodes fit the formula.
    spec fn inv_graph(&self) -> bool {
        let n = self.assigns@.len() as int;
        &&& n <= MAX_VARS
        &&& self.input@.len() <= MAX_CLAUSES
        &&& formula_in_range(self.input@, n)
        &&& self.slots@.len() == 2 * n
        &&& table_matches(self.slots@, graph_nodes(self.impl_graph))
        &&& graph_edges(self.impl_graph).len() == 2 * self.input@.len()
        &&& forall|q: int|
            0 <= q < self.input@.len() ==> wired(
                self.slots@,
                graph_edges(self.impl_graph),
                #[trigger] self.input@[q],
                q,
            )
    }
}

impl<'a> Solver<'a> for SAT2Solver {
    open spec fn ready(&self) -> bool {
        self.inv()
    }

    open spec fn var_count(&self) -> int {
        self.num_vars()
    }

    open spec fn clauses(&self) -> Seq<Seq<Lit>> {
        self.formula()
    }

    open spec fn assignment(&self) -> Seq<BoolValue> {
        self.values()
    }

    open spec fn decides(n: int, f: Seq<Seq<Lit>>) -> bool {
        two_sat(f)
    }

    fn new<'b: 'a>(cnf: &'b Cnf) -> (s: Self)
        ensures
            s.values() == Seq::new(cnf.var_num as nat, |v: int| BoolValue::Undefined),
            s.verdict() == if cnf.formula().len() == 0 {
                Some(true)
            } else if has_empty_clause(cnf.formula()) {
                Some(false)
            } else {
                None
            },
    {
        let n = cnf.var_num;
        let ghost f = cnf.formula();
        let mut graph = graph_new();
        let mut all_lits: Vec<Option<usize>> = vec![None; 2 * n];
        let mut status: Option<bool> = if cnf.clauses.len() == 0 {
            Some(true)
        } else {
            None
        };
        let ghost mut empty_at: int = 0;
        let mut k: usize = 0;
        while k < cnf.clauses.len()
            invariant
                k <= cnf.clauses@.len(),
                cnf.wf(),
                n == cnf.var_num,
                f == cnf.formula(),
                all_lits@.len() == 2 * n,
                table_matches(all_lits@, graph_nodes(graph)),
                status == Some(true) ==> cnf.clauses@.len() == 0,
                status is None ==> cnf.clauses@.len() > 0,
                status == Some(false) ==> 0 <= empty_at < k && f[empty_at].len() == 0,
                status is None ==> graph_edges(graph).len() == 2 * k && forall|q: int|
                    0 <= q < k ==> wired(all_lits@, graph_edges(graph), #[trigger] f[q], q),
            decreases cnf.clauses@.len() - k,
        {
            let clause = &cnf.clauses[k];
            proof {
                assert(f[k as int] == clause@);
                assert(clause_in_range(f[k as int], n as int));
            }
            if status.is_none() {
                if clause.len() == 0 {
                    status = Some(false);
                    proof {
                        empty_at = k as int;
                    }
                } else {
                    let lit1 = clause[0];
                    let lit2 = if clause.len() > 1 {
                        clause[1]
                    } else {
                        clause[0]
                    };
                    let not1 = lit1.not();
                    let not2 = lit2.not();
                    let ghost table0 = all_lits@;
                    let ghost edges0 = graph_edges(graph);
                    proof {
                        lit1.lemma_complement();
                        lit2.lemma_complement();
                        lit1.lemma_var_range();
                        lit2.lemma_var_range();
                        lit1.lemma_code_range();
                        lit2.lemma_code_range();
                        not1.lemma_code_range();
                        not2.lemma_code_range();
                    }
                    ensure_node(&mut graph, &mut all_lits, lit1);
                    let ghost table1 = all_lits@;
                    ensure_node(&mut graph, &mut all_lits, not1);
                    let ghost table2 = all_lits@;
                    ensure_node(&mut graph, &mut all_lits, lit2);
                    let ghost table3 = all_lits@;
                    ensure_node(&mut graph, &mut all_lits, not2);
                    let ghost table4 = all_lits@;
                    proof {
                        assert forall|c: int| 0 <= c < table0.len() && table0[c] is Some implies table4[c]
                            == table0[c] by {
                            assert(table1[c] == table0[c]);
                            assert(table2[c] == table1[c]);
                            assert(table3[c] == table2[c]);
                        }
                        assert(table4[lit1.code()] is Some) by {
                            assert(table2[lit1.code()] == table1[lit1.code()]);
                            assert(table3[lit1.code()] == table2[lit1.code()]);
                        }
                        assert(table4[not1.code()] is Some) by {
                            assert(table3[not1.code()] == table2[not1.code()]);
                        }
                        assert(table4[lit2.code()] is Some);
                        assert(table4[not2.code()] is Some);
                    }
                    graph_add_edge(
                        &mut graph,
                        all_lits[not2.index()].unwrap(),
                        all_lits[lit1.index()].unwrap(),
                    );
                    graph_add_edge(
                        &mut graph,
                        all_lits[not1.index()].unwrap(),
                        all_lits[lit2.index()].unwrap(),
                    );
                    proof {
                        let edges = graph_edges(graph);
                        assert forall|q: int| 0 <= q < k + 1 implies wired(
                            all_lits@,
                            edges,
                            #[trigger] f[q],
                            q,
                        ) by {
                            if q < k {
                                assert(wired(table0, edges0, f[q], q));
                                assert(edges[2 * q] == edges0[2 * q]);
                                assert(edges[2 * q + 1] == edges0[2 * q + 1]);
                                let a = f[q][0];
                                let b = second_lit(f[q]);
                                a.lemma_code_range();
                                b.lemma_code_range();
                                a.complement().lemma_code_range();
                                b.complement().lemma_code_range();
                                assert(clause_in_range(f[q], n as int));
                                a.lemma_var_range();
                                b.lemma_var_range();
                                a.lemma_complement();
                                b.lemma_complement();
                                assert(a.code() < 2 * n && b.code() < 2 * n);
                                assert(a.complement().code() < 2 * n);
                                assert(b.complement().code() < 2 * n);
                                assert(table4[a.code()] == table0[a.code()]);
                                assert(table4[b.code()] == table0[b.code()]);
                                assert(table4[a.complement().code()] == table0[a.complement().code()]);
                                assert(table4[b.complement().code()] == table0[b.complement().code()]);
                            } else {
                                assert(f[q] == clause@);
                                assert(f[q][0] == lit1);
                                assert(second_lit(f[q]) == lit2);
                                assert(edges.len() == 2 * k + 2);
                                assert(edges[2 * q] == (
                                    node_of(all_lits@, not2),
                                    node_of(all_lits@, lit1),
                                ));
                                assert(edges[2 * q + 1] == (
                                    node_of(all_lits@, not1),
                                    node_of(all_lits@, lit2),
                                ));
                            }
                        }
                    }
                }
            }
            k += 1;
        }
        proof {
            if status == Some(false) {
                crate::logic::lemma_empty_clause_unsat(n as int, f, empty_at);
            }
        }
        assert(f.len() == cnf.clauses@.len());
        let assigns: Vec<BoolValue> = vec![BoolValue::Undefined; n];
        proof {
            assert(assigns@ =~= Seq::new(n as nat, |v: int| BoolValue::Undefined));
            if status == Some(false) {
                assert(f[empty_at].len() == 0);
                assert(has_empty_clause(f));
            }
            if status is None {
                assert forall|q: int| 0 <= q < f.len() implies (#[trigger] f[q]).len() != 0 by {
                    assert(wired(all_lits@, graph_edges(graph), f[q], q));
                }
            }
        }
        SAT2Solver { impl_graph: graph, status, assigns, input: Ghost(f), slots: Ghost(all_lits@) }
    }

    fn solve(&mut self) -> (sat: bool) {
        match self.status {
            Some(status) => {
                proof {
                    if status {
                        crate::logic::lemma_true_formula_satisfied(self.assigns@, self.input@);
                    }
                }
                return status;
            },
            None => {},
        }
        let n = self.assigns.len();
        let ghost f = self.input@;
        // start from no values: a solver may be asked twice
        let mut x: usize = 0;
        while x < n
            invariant
                x <= n,
                n == self.assigns@.len(),
                self.status is None,
                self.inv(),
                self.input@ == f,
                f == old(self).input@,
                n == old(self).assigns@.len(),
                forall|y: int| 0 <= y < x ==> #[trigger] self.assigns@[y] == BoolValue::Undefined,
            decreases n - x,
        {
            self.assigns[x] = BoolValue::Undefined;
            x += 1;
        }
        let sccs = graph_sccs(&self.impl_graph);
        let ghost comps = comps_view(sccs@);
        let ghost mut assigned_in: Seq<int> = Seq::new(n as nat, |x: int| 0int);
        let ghost nodes = graph_nodes(self.impl_graph);
        let ghost edges = graph_edges(self.impl_graph);
        let ghost table = self.slots@;
        let mut i: usize = 0;
        while i < sccs.len()
            invariant
                i <= sccs@.len(),
                comps == comps_view(sccs@),
                n == self.assigns@.len(),
                n == old(self).assigns@.len(),
                self.status is None,
                self.inv_graph(),
                self.input@ == f,
                f == old(self).input@,
                self.slots@ == table,
                nodes == graph_nodes(self.impl_graph),
                edges == graph_edges(self.impl_graph),
                is_scc_order(nodes.len() as int, edges, comps),
                assigned_in.len() == n,
                forall|x: int|
                    0 <= x < n ==> settled(self.assigns@, assigned_in, comps, table, x, i as int),
                forall|x: int|
                    0 <= x < n && self.assigns@[x] != BoolValue::Undefined
                        ==> #[trigger] assigned_in[x] < i,
                forall|i2: int, j2: int|
                    0 <= i2 < i && 0 <= j2 < comps[i2].len() ==> node_done(
                        self.assigns@,
                        assigned_in,
                        nodes,
                        #[trigger] comps[i2][j2],
                        i2,
                    ),
            decreases sccs@.len() - i,
        {
            assert(comps[i as int] =~= Seq::new(sccs@[i as int]@.len(), |j: int| sccs@[i as int]@[j] as int));
            let (ok, next) = self.visit_component(
                &sccs[i],
                Ghost(comps),
                Ghost(i as int),
                Ghost(assigned_in),
            );
            if !ok {
                return false;
            }
            proof {
                assigned_in = next@;
                let after: int = i + 1;
                assert forall|x: int| 0 <= x < n implies settled(
                    self.assigns@,
                    assigned_in,
                    comps,
                    table,
                    x,
                    after,
                ) by {
                    assert(settled(self.assigns@, assigned_in, comps, table, x, i as int));
                }
                assert forall|x: int|
                    0 <= x < n && self.assigns@[x] != BoolValue::Undefined implies #[trigger] assigned_in[x]
                    < i + 1 by {
                    assert(settled(self.assigns@, assigned_in, comps, table, x, i as int));
                }
            }
            i += 1;
        }
        proof {
            let values = self.assigns@;
            assert forall|x: int| 0 <= x < n implies settled(
                values,
                assigned_in,
                comps,
                table,
                x,
                comps.len() as int,
            ) by {
                assert(settled(values, assigned_in, comps, table, x, i as int));
            }
            assert forall|q: int| 0 <= q < f.len() implies clause_value(values, #[trigger] f[q])
                == BoolValue::True by {
                assert(wired(table, edges, f[q], q));
                assert(clause_in_range(f[q], n as int));
                lemma_clause_true(values, assigned_in, table, nodes, edges, comps, f[q], q);
            }
            crate::logic::lemma_clauses_true(values, f);
            crate::logic::lemma_true_formula_satisfied(values, f);
        }
        self.status = Some(true);
        true
    }

    fn assigns(&mut self) -> (a: &Vec<BoolValue>) {
        &self.assigns
    }
}

} // verus!
