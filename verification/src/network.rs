//! One genome: its node and connection genes, phenotype evaluation, and the
//! structural and weight mutation operators.

use vstd::prelude::*;

use crate::fixed::{add_sat, mul_sat, in_range};
use crate::genes::{Connection, Node, Type};
use crate::graph::{acyclic, has_edge, reaches, is_path, lemma_acyclic_push, lemma_no_out_edges,
    lemma_acyclic_subgraph, lemma_acyclic_no_self_cycle, lemma_closed_reach, lemma_reach_self,
    lemma_reach_step, lemma_reach_trans};
use crate::registry::{edges_of, type_for_id, Registry};

verus! {

/// Hard cap on a genome's gene count; structural mutation skips (as a
/// recoverable no-op) rather than grow past it.
pub const CAP_GENES: usize = 1048576;

/// Errors of phenotype evaluation.
#[derive(Clone, Copy, Debug, PartialEq, Eq, Structural)]
pub enum NeatError {
    /// The input vector's length differs from the number of sensors.
    InvalidInputSize,
    /// Evaluation met a node currently being evaluated: the genome's enabled
    /// graph has a cycle (defensive; a well-formed genome cannot reach this).
    CycleDetected,
    /// A connection gene names a node the genome does not hold (defensive).
    MissingNode,
}

pub struct Network {
    pub node_genes: Vec<Node>,
    pub connection_genes: Vec<Connection>,
    pub num_sensors: usize,
    pub num_outputs: usize,
}

/// The directed graph of the genome's enabled connections. Disabled genes are
/// mapped onto one fixed edge between two pseudo-nodes that no genome uses,
/// so they can never take part in a cycle of real nodes.
pub open spec fn enabled_edges(genes: Seq<Connection>) -> Seq<(int, int)> {
    genes.map_values(
        |c: Connection|
            if c.enabled {
                (c.input as int, c.output as int)
            } else {
                (-1int, -2int)
            },
    )
}

/// Some node gene carries the id `id`.
pub open spec fn has_node_id(nodes: Seq<Node>, id: int) -> bool {
    exists|j: int| 0 <= j < nodes.len() && nodes[j].innovation == id
}

impl Network {
    /// The connection genes agree with the registry record under their
    /// innovation id, are sorted strictly by id, have in-range weights, and
    /// there is at least one of them.
    pub open spec fn genes_wf(self, reg: Registry) -> bool {
        let genes = self.connection_genes@;
        let conns = reg.connection_list@;
        &&& genes.len() <= CAP_GENES
        &&& forall|i: int|
            0 <= i < genes.len() ==> (#[trigger] genes[i]).innovation < conns.len() && conns[
                genes[i].innovation as int
            ].input == genes[i].input && conns[genes[i].innovation as int].output
                == genes[i].output && in_range(genes[i].weight as int)
        &&& forall|i: int, j: int|
            0 <= i < j < genes.len() ==> (#[trigger] genes[i]).innovation < (
            #[trigger] genes[j]).innovation
    }

    /// The node genes follow the global id layout: the first
    /// `num_sensors + num_outputs + 1` positions hold exactly the sensor,
    /// bias and output ids in order, ids are unique and allocated, and each
    /// node's kind matches its id.
    pub open spec fn nodes_wf(self, reg: Registry) -> bool {
        let nodes = self.node_genes@;
        &&& self.num_sensors == reg.num_sensors
        &&& self.num_outputs == reg.num_outputs
        &&& nodes.len() >= self.num_sensors + self.num_outputs + 1
        &&& forall|j: int|
            0 <= j < self.num_sensors + self.num_outputs + 1 ==> (
            #[trigger] nodes[j]).innovation == j
        &&& forall|j: int|
            0 <= j < nodes.len() ==> (#[trigger] nodes[j]).innovation < reg.node_innovation
        &&& forall|j: int|
            0 <= j < nodes.len() ==> (#[trigger] nodes[j]).node_type == type_for_id(
                nodes[j].innovation as int,
                self.num_sensors as int,
                self.num_outputs as int,
            )
        &&& forall|i: int, j: int|
            0 <= i < j < nodes.len() ==> (#[trigger] nodes[i]).innovation != (
            #[trigger] nodes[j]).innovation
    }

    /// Every node a connection gene names is one of the genome's node genes.
    pub open spec fn nodes_present(self) -> bool {
        forall|i: int|
            0 <= i < self.connection_genes@.len() ==> has_node_id(
                self.node_genes@,
                (#[trigger] self.connection_genes@[i]).input as int,
            ) && has_node_id(self.node_genes@, self.connection_genes@[i].output as int)
    }

    /// No node holds a cached activation value (true outside evaluation).
    pub open spec fn caches_clear(self) -> bool {
        forall|j: int|
            0 <= j < self.node_genes@.len() ==> (
            #[trigger] self.node_genes@[j]).activation_value is None
    }

    /// Well-formedness of a genome relative to its registry, except that the
    /// genome may still be empty (the state during construction).
    pub open spec fn wf0(self, reg: Registry) -> bool {
        &&& self.genes_wf(reg)
        &&& self.nodes_wf(reg)
        &&& self.nodes_present()
        &&& self.caches_clear()
    }

    /// Full well-formedness of a genome relative to its registry: every
    /// genome holds at least one connection gene.
    pub open spec fn wf(self, reg: Registry) -> bool {
        &&& self.wf0(reg)
        &&& self.connection_genes@.len() >= 1
    }

    /// Position of the first node gene with id `id`, if any.
    pub fn find_node(&self, id: usize) -> (r: Option<usize>)
        ensures
            match r {
                Some(j) => j < self.node_genes@.len() && self.node_genes@[j as int].innovation
                    == id && find_pos(self.node_genes@, id as int) == j,
                None => !has_node_id(self.node_genes@, id as int) && find_pos(
                    self.node_genes@,
                    id as int,
                ) == -1,
            },
    {
        let mut j: usize = 0;
        while j < self.node_genes.len()
            invariant
                j <= self.node_genes@.len(),
                forall|t: int| 0 <= t < j ==> (#[trigger] self.node_genes@[t]).innovation != id,
                find_pos(self.node_genes@, id as int) == find_pos_from(
                    self.node_genes@,
                    id as int,
                    j as int,
                ),
            decreases self.node_genes@.len() - j,
        {
            if self.node_genes[j].innovation == id {
                return Some(j);
            }
            j = j + 1;
        }
        None
    }
}

/// A node position that has neither a cached value nor an in-progress mark.
pub open spec fn is_open(nodes: Seq<Node>, busy: Seq<bool>, j: int) -> bool {
    nodes[j].activation_value is None && !busy[j]
}

/// Number of open positions below `n`.
pub open spec fn count_open(nodes: Seq<Node>, busy: Seq<bool>, n: int) -> nat
    decreases n,
{
    if n <= 0 {
        0
    } else {
        count_open(nodes, busy, n - 1) + if is_open(nodes, busy, n - 1) {
            1nat
        } else {
            0nat
        }
    }
}

/// The count is bounded by the prefix length.
pub proof fn lemma_count_le_len(nodes: Seq<Node>, busy: Seq<bool>, n: int)
    ensures
        count_open(nodes, busy, n) <= if n <= 0 {
            0int
        } else {
            n
        },
    decreases n,
{
    if n > 0 {
        lemma_count_le_len(nodes, busy, n - 1);
    }
}

/// Fewer open positions pointwise means a smaller count.
pub proof fn lemma_count_le(
    nodes1: Seq<Node>,
    busy1: Seq<bool>,
    nodes2: Seq<Node>,
    busy2: Seq<bool>,
    n: int,
)
    requires
        forall|j: int| 0 <= j < n && is_open(nodes2, busy2, j) ==> is_open(nodes1, busy1, j),
    ensures
        count_open(nodes2, busy2, n) <= count_open(nodes1, busy1, n),
    decreases n,
{
    if n > 0 {
        lemma_count_le(nodes1, busy1, nodes2, busy2, n - 1);
    }
}

/// Marking an open position drops the count by exactly one.
pub proof fn lemma_count_mark(nodes: Seq<Node>, busy: Seq<bool>, p: int, n: int)
    requires
        0 <= p < n,
        n <= busy.len(),
        is_open(nodes, busy, p),
    ensures
        count_open(nodes, busy.update(p, true), n) == count_open(nodes, busy, n) - 1,
    decreases n,
{
    if p == n - 1 {
        assert forall|j: int| 0 <= j < n - 1 implies is_open(nodes, busy.update(p, true), j)
            == is_open(nodes, busy, j) by {
            assert(busy.update(p, true)[j] == busy[j]);
        }
        lemma_count_eq(nodes, busy, nodes, busy.update(p, true), n - 1);
    } else {
        assert(is_open(nodes, busy.update(p, true), n - 1) == is_open(nodes, busy, n - 1));
        lemma_count_mark(nodes, busy, p, n - 1);
    }
}

/// Prefixes that agree on openness have equal counts.
pub proof fn lemma_count_eq(
    nodes1: Seq<Node>,
    busy1: Seq<bool>,
    nodes2: Seq<Node>,
    busy2: Seq<bool>,
    n: int,
)
    requires
        forall|j: int| 0 <= j < n ==> is_open(nodes2, busy2, j) == is_open(nodes1, busy1, j),
    ensures
        count_open(nodes2, busy2, n) == count_open(nodes1, busy1, n),
    decreases n,
{
    if n > 0 {
        lemma_count_eq(nodes1, busy1, nodes2, busy2, n - 1);
    }
}

/// First position at or after `j` whose node carries id `id`, or -1.
pub open spec fn find_pos_from(nodes: Seq<Node>, id: int, j: int) -> int
    decreases nodes.len() - j,
{
    if j < 0 || j >= nodes.len() {
        -1
    } else if nodes[j].innovation == id {
        j
    } else {
        find_pos_from(nodes, id, j + 1)
    }
}

/// First position of the node gene with id `id`, or -1.
pub open spec fn find_pos(nodes: Seq<Node>, id: int) -> int {
    find_pos_from(nodes, id, 0)
}

/// All cached activation values lie in the scalar domain.
pub open spec fn vals_ok(nodes: Seq<Node>) -> bool {
    forall|j: int|
        0 <= j < nodes.len() ==> match (#[trigger] nodes[j]).activation_value {
            Some(v) => in_range(v as int),
            None => true,
        }
}

/// The evaluation state `(n2, b2)` evolves from `(n1, b1)`: same shape and
/// node identities, marks only appear, cached values only appear and never
/// change.
pub open spec fn eval_evolves(
    n1: Seq<Node>,
    b1: Seq<bool>,
    n2: Seq<Node>,
    b2: Seq<bool>,
) -> bool {
    &&& n2.len() == n1.len()
    &&& b1.len() == n1.len()
    &&& b2.len() == b1.len()
    &&& forall|j: int|
        0 <= j < n1.len() ==> (#[trigger] n2[j]).innovation == n1[j].innovation && n2[j].node_type
            == n1[j].node_type
    &&& forall|j: int| 0 <= j < b1.len() && b1[j] ==> #[trigger] b2[j]
    &&& forall|j: int|
        0 <= j < n1.len() && (#[trigger] n1[j]).activation_value is Some ==> n2[j].activation_value
            == n1[j].activation_value
    &&& forall|j: int|
        0 <= j < n1.len() && #[trigger] b1[j] ==> n2[j].activation_value == n1[j].activation_value
}

/// Evaluate the node at position `pos`, memoized: mirror of
/// [`Network::evaluate_node`]. Returns the evolved state and the node's
/// activation value, or `None` on a cycle, a missing node, or exhausted fuel
/// (the executable code always supplies enough fuel).
pub open spec fn eval_node_s(
    nodes: Seq<Node>,
    busy: Seq<bool>,
    conns: Seq<Connection>,
    pos: int,
    fuel: nat,
) -> (Seq<Node>, Seq<bool>, Option<i64>)
    decreases fuel, 1int, 0int,
{
    if !(0 <= pos < nodes.len()) || busy.len() != nodes.len() {
        (nodes, busy, None)
    } else {
        match nodes[pos].activation_value {
            Some(v) => (nodes, busy, Some(v)),
            None => {
                if busy[pos] {
                    (nodes, busy, None)
                } else {
                    let busy1 = busy.update(pos, true);
                    let r = eval_conns_s(
                        nodes,
                        busy1,
                        conns,
                        nodes[pos].innovation as int,
                        0,
                        0,
                        fuel,
                    );
                    match r.2 {
                        Some(acc) => {
                            let v = crate::genes::activation_spec(
                                nodes[pos].node_type,
                                acc as int,
                            ) as i64;
                            let nd = Node {
                                innovation: r.0[pos].innovation,
                                node_type: r.0[pos].node_type,
                                activation_value: Some(v),
                            };
                            (r.0.update(pos, nd), r.1, Some(v))
                        },
                        None => (r.0, r.1, None),
                    }
                }
            },
        }
    }
}

/// Fold the incoming enabled connections `conns[i..]` of the node with id
/// `target_id` into the weighted sum `acc`, resolving uncached sources
/// recursively.
pub open spec fn eval_conns_s(
    nodes: Seq<Node>,
    busy: Seq<bool>,
    conns: Seq<Connection>,
    target_id: int,
    i: int,
    acc: i64,
    fuel: nat,
) -> (Seq<Node>, Seq<bool>, Option<i64>)
    decreases fuel, 0int, conns.len() - i,
{
    if i < 0 || i >= conns.len() {
        (nodes, busy, Some(acc))
    } else if !(conns[i].enabled && conns[i].output as int == target_id) {
        eval_conns_s(nodes, busy, conns, target_id, i + 1, acc, fuel)
    } else {
        let ppos = find_pos(nodes, conns[i].input as int);
        if ppos < 0 {
            (nodes, busy, None)
        } else {
            match nodes[ppos].activation_value {
                Some(pv) => eval_conns_s(
                    nodes,
                    busy,
                    conns,
                    target_id,
                    i + 1,
                    crate::fixed::add_sat_spec(
                        acc as int,
                        crate::fixed::mul_sat_spec(conns[i].weight as int, pv as int),
                    ) as i64,
                    fuel,
                ),
                None => {
                    if fuel == 0 {
                        (nodes, busy, None)
                    } else {
                        let r = eval_node_s(nodes, busy, conns, ppos, (fuel - 1) as nat);
                        match r.2 {
                            Some(pv) => eval_conns_s(
                                r.0,
                                r.1,
                                conns,
                                target_id,
                                i + 1,
                                crate::fixed::add_sat_spec(
                                    acc as int,
                                    crate::fixed::mul_sat_spec(conns[i].weight as int, pv as int),
                                ) as i64,
                                fuel,
                            ),
                            None => (r.0, r.1, None),
                        }
                    }
                },
            }
        }
    }
}

/// The result as the spec sees it.
pub open spec fn res_opt(r: Result<i64, NeatError>) -> Option<i64> {
    match r {
        Ok(v) => Some(v),
        Err(_) => None,
    }
}

/// The sensor nodes fed their inputs in order: mirror of the input loop.
pub open spec fn set_inputs_s(nodes: Seq<Node>, inputs: Seq<i64>, i: int) -> Seq<Node>
    decreases inputs.len() - i,
{
    if i < 0 || i >= inputs.len() || i >= nodes.len() {
        nodes
    } else {
        let nd = Node {
            innovation: nodes[i].innovation,
            node_type: nodes[i].node_type,
            activation_value: Some(
                crate::genes::activation_spec(nodes[i].node_type, inputs[i] as int) as i64,
            ),
        };
        set_inputs_s(nodes.update(i, nd), inputs, i + 1)
    }
}

/// Evaluate the nodes at positions `pos..end` in order, collecting their
/// values after `acc`; each gets the full fuel budget of one node count.
pub open spec fn eval_outputs_s(
    nodes: Seq<Node>,
    busy: Seq<bool>,
    conns: Seq<Connection>,
    pos: int,
    end: int,
    acc: Seq<i64>,
) -> (Seq<Node>, Seq<bool>, Option<Seq<i64>>)
    decreases end - pos,
{
    if pos >= end {
        (nodes, busy, Some(acc))
    } else {
        let r = eval_node_s(nodes, busy, conns, pos, nodes.len() as nat);
        match r.2 {
            None => (r.0, r.1, None),
            Some(v) => eval_outputs_s(r.0, r.1, conns, pos + 1, end, acc.push(v)),
        }
    }
}

/// One full evaluation pass as a function of the genome and the inputs:
/// sensors take their inputs, the bias takes 1.0, and each output node is
/// resolved by the memoized recursion. `None` marks the defensive failures
/// (cycle, missing node), which a well-formed genome never produces.
pub open spec fn feed_forward_spec(net: Network, inputs: Seq<i64>) -> Option<Seq<i64>> {
    let ns = net.num_sensors as int;
    let n1 = set_inputs_s(net.node_genes@, inputs, 0);
    let bias = Node {
        innovation: n1[ns].innovation,
        node_type: n1[ns].node_type,
        activation_value: Some(
            crate::genes::activation_spec(n1[ns].node_type, crate::fixed::SCALE as int) as i64,
        ),
    };
    let n2 = n1.update(ns, bias);
    let b0 = Seq::new(n2.len(), |j: int| false);
    eval_outputs_s(
        n2,
        b0,
        net.connection_genes@,
        ns + 1,
        ns + 1 + net.num_outputs as int,
        Seq::empty(),
    ).2
}

/// An open position keeps the count positive.
pub proof fn lemma_count_pos(nodes: Seq<Node>, busy: Seq<bool>, p: int, n: int)
    requires
        0 <= p < n,
        is_open(nodes, busy, p),
    ensures
        count_open(nodes, busy, n) >= 1,
    decreases n,
{
    if p < n - 1 {
        lemma_count_pos(nodes, busy, p, n - 1);
    }
}

/// Evolution of evaluation states composes.
pub proof fn lemma_evolves_trans(
    n1: Seq<Node>,
    b1: Seq<bool>,
    n2: Seq<Node>,
    b2: Seq<bool>,
    n3: Seq<Node>,
    b3: Seq<bool>,
)
    requires
        eval_evolves(n1, b1, n2, b2),
        eval_evolves(n2, b2, n3, b3),
    ensures
        eval_evolves(n1, b1, n3, b3),
{
    assert forall|j: int|
        0 <= j < n1.len() && (#[trigger] n1[j]).activation_value is Some implies n3[
        j
    ].activation_value == n1[j].activation_value by {
        assert(n2[j].activation_value == n1[j].activation_value);
    }
    assert forall|j: int|
        0 <= j < n1.len() && #[trigger] b1[j] implies n3[j].activation_value == n1[
        j
    ].activation_value by {
        assert(b2[j]);
        assert(n2[j].activation_value == n1[j].activation_value);
    }
}

/// Whatever is open after an evolution was open before it.
pub proof fn lemma_evolves_open(n1: Seq<Node>, b1: Seq<bool>, n2: Seq<Node>, b2: Seq<bool>)
    requires
        eval_evolves(n1, b1, n2, b2),
    ensures
        forall|j: int| 0 <= j < n1.len() && is_open(n2, b2, j) ==> is_open(n1, b1, j),
{
    assert forall|j: int| 0 <= j < n1.len() && is_open(n2, b2, j) implies is_open(n1, b1, j) by {
        if n1[j].activation_value is Some {
            assert(n2[j].activation_value == n1[j].activation_value);
        }
        if b1[j] {
            assert(b2[j]);
        }
    }
}

/// The acyclicity invariant, stated of the genome itself: a well-formed
/// genome's enabled connections admit no walk from any node back to itself.
/// This holds after any sequence of mutations because every operator
/// preserves well-formedness of genome and registry.
pub proof fn lemma_genome_acyclic(net: Network, reg: Registry)
    requires
        reg.wf(),
        net.wf(reg),
    ensures
        acyclic(enabled_edges(net.connection_genes@)),
        forall|p: Seq<int>|
            !(#[trigger] is_path(enabled_edges(net.connection_genes@), p) && p.len() >= 2
                && p.first() == p.last()),
{
    let en = enabled_edges(net.connection_genes@);
    let g = edges_of(reg.connection_list@);
    let g2 = g.push((-1int, -2int));
    assert forall|i: int| 0 <= i < g.len() implies (#[trigger] g[i]).0 != -2int by {
        assert(reg.connection_list@[i].input >= 0);
    }
    if reaches(g, -2int, -1int) {
        lemma_no_out_edges(g, -2int, -1int);
    }
    lemma_acyclic_push(g, -1int, -2int);
    assert forall|x: int, y: int| #[trigger] has_edge(en, x, y) implies has_edge(g2, x, y) by {
        let i = choose|i: int| 0 <= i < en.len() && en[i] == (x, y);
        let c = net.connection_genes@[i];
        if c.enabled {
            assert(reg.connection_list@[c.innovation as int].input == c.input
                && reg.connection_list@[c.innovation as int].output == c.output);
            assert(g[c.innovation as int] == (c.input as int, c.output as int));
            assert(g2[c.innovation as int] == (x, y));
        } else {
            assert(g2[g.len() as int] == (x, y));
        }
    }
    lemma_acyclic_subgraph(en, g2);
    lemma_acyclic_no_self_cycle(en);
}

/// Pairwise-distinct innovation ids (implied by strict sorting).
pub open spec fn unique_ids(genes: Seq<Connection>) -> bool {
    forall|a: int, b: int|
        0 <= a < b < genes.len() ==> (#[trigger] genes[a]).innovation != (
        #[trigger] genes[b]).innovation
}

/// The gene carrying innovation id `id`, if the genome holds one. With
/// pairwise-distinct ids this is the genome's gene map; the contracts of the
/// structural mutations state their effect through it.
pub open spec fn gene_at(genes: Seq<Connection>, id: int) -> Option<Connection> {
    if exists|i: int| 0 <= i < genes.len() && (#[trigger] genes[i]).innovation == id {
        Some(
            genes[choose|i: int|
                0 <= i < genes.len() && (#[trigger] genes[i]).innovation == id],
        )
    } else {
        None
    }
}

/// Under distinct ids, the gene map sends a position's id to that position's
/// gene.
pub proof fn lemma_gene_at_index(genes: Seq<Connection>, i: int)
    requires
        unique_ids(genes),
        0 <= i < genes.len(),
    ensures
        gene_at(genes, genes[i].innovation as int) == Some(genes[i]),
{
    let id = genes[i].innovation as int;
    assert(genes[i].innovation == id);
    let j = choose|j: int| 0 <= j < genes.len() && (#[trigger] genes[j]).innovation == id;
    if j != i {
        if j < i {
            assert(genes[j].innovation != genes[i].innovation);
        } else {
            assert(genes[i].innovation != genes[j].innovation);
        }
        assert(false);
    }
}

/// An id no gene carries maps to nothing.
pub proof fn lemma_gene_at_none(genes: Seq<Connection>, id: int)
    requires
        forall|i: int| 0 <= i < genes.len() ==> (#[trigger] genes[i]).innovation != id,
    ensures
        gene_at(genes, id) == None::<Connection>,
{
}

/// Overwriting one position with a gene of the same id updates the gene map
/// at that id alone.
pub proof fn lemma_gene_at_update(genes: Seq<Connection>, p: int, g: Connection)
    requires
        unique_ids(genes),
        0 <= p < genes.len(),
        g.innovation == genes[p].innovation,
    ensures
        unique_ids(genes.update(p, g)),
        gene_at(genes.update(p, g), g.innovation as int) == Some(g),
        forall|id: int|
            id != g.innovation ==> gene_at(genes.update(p, g), id) == gene_at(genes, id),
{
    let up = genes.update(p, g);
    assert forall|a: int, b: int|
        0 <= a < b < up.len() implies (#[trigger] up[a]).innovation != (
    #[trigger] up[b]).innovation by {
        assert(genes[a].innovation != genes[b].innovation);
    }
    lemma_gene_at_index(up, p);
    assert forall|id: int| id != g.innovation implies gene_at(up, id) == gene_at(genes, id) by {
        if exists|i: int| 0 <= i < genes.len() && (#[trigger] genes[i]).innovation == id {
            let i = choose|i: int| 0 <= i < genes.len() && (#[trigger] genes[i]).innovation == id;
            assert(i != p);
            assert(up[i].innovation == id);
            lemma_gene_at_index(up, i);
            lemma_gene_at_index(genes, i);
        } else {
            if exists|i: int| 0 <= i < up.len() && (#[trigger] up[i]).innovation == id {
                let i = choose|i: int| 0 <= i < up.len() && (#[trigger] up[i]).innovation == id;
                assert(i != p);
                assert(genes[i].innovation == id);
                assert(false);
            }
        }
    }
}

/// Inserting a gene with a fresh id extends the gene map at that id alone.
pub proof fn lemma_gene_at_insert(genes: Seq<Connection>, p: int, g: Connection)
    requires
        unique_ids(genes),
        0 <= p <= genes.len(),
        forall|i: int| 0 <= i < genes.len() ==> (#[trigger] genes[i]).innovation != g.innovation,
    ensures
        unique_ids(genes.insert(p, g)),
        gene_at(genes.insert(p, g), g.innovation as int) == Some(g),
        forall|id: int|
            id != g.innovation ==> gene_at(genes.insert(p, g), id) == gene_at(genes, id),
{
    let ins = genes.insert(p, g);
    assert forall|a: int, b: int|
        0 <= a < b < ins.len() implies (#[trigger] ins[a]).innovation != (
    #[trigger] ins[b]).innovation by {
        let av = if a < p {
            genes[a]
        } else if a == p {
            g
        } else {
            genes[a - 1]
        };
        let bv = if b < p {
            genes[b]
        } else if b == p {
            g
        } else {
            genes[b - 1]
        };
        assert(ins[a] == av && ins[b] == bv);
    }
    assert(ins[p] == g);
    lemma_gene_at_index(ins, p);
    assert forall|id: int| id != g.innovation implies gene_at(ins, id) == gene_at(genes, id) by {
        if exists|i: int| 0 <= i < genes.len() && (#[trigger] genes[i]).innovation == id {
            let i = choose|i: int| 0 <= i < genes.len() && (#[trigger] genes[i]).innovation == id;
            let i2 = if i < p {
                i
            } else {
                i + 1
            };
            assert(ins[i2] == genes[i]);
            lemma_gene_at_index(ins, i2);
            lemma_gene_at_index(genes, i);
        } else {
            if exists|i: int| 0 <= i < ins.len() && (#[trigger] ins[i]).innovation == id {
                let i = choose|i: int| 0 <= i < ins.len() && (#[trigger] ins[i]).innovation == id;
                assert(i != p);
                let iv = if i < p {
                    genes[i]
                } else {
                    genes[i - 1]
                };
                assert(ins[i] == iv);
                assert(false);
            }
        }
    }
}

/// Number of `true` entries below `n`.
pub open spec fn count_true(marks: Seq<bool>, n: int) -> nat
    decreases n,
{
    if n <= 0 {
        0
    } else {
        count_true(marks, n - 1) + if marks[n - 1] {
            1nat
        } else {
            0nat
        }
    }
}

/// Clearing a set entry drops the count by one.
pub proof fn lemma_count_true_unmark(marks: Seq<bool>, p: int, n: int)
    requires
        0 <= p < n,
        n <= marks.len(),
        marks[p],
    ensures
        count_true(marks.update(p, false), n) == count_true(marks, n) - 1,
    decreases n,
{
    if p == n - 1 {
        lemma_count_true_frame(marks, marks.update(p, false), n - 1);
    } else {
        lemma_count_true_unmark(marks, p, n - 1);
    }
}

/// Prefixes that agree entrywise have equal counts.
pub proof fn lemma_count_true_frame(m1: Seq<bool>, m2: Seq<bool>, n: int)
    requires
        forall|j: int| 0 <= j < n ==> m1[j] == m2[j],
    ensures
        count_true(m1, n) == count_true(m2, n),
    decreases n,
{
    if n > 0 {
        lemma_count_true_frame(m1, m2, n - 1);
    }
}

/// The exact effect of splitting the gene at position `pick` (with middle
/// node `k`): through the genome's gene map, the picked gene is disabled,
/// the incoming half `source -> k` (weight 1.0) and the outgoing half
/// `k -> target` (the original weight) stand enabled under the registry's
/// two recorded consecutive ids, every other id is untouched, and the node
/// `k` is appended as a hidden node unless the genome already holds it.
#[verifier::opaque]
pub open spec fn split_effect(
    pre: Network,
    post: Network,
    rpost: Registry,
    pick: int,
    k: usize,
) -> bool {
    let g = pre.connection_genes@[pick];
    let c = g.innovation as int;
    let cid = rpost.split_conn_of(g.innovation);
    &&& rpost.has_split(g.innovation)
    &&& k == rpost.split_node_of(g.innovation)
    &&& gene_at(post.connection_genes@, c) == Some(Connection { enabled: false, ..g })
    &&& gene_at(post.connection_genes@, cid) == Some(
        Connection {
            innovation: cid as usize,
            input: g.input,
            output: k,
            weight: crate::fixed::SCALE,
            enabled: true,
        },
    )
    &&& gene_at(post.connection_genes@, cid + 1) == Some(
        Connection {
            innovation: (cid + 1) as usize,
            input: k,
            output: g.output,
            weight: g.weight,
            enabled: true,
        },
    )
    &&& forall|id: int|
        id != c && id != cid && id != cid + 1 ==> gene_at(post.connection_genes@, id) == gene_at(
            pre.connection_genes@,
            id,
        )
    &&& 0 <= cid && cid + 1 < rpost.connection_list@.len()
    &&& rpost.connection_list@[cid].input == g.input
    &&& rpost.connection_list@[cid].output == k
    &&& rpost.connection_list@[cid + 1].input == k
    &&& rpost.connection_list@[cid + 1].output == g.output
    &&& post.connection_genes@.len() >= pre.connection_genes@.len()
    &&& post.node_genes@ == if has_node_id(pre.node_genes@, k as int) {
        pre.node_genes@
    } else {
        pre.node_genes@.push(Node { innovation: k, node_type: Type::Hidden, activation_value: None })
    }
}

/// The split preserves the split edge's immediate function: for any
/// nonnegative upstream activation `x`, the new path (weight 1.0 into the
/// hidden node, the original weight `w` out of it) contributes to the target
/// exactly what the split edge of weight `w` contributed.
pub proof fn lemma_split_preserves_function(w: i64, x: i64)
    requires
        in_range(w as int),
        in_range(x as int),
        x >= 0,
    ensures
        crate::fixed::mul_sat_spec(
            w as int,
            crate::genes::activation_spec(
                Type::Hidden,
                crate::fixed::mul_sat_spec(crate::fixed::SCALE as int, x as int),
            ),
        ) == crate::fixed::mul_sat_spec(w as int, x as int),
{
    assert((crate::fixed::SCALE as int) * (x as int) >= 0 && (crate::fixed::SCALE as int) * (
    x as int) / (crate::fixed::SCALE as int) == x as int) by (nonlinear_arith)
        requires
            x >= 0,
    ;
}

/// The exact effect of a performed add-connection mutation: either a gene
/// this genome already held (under the globally known id of the drawn pair)
/// is re-enabled with a freshly drawn weight, or one new enabled gene is
/// inserted whose endpoints are nodes of this genome and whose innovation id
/// carries exactly its pair in the registry -- an existing record (registry
/// untouched) or a newly appended one.
#[verifier::opaque]
pub open spec fn add_connection_effect(
    pre: Network,
    rpre: Registry,
    post: Network,
    rpost: Registry,
) -> bool {
    ||| exists|i: int, g2: Connection|
        {
            &&& 0 <= i < pre.connection_genes@.len()
            &&& g2 == (Connection { weight: g2.weight, enabled: true, ..pre.connection_genes@[i] })
            &&& -393216 <= g2.weight <= 393216
            &&& post.connection_genes@ == #[trigger] pre.connection_genes@.update(i, g2)
            &&& rpost == rpre
        }
    ||| exists|p: int, ng: Connection|
        {
            &&& 0 <= p <= pre.connection_genes@.len()
            &&& post.connection_genes@ == #[trigger] pre.connection_genes@.insert(p, ng)
            &&& ng.enabled
            &&& -393216 <= ng.weight <= 393216
            &&& forall|t: int|
                0 <= t < pre.connection_genes@.len() ==> (#[trigger] pre.connection_genes@[t]).innovation
                    != ng.innovation
            &&& ng.innovation < rpost.connection_list@.len()
            &&& rpost.connection_list@[ng.innovation as int].input == ng.input
            &&& rpost.connection_list@[ng.innovation as int].output == ng.output
            &&& has_node_id(pre.node_genes@, ng.input as int)
            &&& has_node_id(pre.node_genes@, ng.output as int)
            &&& ((ng.innovation < rpre.connection_list@.len() && rpost == rpre) || (ng.innovation
                == rpre.connection_list@.len() && rpost.connection_list@
                == rpre.connection_list@.push(
                Connection {
                    innovation: ng.innovation,
                    input: ng.input,
                    output: ng.output,
                    weight: 0,
                    enabled: true,
                },
            )))
        }
}

/// The frame every mutation respects, stated over the gene map: ids never
/// vanish, a gene's endpoints never change, and a gene is only ever disabled
/// by a split that the registry records under its id.
pub open spec fn genes_frame(pre: Seq<Connection>, post: Seq<Connection>, rpost: Registry) -> bool {
    &&& post.len() >= pre.len()
    &&& forall|id: int|
        match #[trigger] gene_at(pre, id) {
            Some(g) => match gene_at(post, id) {
                Some(g2) => g2.input == g.input && g2.output == g.output && (g.enabled
                    && !g2.enabled ==> rpost.has_split(g.innovation)),
                None => false,
            },
            None => true,
        }
}

/// The frame composes, as long as the later registry keeps the earlier
/// split records.
pub proof fn lemma_genes_frame_trans(
    a: Seq<Connection>,
    b: Seq<Connection>,
    c: Seq<Connection>,
    r1: Registry,
    r2: Registry,
)
    requires
        genes_frame(a, b, r1),
        genes_frame(b, c, r2),
        r1.node_mutations@.len() <= r2.node_mutations@.len(),
        forall|m: int|
            0 <= m < r1.node_mutations@.len() ==> r2.node_mutations@[m] == r1.node_mutations@[m],
    ensures
        genes_frame(a, c, r2),
{
    assert forall|id: int|
        match #[trigger] gene_at(a, id) {
            Some(g) => match gene_at(c, id) {
                Some(g2) => g2.input == g.input && g2.output == g.output && (g.enabled
                    && !g2.enabled ==> r2.has_split(g.innovation)),
                None => false,
            },
            None => true,
        } by {
        match gene_at(a, id) {
            Some(g) => {
                match gene_at(b, id) {
                    Some(gm) => {
                        match gene_at(c, id) {
                            Some(g2) => {
                                if g.enabled && !g2.enabled {
                                    if gm.enabled {
                                        assert(r2.has_split(gm.innovation));
                                        assert(gm.innovation == g.innovation) by {
                                            assert(gene_at(a, id) == Some(g));
                                            assert(gene_at(b, id) == Some(gm));
                                        }
                                    } else {
                                        assert(r1.has_split(g.innovation));
                                        let m = choose|m: int|
                                            0 <= m < r1.node_mutations@.len() && (
                                            #[trigger] r1.node_mutations@[m]).0 == g.innovation;
                                        assert(r2.node_mutations@[m].0 == g.innovation);
                                        assert(r2.has_split(g.innovation));
                                    }
                                }
                            },
                            None => {},
                        }
                    },
                    None => {},
                }
            },
            None => {},
        }
    }
}

/// Overwriting one gene with a copy that differs only in its weight
/// respects the frame.
pub proof fn lemma_frame_weight(g0: Seq<Connection>, idx: int, gene: Connection, r: Registry)
    requires
        forall|a: int, b: int|
            0 <= a < b < g0.len() ==> (#[trigger] g0[a]).innovation < (
            #[trigger] g0[b]).innovation,
        0 <= idx < g0.len(),
        gene.innovation == g0[idx].innovation,
        gene.input == g0[idx].input,
        gene.output == g0[idx].output,
        gene.enabled == g0[idx].enabled,
    ensures
        genes_frame(g0, g0.update(idx, gene), r),
{
    assert forall|a: int, b: int|
        0 <= a < b < g0.len() implies (#[trigger] g0[a]).innovation != (
    #[trigger] g0[b]).innovation by {
        assert(g0[a].innovation < g0[b].innovation);
    }
    lemma_gene_at_index(g0, idx);
    lemma_gene_at_update(g0, idx, gene);
}

/// A split respects the frame: only the split gene is disabled, under a
/// registry that records its split; the two half-genes keep the endpoints
/// the registry already fixed for their ids.
pub proof fn lemma_frame_split(
    pre: Network,
    post: Network,
    rpost: Registry,
    r1: Registry,
    pick: int,
    kk: usize,
)
    requires
        split_effect(pre, post, rpost, pick, kk),
        0 <= pick < pre.connection_genes@.len(),
        forall|a: int, b: int|
            0 <= a < b < pre.connection_genes@.len() ==> (
            #[trigger] pre.connection_genes@[a]).innovation < (
            #[trigger] pre.connection_genes@[b]).innovation,
        forall|i: int|
            0 <= i < pre.connection_genes@.len() ==> (
            #[trigger] pre.connection_genes@[i]).innovation < r1.connection_list@.len()
                && r1.connection_list@[pre.connection_genes@[i].innovation as int].input
                == pre.connection_genes@[i].input && r1.connection_list@[
                pre.connection_genes@[i].innovation as int
            ].output == pre.connection_genes@[i].output,
        r1.connection_list@.len() <= rpost.connection_list@.len(),
        forall|i: int|
            0 <= i < r1.connection_list@.len() ==> rpost.connection_list@[i]
                == r1.connection_list@[i],
    ensures
        genes_frame(pre.connection_genes@, post.connection_genes@, rpost),
{
    reveal(split_effect);
    let s1 = pre.connection_genes@;
    let c = s1[pick].innovation as int;
    let cid = rpost.split_conn_of(s1[pick].innovation);
    assert forall|a: int, b: int|
        0 <= a < b < s1.len() implies (#[trigger] s1[a]).innovation != (
    #[trigger] s1[b]).innovation by {
        assert(s1[a].innovation < s1[b].innovation);
    }
    lemma_gene_at_index(s1, pick);
    assert forall|id: int|
        match #[trigger] gene_at(s1, id) {
            Some(g) => match gene_at(post.connection_genes@, id) {
                Some(g2) => g2.input == g.input && g2.output == g.output && (g.enabled
                    && !g2.enabled ==> rpost.has_split(g.innovation)),
                None => false,
            },
            None => true,
        } by {
        match gene_at(s1, id) {
            Some(g) => {
                if id == c {
                    assert(g == s1[pick]);
                } else if id == cid || id == cid + 1 {
                    let w = choose|w: int| 0 <= w < s1.len() && (#[trigger] s1[w]).innovation == id;
                    assert(g == s1[w]);
                    assert(g.innovation < r1.connection_list@.len());
                    assert(rpost.connection_list@[id] == r1.connection_list@[id]);
                    assert(g.input == r1.connection_list@[id].input && g.output
                        == r1.connection_list@[id].output);
                }
            },
            None => {},
        }
    }
}

/// A performed or skipped add-connection mutation respects the frame.
pub proof fn lemma_frame_add_conn(pre: Network, rpre: Registry, post: Network, rpost: Registry)
    requires
        forall|a: int, b: int|
            0 <= a < b < pre.connection_genes@.len() ==> (
            #[trigger] pre.connection_genes@[a]).innovation < (
            #[trigger] pre.connection_genes@[b]).innovation,
        add_connection_effect(pre, rpre, post, rpost) || post.connection_genes@
            == pre.connection_genes@,
        post.connection_genes@.len() >= pre.connection_genes@.len(),
    ensures
        genes_frame(pre.connection_genes@, post.connection_genes@, rpost),
{
    reveal(add_connection_effect);
    let s2 = pre.connection_genes@;
    assert forall|a: int, b: int|
        0 <= a < b < s2.len() implies (#[trigger] s2[a]).innovation != (
    #[trigger] s2[b]).innovation by {
        assert(s2[a].innovation < s2[b].innovation);
    }
    if post.connection_genes@ == s2 {
    } else {
        if exists|i: int, g2: Connection|
            {
                &&& 0 <= i < s2.len()
                &&& g2 == (Connection { weight: g2.weight, enabled: true, ..s2[i] })
                &&& -393216 <= g2.weight <= 393216
                &&& post.connection_genes@ == #[trigger] s2.update(i, g2)
                &&& rpost == rpre
            } {
            let (i, g2): (int, Connection) = choose|i: int, g2: Connection|
                {
                    &&& 0 <= i < s2.len()
                    &&& g2 == (Connection { weight: g2.weight, enabled: true, ..s2[i] })
                    &&& -393216 <= g2.weight <= 393216
                    &&& post.connection_genes@ == #[trigger] s2.update(i, g2)
                    &&& rpost == rpre
                };
            lemma_gene_at_index(s2, i);
            lemma_gene_at_update(s2, i, g2);
        } else {
            let (p, ng): (int, Connection) = choose|p: int, ng: Connection|
                {
                    &&& 0 <= p <= s2.len()
                    &&& post.connection_genes@ == #[trigger] s2.insert(p, ng)
                    &&& forall|t: int|
                        0 <= t < s2.len() ==> (#[trigger] s2[t]).innovation != ng.innovation
                };
            lemma_gene_at_insert(s2, p, ng);
        }
    }
}

/// A genome stays well-formed when its registry only grows: existing
/// connection records and the id layout are untouched by later mutations.
pub proof fn lemma_wf_registry_growth(net: Network, r1: Registry, r2: Registry)
    requires
        net.wf0(r1),
        r2.num_sensors == r1.num_sensors,
        r2.num_outputs == r1.num_outputs,
        r2.node_innovation >= r1.node_innovation,
        r1.connection_list@.len() <= r2.connection_list@.len(),
        forall|i: int|
            0 <= i < r1.connection_list@.len() ==> r2.connection_list@[i]
                == r1.connection_list@[i],
    ensures
        net.wf0(r2),
{
    assert forall|i: int| 0 <= i < net.connection_genes@.len() implies {
        let g = #[trigger] net.connection_genes@[i];
        g.innovation < r2.connection_list@.len() && r2.connection_list@[g.innovation as int].input
            == g.input && r2.connection_list@[g.innovation as int].output == g.output && in_range(
            g.weight as int,
        )
    } by {
        let g = net.connection_genes@[i];
        assert(r2.connection_list@[g.innovation as int] == r1.connection_list@[
            g.innovation as int
        ]);
    }
}

impl Network {
    /// Memoized recursive evaluation of one node: the cached value if
    /// present, otherwise the activation of the weighted sum over all enabled
    /// incoming connections, resolving uncached sources recursively. An
    /// in-progress marker defensively rejects cycles instead of recursing
    /// forever. The result and the evolved state are pinned exactly by
    /// [`eval_node_s`].
    #[verifier::loop_isolation(false)]
    fn evaluate_node(&mut self, pos: usize, busy: &mut Vec<bool>) -> (r: Result<i64, NeatError>)
        requires
            pos < old(self).node_genes@.len(),
            old(busy)@.len() == old(self).node_genes@.len(),
            forall|i: int|
                0 <= i < old(self).connection_genes@.len() ==> in_range(
                    (#[trigger] old(self).connection_genes@[i]).weight as int,
                ),
            vals_ok(old(self).node_genes@),
        ensures
            final(self).connection_genes@ == old(self).connection_genes@,
            final(self).num_sensors == old(self).num_sensors,
            final(self).num_outputs == old(self).num_outputs,
            eval_evolves(old(self).node_genes@, old(busy)@, final(self).node_genes@, final(busy)@),
            vals_ok(final(self).node_genes@),
            match r {
                Ok(v) => in_range(v as int),
                Err(e) => e == NeatError::CycleDetected || e == NeatError::MissingNode,
            },
            forall|fuel: nat|
                fuel + 1 >= count_open(
                    old(self).node_genes@,
                    old(busy)@,
                    old(self).node_genes@.len() as int,
                ) ==> #[trigger] eval_node_s(
                    old(self).node_genes@,
                    old(busy)@,
                    old(self).connection_genes@,
                    pos as int,
                    fuel,
                ) == (final(self).node_genes@, final(busy)@, res_opt(r)),
        decreases count_open(self.node_genes@, busy@, self.node_genes@.len() as int),
    {
        let ghost n0 = self.node_genes@;
        let ghost b0 = busy@;
        let ghost cns = self.connection_genes@;
        let ghost len = n0.len() as int;

        match self.node_genes[pos].activation_value {
            Some(v) => {
                return Ok(v);
            },
            None => {},
        }
        if busy[pos] {
            return Err(NeatError::CycleDetected);
        }
        busy.set(pos, true);
        let ghost b1 = b0.update(pos as int, true);
        proof {
            assert(busy@ =~= b1);
            lemma_count_mark(n0, b0, pos as int, len);
            assert(eval_evolves(n0, b0, n0, b1));
        }
        let target_id: usize = self.node_genes[pos].innovation;
        let mut acc: i64 = 0;
        let mut i: usize = 0;
        while i < self.connection_genes.len()
            invariant
                i <= cns.len(),
                self.connection_genes@ == cns,
                self.num_sensors == old(self).num_sensors,
                self.num_outputs == old(self).num_outputs,
                eval_evolves(n0, b1, self.node_genes@, busy@),
                vals_ok(self.node_genes@),
                in_range(acc as int),
                forall|fuel: nat|
                    fuel >= count_open(n0, b1, len) ==> #[trigger] eval_conns_s(
                        n0,
                        b1,
                        cns,
                        target_id as int,
                        0,
                        0,
                        fuel,
                    ) == eval_conns_s(
                        self.node_genes@,
                        busy@,
                        cns,
                        target_id as int,
                        i as int,
                        acc,
                        fuel,
                    ),
            decreases cns.len() - i,
        {
            let ghost nc = self.node_genes@;
            let ghost bc = busy@;
            let c = self.connection_genes[i];
            if c.enabled && c.output == target_id {
                match self.find_node(c.input) {
                    None => {
                        proof {
                            assert forall|fuel: nat|
                                fuel + 1 >= count_open(n0, b0, len) implies #[trigger] eval_node_s(
                                n0,
                                b0,
                                cns,
                                pos as int,
                                fuel,
                            ) == (self.node_genes@, busy@, res_opt(
                                Result::<i64, NeatError>::Err(NeatError::MissingNode),
                            )) by {
                                assert(eval_conns_s(n0, b1, cns, target_id as int, 0, 0, fuel)
                                    == eval_conns_s(nc, bc, cns, target_id as int, i as int, acc, fuel));
                                assert(eval_conns_s(nc, bc, cns, target_id as int, i as int, acc, fuel)
                                    == (nc, bc, Option::<i64>::None));
                            }
                        }
                        proof {
                            lemma_evolves_trans(n0, b0, n0, b1, self.node_genes@, busy@);
                        }
                        return Err(NeatError::MissingNode);
                    },
                    Some(ppos) => {
                        let mut pv: i64 = 0;
                        let mut cache_hit = false;
                        match self.node_genes[ppos].activation_value {
                            Some(cached) => {
                                pv = cached;
                                cache_hit = true;
                            },
                            None => {},
                        }
                        if !cache_hit {
                            if busy[ppos] {
                                proof {
                                    lemma_evolves_trans(n0, b0, n0, b1, nc, bc);
                                    assert forall|fuel: nat|
                                        fuel + 1 >= count_open(n0, b0, len) implies #[trigger] eval_node_s(
                                        n0,
                                        b0,
                                        cns,
                                        pos as int,
                                        fuel,
                                    ) == (nc, bc, res_opt(
                                        Result::<i64, NeatError>::Err(NeatError::CycleDetected),
                                    )) by {
                                        assert(eval_conns_s(n0, b1, cns, target_id as int, 0, 0, fuel)
                                            == eval_conns_s(nc, bc, cns, target_id as int, i as int, acc, fuel));
                                        if fuel != 0 {
                                            assert(eval_node_s(nc, bc, cns, ppos as int, (fuel - 1) as nat)
                                                == (nc, bc, Option::<i64>::None));
                                        }
                                    }
                                }
                                return Err(NeatError::CycleDetected);
                            }
                            proof {
                                lemma_evolves_open(n0, b1, nc, bc);
                                lemma_count_le(n0, b1, nc, bc, len);
                                lemma_count_pos(nc, bc, ppos as int, len);
                            }
                            let sub = self.evaluate_node(ppos, busy);
                            proof {
                                lemma_evolves_trans(n0, b1, nc, bc, self.node_genes@, busy@);
                            }
                            match sub {
                                Ok(v) => {
                                    pv = v;
                                },
                                Err(e) => {
                                    proof {
                                        assert forall|fuel: nat|
                                            fuel + 1 >= count_open(n0, b0, len) implies #[trigger] eval_node_s(
                                            n0,
                                            b0,
                                            cns,
                                            pos as int,
                                            fuel,
                                        ) == (self.node_genes@, busy@, res_opt(
                                            Result::<i64, NeatError>::Err(e),
                                        )) by {
                                            assert(eval_conns_s(n0, b1, cns, target_id as int, 0, 0, fuel)
                                                == eval_conns_s(nc, bc, cns, target_id as int, i as int, acc, fuel));
                                            assert(eval_node_s(nc, bc, cns, ppos as int, (fuel - 1) as nat)
                                                == (self.node_genes@, busy@, Option::<i64>::None));
                                        }
                                        lemma_evolves_trans(n0, b0, n0, b1, self.node_genes@, busy@);
                                    }
                                    return Err(e);
                                },
                            }
                        }
                        let ghost acc2 = crate::fixed::add_sat_spec(
                            acc as int,
                            crate::fixed::mul_sat_spec(c.weight as int, pv as int),
                        ) as i64;
                        proof {
                            assert forall|fuel: nat|
                                fuel >= count_open(n0, b1, len) implies #[trigger] eval_conns_s(
                                n0,
                                b1,
                                cns,
                                target_id as int,
                                0,
                                0,
                                fuel,
                            ) == eval_conns_s(
                                self.node_genes@,
                                busy@,
                                cns,
                                target_id as int,
                                i + 1,
                                acc2,
                                fuel,
                            ) by {
                                assert(eval_conns_s(n0, b1, cns, target_id as int, 0, 0, fuel)
                                    == eval_conns_s(nc, bc, cns, target_id as int, i as int, acc, fuel));
                                if nc[ppos as int].activation_value is None {
                                    assert(eval_node_s(nc, bc, cns, ppos as int, (fuel - 1) as nat)
                                        == (self.node_genes@, busy@, Option::<i64>::Some(pv)));
                                }
                            }
                        }
                        acc = add_sat(acc, mul_sat(c.weight, pv));
                    },
                }
            } else {
                proof {
                    assert forall|fuel: nat|
                        fuel >= count_open(n0, b1, len) implies #[trigger] eval_conns_s(
                        n0,
                        b1,
                        cns,
                        target_id as int,
                        0,
                        0,
                        fuel,
                    ) == eval_conns_s(
                        self.node_genes@,
                        busy@,
                        cns,
                        target_id as int,
                        i + 1,
                        acc,
                        fuel,
                    ) by {
                        assert(eval_conns_s(n0, b1, cns, target_id as int, 0, 0, fuel)
                            == eval_conns_s(nc, bc, cns, target_id as int, i as int, acc, fuel));
                    }
                }
            }
            i = i + 1;
        }

        let ghost nc2 = self.node_genes@;
        let ghost bc2 = busy@;
        let nd_old = self.node_genes[pos];
        let v: i64 = nd_old.node_type.activation(acc);
        let nd = Node {
            innovation: nd_old.innovation,
            node_type: nd_old.node_type,
            activation_value: Some(v),
        };
        self.node_genes.set(pos, nd);
        proof {
            crate::genes::lemma_activation_range(nd_old.node_type, acc as int);
            lemma_evolves_trans(n0, b0, n0, b1, nc2, bc2);
            assert(nd_old == nc2[pos as int]);
            assert(nd_old.node_type == n0[pos as int].node_type);
            assert forall|fuel: nat|
                fuel + 1 >= count_open(n0, b0, len) implies #[trigger] eval_node_s(
                n0,
                b0,
                cns,
                pos as int,
                fuel,
            ) == (self.node_genes@, busy@, res_opt(Result::<i64, NeatError>::Ok(v))) by {
                assert(eval_conns_s(n0, b1, cns, target_id as int, 0, 0, fuel) == eval_conns_s(
                    nc2,
                    bc2,
                    cns,
                    target_id as int,
                    cns.len() as int,
                    acc,
                    fuel,
                ));
                assert(eval_conns_s(nc2, bc2, cns, target_id as int, cns.len() as int, acc, fuel)
                    == (nc2, bc2, Option::<i64>::Some(acc)));
            }
        }
        Ok(v)
    }

    /// Evaluate the phenotype on one input vector. The input length must
    /// equal the number of sensors, else `InvalidInputSize` is reported.
    /// Every node's cached value is cleared afterwards, so the network is
    /// returned exactly as it was: together with the exact result
    /// [`feed_forward_spec`], two consecutive calls on the same network and
    /// input are guaranteed to return identical outputs.
    #[verifier::loop_isolation(false)]
    pub fn feed_forward(&mut self, inputs: &Vec<i64>) -> (r: Result<Vec<i64>, NeatError>)
        requires
            old(self).num_sensors + old(self).num_outputs + 1 <= old(self).node_genes@.len(),
            old(self).caches_clear(),
            forall|i: int|
                0 <= i < old(self).connection_genes@.len() ==> in_range(
                    (#[trigger] old(self).connection_genes@[i]).weight as int,
                ),
        ensures
            final(self).node_genes@ == old(self).node_genes@,
            final(self).connection_genes@ == old(self).connection_genes@,
            final(self).num_sensors == old(self).num_sensors,
            final(self).num_outputs == old(self).num_outputs,
            inputs@.len() != old(self).num_sensors ==> r == Result::<Vec<i64>, NeatError>::Err(
                NeatError::InvalidInputSize,
            ),
            inputs@.len() == old(self).num_sensors ==> match r {
                Ok(v) => feed_forward_spec(*old(self), inputs@) == Some(v@) && v@.len() == old(self).num_outputs,
                Err(e) => feed_forward_spec(*old(self), inputs@) is None && (e
                    == NeatError::CycleDetected || e == NeatError::MissingNode),
            },
    {
        if inputs.len() != self.num_sensors {
            return Err(NeatError::InvalidInputSize);
        }
        let ghost orig = *self;
        let ghost cns = self.connection_genes@;
        let ghost len = self.node_genes@.len() as int;
        let ns: usize = self.num_sensors;
        let no: usize = self.num_outputs;

        let mut i: usize = 0;
        while i < ns
            invariant
                i <= ns,
                self.connection_genes@ == cns,
                self.num_sensors == ns,
                self.num_outputs == no,
                self.node_genes@.len() == len,
                set_inputs_s(orig.node_genes@, inputs@, 0) == set_inputs_s(
                    self.node_genes@,
                    inputs@,
                    i as int,
                ),
                forall|j: int|
                    i <= j < len ==> #[trigger] self.node_genes@[j] == orig.node_genes@[j],
                forall|j: int|
                    0 <= j < len ==> (#[trigger] self.node_genes@[j]).innovation
                        == orig.node_genes@[j].innovation && self.node_genes@[j].node_type
                        == orig.node_genes@[j].node_type,
                vals_ok(self.node_genes@),
            decreases ns - i,
        {
            let mut nd = self.node_genes[i];
            nd.give_input(inputs[i]);
            self.node_genes.set(i, nd);
            proof {
                crate::genes::lemma_activation_range(nd.node_type, inputs@[i as int] as int);
            }
            i = i + 1;
        }

        let mut bias_node = self.node_genes[ns];
        bias_node.give_input(crate::fixed::SCALE);
        self.node_genes.set(ns, bias_node);
        proof {
            crate::genes::lemma_activation_range(bias_node.node_type, crate::fixed::SCALE as int);
        }
        let ghost n2 = self.node_genes@;

        let mut busy: Vec<bool> = Vec::new();
        let mut k: usize = 0;
        while k < self.node_genes.len()
            invariant
                k <= len,
                busy@.len() == k,
                forall|j: int| 0 <= j < k ==> !(#[trigger] busy@[j]),
                self.node_genes@ == n2,
                self.node_genes@.len() == len,
            decreases len - k,
        {
            busy.push(false);
            k = k + 1;
        }
        let ghost b0 = Seq::new(n2.len(), |j: int| false);
        proof {
            assert(busy@ =~= b0);
        }

        let mut out: Vec<i64> = Vec::new();
        let start: usize = ns + 1;
        let end: usize = ns + 1 + no;
        let mut o: usize = start;
        while o < end
            invariant
                start <= o <= end,
                out@.len() == o - start,
                self.connection_genes@ == cns,
                self.num_sensors == ns,
                self.num_outputs == no,
                self.node_genes@.len() == len,
                busy@.len() == len,
                eval_evolves(n2, b0, self.node_genes@, busy@),
                vals_ok(self.node_genes@),
                eval_outputs_s(n2, b0, cns, start as int, end as int, Seq::empty())
                    == eval_outputs_s(
                    self.node_genes@,
                    busy@,
                    cns,
                    o as int,
                    end as int,
                    out@,
                ),
            decreases end - o,
        {
            let ghost nc = self.node_genes@;
            let ghost bc = busy@;
            proof {
                lemma_count_le_len(nc, bc, len);
            }
            let step = self.evaluate_node(o, &mut busy);
            proof {
                lemma_evolves_trans(n2, b0, nc, bc, self.node_genes@, busy@);
                assert(eval_node_s(nc, bc, cns, o as int, nc.len() as nat) == (
                    self.node_genes@,
                    busy@,
                    res_opt(step),
                ));
            }
            match step {
                Ok(v) => {
                    out.push(v);
                },
                Err(e) => {
                    proof {
                        assert(eval_outputs_s(n2, b0, cns, start as int, end as int, Seq::empty())
                            == (self.node_genes@, busy@, Option::<Seq<i64>>::None));
                    }
                    let mut t: usize = 0;
                    proof {
                        assert(forall|j: int|
                            0 <= j < len ==> (#[trigger] self.node_genes@[j]).innovation
                                == orig.node_genes@[j].innovation && self.node_genes@[j].node_type
                                == orig.node_genes@[j].node_type);
                    }
                    while t < self.node_genes.len()
                        invariant
                            t <= len,
                            self.connection_genes@ == cns,
                            self.num_sensors == ns,
                            self.num_outputs == no,
                            self.node_genes@.len() == len,
                            forall|j: int|
                                0 <= j < t ==> #[trigger] self.node_genes@[j] == orig.node_genes@[j],
                            forall|j: int|
                                0 <= j < len ==> (#[trigger] self.node_genes@[j]).innovation
                                    == orig.node_genes@[j].innovation
                                    && self.node_genes@[j].node_type
                                    == orig.node_genes@[j].node_type,
                        decreases len - t,
                    {
                        let mut nd = self.node_genes[t];
                        nd.clear();
                        self.node_genes.set(t, nd);
                        t = t + 1;
                    }
                    proof {
                        assert(self.node_genes@ =~= orig.node_genes@);
                    }
                    return Err(e);
                },
            }
            o = o + 1;
        }

        proof {
            assert(eval_outputs_s(n2, b0, cns, start as int, end as int, Seq::empty()) == (
                self.node_genes@,
                busy@,
                Option::<Seq<i64>>::Some(out@),
            ));
        }

        let mut t: usize = 0;
        while t < self.node_genes.len()
            invariant
                t <= len,
                self.connection_genes@ == cns,
                self.num_sensors == ns,
                self.num_outputs == no,
                self.node_genes@.len() == len,
                forall|j: int| 0 <= j < t ==> #[trigger] self.node_genes@[j] == orig.node_genes@[j],
                forall|j: int|
                    0 <= j < len ==> (#[trigger] self.node_genes@[j]).innovation
                        == orig.node_genes@[j].innovation && self.node_genes@[j].node_type
                        == orig.node_genes@[j].node_type,
            decreases len - t,
        {
            let mut nd = self.node_genes[t];
            nd.clear();
            self.node_genes.set(t, nd);
            t = t + 1;
        }
        proof {
            assert(self.node_genes@ =~= orig.node_genes@);
        }
        Ok(out)
    }

    /// A fresh random weight: the sum of twelve uniform draws, centred on
    /// zero (an approximately normal draw with unit standard deviation).
    fn random_weight(rng: &mut rand::rngs::StdRng) -> (w: i64)
        ensures
            -393216 <= w <= 393216,
            in_range(w as int),
    {
        let mut sum: i64 = 0;
        let mut d: usize = 0;
        while d < 12
            invariant
                d <= 12,
                0 <= sum <= d * 65535,
            decreases 12 - d,
        {
            let u: usize = crate::rng::rng_below(rng, 65536);
            sum = sum + (u as i64);
            d = d + 1;
        }
        sum - 393216
    }

    /// Add-connection structural mutation. A random non-sensor, non-bias
    /// node of this genome becomes the target; the source is drawn among the
    /// genome's nodes that are neither outputs nor reachable from the target
    /// through the global connection graph, which keeps every genome acyclic.
    /// If the pair already exists globally its innovation id is reused: a
    /// gene this genome already holds is re-enabled with a fresh weight, a
    /// missing one is added under the existing id. A globally new pair is
    /// registered and appended. When no legal source exists, or the genome is
    /// at its gene cap, the mutation is skipped as a recoverable no-op.
    #[verifier::loop_isolation(false)]
    #[verifier::rlimit(80)]
    pub fn add_connection(&mut self, global: &mut Registry, rng: &mut rand::rngs::StdRng)
        requires
            old(global).wf(),
            old(self).wf0(*old(global)),
            old(self).num_outputs >= 1,
        ensures
            final(global).wf(),
            final(self).wf(*final(global)),
            final(self).connection_genes@.len() >= 1,
            final(global).num_sensors == old(global).num_sensors,
            final(global).num_outputs == old(global).num_outputs,
            final(global).node_innovation == old(global).node_innovation,
            final(global).node_mutations@ == old(global).node_mutations@,
            old(global).connection_list@.len() <= final(global).connection_list@.len(),
            forall|i: int|
                0 <= i < old(global).connection_list@.len()
                    ==> final(global).connection_list@[i] == old(global).connection_list@[i],
            final(self).num_sensors == old(self).num_sensors,
            final(self).num_outputs == old(self).num_outputs,
            final(self).node_genes@ == old(self).node_genes@,
            final(self).connection_genes@.len() >= old(self).connection_genes@.len(),
            old(self).connection_genes@.len() < CAP_GENES ==> add_connection_effect(
                *old(self),
                *old(global),
                *final(self),
                *final(global),
            ),
            add_connection_effect(*old(self), *old(global), *final(self), *final(global)) || (
            final(self).connection_genes@ == old(self).connection_genes@ && *final(global)
                == *old(global)),
    {
        let ghost g = edges_of(global.connection_list@);
        let node_count: usize = self.node_genes.len();
        let low: usize = self.num_sensors + 1;

        // pick the target among the genome's non-sensor, non-bias nodes
        let to_pos: usize = low + crate::rng::rng_below(rng, node_count - low);
        let to_node: usize = self.node_genes[to_pos].innovation;
        proof {
            if to_pos < self.num_sensors + self.num_outputs + 1 {
                assert(to_node == to_pos);
            } else {
                if to_node < self.num_sensors + self.num_outputs + 1 {
                    assert(self.node_genes@[to_node as int].innovation == to_node);
                    assert(false);
                }
            }
            assert(to_node > self.num_sensors);
            assert(to_node < global.node_innovation);
        }

        let ni: usize = global.connection_lookup.len();

        // mark everything reachable from the target (and every output node)
        // as an illegal source
        let mut possible: Vec<bool> = Vec::new();
        let mut i: usize = 0;
        while i < ni
            invariant
                i <= ni,
                possible@.len() == i,
                forall|j: int| 0 <= j < i ==> #[trigger] possible@[j],
            decreases ni - i,
        {
            possible.push(true);
            i = i + 1;
        }
        let out_low: usize = self.num_sensors + 1;
        let out_high: usize = self.num_sensors + self.num_outputs + 1;
        let mut i: usize = out_low;
        while i < out_high
            invariant
                out_low <= i <= out_high,
                possible@.len() == ni,
                forall|j: int| 0 <= j < ni && !(out_low <= j < i) ==> #[trigger] possible@[j],
                forall|j: int| out_low <= j < i ==> !(#[trigger] possible@[j]),
            decreases out_high - i,
        {
            possible.set(i, false);
            i = i + 1;
        }

        let mut stack: Vec<usize> = Vec::new();
        stack.push(to_node);
        proof {
            lemma_reach_self(g, to_node as int);
            assert(stack@[0] == to_node);
        }
        while stack.len() > 0
            invariant
                possible@.len() == ni,
                forall|t: int|
                    0 <= t < stack@.len() ==> #[trigger] stack@[t] < ni && reaches(
                        g,
                        to_node as int,
                        stack@[t] as int,
                    ),
                forall|j: int|
                    0 <= j < ni && !(#[trigger] possible@[j]) ==> (out_low <= j < out_high)
                        || reaches(g, to_node as int, j),
                forall|j: int| out_low <= j < out_high ==> !(#[trigger] possible@[j]),
                !possible@[to_node as int] || stack@.contains(to_node),
                forall|a: int, b: int|
                    0 <= a < ni && !possible@[a] && #[trigger] has_edge(g, a, b) ==> !possible@[b]
                        || stack@.contains(b as usize),
            decreases count_true(possible@, ni as int), stack@.len(),
        {
            let ghost marks0 = possible@;
            let ghost stack0 = stack@;
            let current: usize = stack.pop().unwrap();
            proof {
                assert(stack@ =~= stack0.take(stack0.len() - 1));
                assert forall|b: usize| stack0.contains(b) && b != current implies
                    stack@.contains(b) by {
                    let t = choose|t: int| 0 <= t < stack0.len() && stack0[t] == b;
                    assert(t < stack0.len() - 1);
                    assert(stack@[t] == b);
                }
            }
            if possible[current] {
                possible.set(current, false);
                proof {
                    lemma_count_true_unmark(marks0, current as int, ni as int);
                }
                let outgoing_len: usize = global.connection_lookup[current].len();
                let mut t: usize = 0;
                while t < outgoing_len
                    invariant
                        t <= outgoing_len,
                        current < ni,
                        outgoing_len == global.connection_lookup@[current as int]@.len(),
                        possible@.len() == ni,
                        possible@ == marks0.update(current as int, false),
                        reaches(g, to_node as int, current as int),
                        forall|u: int|
                            0 <= u < stack@.len() ==> #[trigger] stack@[u] < ni && reaches(
                                g,
                                to_node as int,
                                stack@[u] as int,
                            ),
                        forall|b: usize| stack0.contains(b) && b != current ==> stack@.contains(b),
                        forall|s: int|
                            0 <= s < t ==> stack@.contains(
                                #[trigger] global.connection_list@[global.connection_lookup@[
                                    current as int
                                ]@[s] as int].output,
                            ),
                    decreases outgoing_len - t,
                {
                    let cid: usize = global.connection_lookup[current][t];
                    let succ: usize = global.connection_list[cid].output;
                    proof {
                        assert(g[cid as int] == (current as int, succ as int));
                        assert(has_edge(g, current as int, succ as int));
                        lemma_reach_step(g, current as int, succ as int);
                        lemma_reach_trans(g, to_node as int, current as int, succ as int);
                    }
                    let ghost stack_pre = stack@;
                    stack.push(succ);
                    proof {
                        assert forall|b: usize| stack_pre.contains(b) implies stack@.contains(
                            b,
                        ) by {
                            let u = choose|u: int| 0 <= u < stack_pre.len() && stack_pre[u] == b;
                            assert(stack@[u] == b);
                        }
                        assert(stack@[stack@.len() - 1] == succ);
                    }
                    t = t + 1;
                }
                proof {
                    // closure: every successor of `current` is on the stack
                    assert forall|a: int, b: int|
                        0 <= a < ni && !possible@[a] && #[trigger] has_edge(g, a, b) implies
                        !possible@[b] || stack@.contains(b as usize) by {
                        if a == current as int {
                            let e = choose|e: int| 0 <= e < g.len() && g[e] == (a, b);
                            let c = global.connection_list@[e];
                            assert(global.connection_lookup@[a]@.contains(e as usize));
                            let s = choose|s: int|
                                0 <= s < global.connection_lookup@[a]@.len()
                                    && global.connection_lookup@[a]@[s] == e as usize;
                            assert(stack@.contains(
                                global.connection_list@[global.connection_lookup@[a]@[s] as int]
                                    .output,
                            ));
                        } else {
                            if !marks0[a] {
                                if !(marks0[b] == false) {
                                    assert(stack0.contains(b as usize));
                                    if b != current as int {
                                        assert(stack@.contains(b as usize));
                                    }
                                }
                            }
                        }
                    }
                }
            } else {
                proof {
                    assert forall|a: int, b: int|
                        0 <= a < ni && !possible@[a] && #[trigger] has_edge(g, a, b) implies
                        !possible@[b] || stack@.contains(b as usize) by {
                        if !possible@[b] {
                        } else {
                            assert(stack0.contains(b as usize));
                            if b as usize == current {
                                assert(!possible@[b]);
                            } else {
                                assert(stack@.contains(b as usize));
                            }
                        }
                    }
                }
            }
        }

        proof {
            // node id 0 (a sensor, or the bias when there are none) has no
            // incoming edge, so it always stays a legal source
            if !possible@[0] {
                assert forall|e: int| 0 <= e < g.len() implies (#[trigger] g[e]).1 != 0 by {
                    assert(global.connection_list@[e].output > global.num_sensors);
                }
                assert(reaches(g, to_node as int, 0));
                crate::graph::lemma_no_in_edges(g, 0, to_node as int);
                assert(false);
            }
        }

        // legal sources: this genome's still-possible nodes
        let mut from_nodes: Vec<usize> = Vec::new();
        let mut j: usize = 0;
        while j < node_count
            invariant
                j <= node_count,
                node_count == self.node_genes@.len(),
                possible@.len() == ni,
                forall|t: int|
                    0 <= t < from_nodes@.len() ==> {
                        &&& #[trigger] from_nodes@[t] < ni
                        &&& possible@[from_nodes@[t] as int]
                        &&& has_node_id(self.node_genes@, from_nodes@[t] as int)
                    },
                j >= 1 ==> from_nodes@.len() >= 1,
            decreases node_count - j,
        {
            let id: usize = self.node_genes[j].innovation;
            if possible[id] {
                from_nodes.push(id);
                proof {
                    assert(self.node_genes@[j as int].innovation == id);
                }
            } else {
                proof {
                    if j == 0 {
                        assert(self.node_genes@[0].innovation == 0);
                        assert(false);
                    }
                }
            }
            j = j + 1;
        }

        if from_nodes.len() == 0 {
            // no legal source for this target: skip the mutation (in fact
            // unreachable, as shown above)
            return ;
        }

        let from_node: usize = from_nodes[crate::rng::rng_below(rng, from_nodes.len())];
        proof {
            // the closed unmarked set contains everything reachable from the
            // target, so the chosen source is not reachable from it
            let s = Set::new(|x: int| 0 <= x < ni && !possible@[x]);
            assert forall|x: int, y: int|
                s.contains(x) && #[trigger] has_edge(g, x, y) implies s.contains(y) by {
                assert(!possible@[x]);
                assert(0 <= y < ni) by {
                    let e = choose|e: int| 0 <= e < g.len() && g[e] == (x, y);
                    assert(global.connection_list@[e].output < global.node_innovation);
                }
            }
            assert(s.contains(to_node as int));
            if reaches(g, to_node as int, from_node as int) {
                lemma_closed_reach(g, s, to_node as int, from_node as int);
                assert(false);
            }
            assert(!(global.num_sensors < from_node <= global.num_sensors
                + global.num_outputs));
            assert(from_node != to_node);
        }

        let w: i64 = Self::random_weight(rng);
        match global.find_connection(from_node, to_node) {
            Some(innov) => {
                // the pair exists globally: re-enable our copy if we hold
                // one, else adopt the existing innovation id
                let mut idx: usize = 0;
                while idx < self.connection_genes.len()
                    invariant
                        idx <= self.connection_genes@.len(),
                        *self == *old(self),
                        forall|t: int|
                            0 <= t < idx ==> (#[trigger] self.connection_genes@[t]).innovation
                                != innov,
                    decreases self.connection_genes@.len() - idx,
                {
                    if self.connection_genes[idx].innovation == innov {
                        let mut gene = self.connection_genes[idx];
                        gene.weight = w;
                        gene.enabled = true;
                        self.connection_genes.set(idx, gene);
                        proof {
                            reveal(add_connection_effect);
                            assert(gene == Connection {
                                weight: w,
                                enabled: true,
                                ..old(self).connection_genes@[idx as int]
                            });
                            assert(self.connection_genes@ == old(self).connection_genes@.update(idx as int, gene));
                        }
                        return ;
                    }
                    idx = idx + 1;
                }
                if self.connection_genes.len() >= CAP_GENES {
                    return ;
                }
                let ng = Connection {
                    innovation: innov,
                    input: from_node,
                    output: to_node,
                    weight: w,
                    enabled: true,
                };
                self.insert_gene(ng);
                proof {
                    reveal(add_connection_effect);
                    assert(has_node_id(old(self).node_genes@, to_node as int)) by {
                        assert(old(self).node_genes@[to_pos as int].innovation == to_node);
                    }
                    assert(has_node_id(old(self).node_genes@, from_node as int));
                }
            },
            None => {
                if self.connection_genes.len() >= CAP_GENES {
                    return ;
                }
                let innov: usize = global.add_global_connection(from_node, to_node);
                proof {
                    lemma_wf_registry_growth(*self, *old(global), *global);
                }
                let ghost pre = self.connection_genes@;
                let ng = Connection {
                    innovation: innov,
                    input: from_node,
                    output: to_node,
                    weight: w,
                    enabled: true,
                };
                self.connection_genes.push(ng);
                proof {
                    reveal(add_connection_effect);
                    assert(forall|t: int|
                        0 <= t < pre.len() ==> (#[trigger] pre[t]).innovation < innov);
                    assert(self.connection_genes@ =~= pre.insert(pre.len() as int, ng));
                    assert(has_node_id(old(self).node_genes@, to_node as int)) by {
                        assert(old(self).node_genes@[to_pos as int].innovation == to_node);
                    }
                    assert(has_node_id(old(self).node_genes@, from_node as int));
                }
            },
        }
    }

    /// Insert a gene at its sorted position. The genome must not already
    /// hold the innovation id, and must have room.
    fn insert_gene(&mut self, gene: Connection)
        requires
            old(self).connection_genes@.len() < CAP_GENES,
            forall|t: int|
                0 <= t < old(self).connection_genes@.len() ==> (#[trigger] old(self).connection_genes@[t]).innovation != gene.innovation,
            forall|i: int, j: int|
                0 <= i < j < old(self).connection_genes@.len() ==> (#[trigger] old(self).connection_genes@[i]).innovation < (#[trigger] old(self).connection_genes@[j]).innovation,
        ensures
            final(self).node_genes@ == old(self).node_genes@,
            final(self).num_sensors == old(self).num_sensors,
            final(self).num_outputs == old(self).num_outputs,
            final(self).connection_genes@.len() == old(self).connection_genes@.len() + 1,
            final(self).connection_genes@.contains(gene),
            exists|p: int|
                0 <= p <= old(self).connection_genes@.len() && final(self).connection_genes@
                    == old(self).connection_genes@.insert(p, gene),
            gene_at(final(self).connection_genes@, gene.innovation as int) == Some(gene),
            forall|id: int|
                id != gene.innovation ==> gene_at(final(self).connection_genes@, id) == gene_at(
                    old(self).connection_genes@,
                    id,
                ),
            forall|t: int|
                0 <= t < old(self).connection_genes@.len() ==> final(self).connection_genes@.contains(#[trigger] old(self).connection_genes@[t]),
            forall|t: int|
                0 <= t < final(self).connection_genes@.len() ==> (#[trigger] final(self).connection_genes@[t]) == gene || old(self).connection_genes@.contains(
                    final(self).connection_genes@[t],
                ),
            forall|i: int, j: int|
                0 <= i < j < final(self).connection_genes@.len() ==> (#[trigger] final(self).connection_genes@[i]).innovation < (#[trigger] final(self).connection_genes@[j]).innovation,
    {
        let ghost pre = self.connection_genes@;
        let mut p: usize = 0;
        while p < self.connection_genes.len()
            && self.connection_genes[p].innovation < gene.innovation
            invariant
                p <= self.connection_genes@.len(),
                *self == *old(self),
                forall|t: int|
                    0 <= t < p ==> (#[trigger] self.connection_genes@[t]).innovation
                        < gene.innovation,
            decreases self.connection_genes@.len() - p,
        {
            p = p + 1;
        }
        proof {
            assert forall|t: int|
                p <= t < self.connection_genes@.len() implies (
            #[trigger] self.connection_genes@[t]).innovation > gene.innovation by {
                assert(self.connection_genes@[t].innovation != gene.innovation);
                if t > p {
                    assert(self.connection_genes@[p as int].innovation
                        < self.connection_genes@[t].innovation);
                }
            }
        }
        self.connection_genes.insert(p, gene);
        proof {
            let post = self.connection_genes@;
            assert(post == pre.insert(p as int, gene));
            assert(post[p as int] == gene);
            assert forall|a: int, b: int|
                0 <= a < b < pre.len() implies (#[trigger] pre[a]).innovation != (
            #[trigger] pre[b]).innovation by {
                assert(pre[a].innovation < pre[b].innovation);
            }
            lemma_gene_at_insert(pre, p as int, gene);
            assert forall|t: int| 0 <= t < pre.len() implies post.contains(#[trigger] pre[t]) by {
                if t < p {
                    assert(post[t] == pre[t]);
                } else {
                    assert(post[t + 1] == pre[t]);
                }
            }
            assert forall|t: int| 0 <= t < post.len() implies (#[trigger] post[t]) == gene
                || pre.contains(post[t]) by {
                if t < p {
                    assert(post[t] == pre[t]);
                } else if t > p {
                    assert(post[t] == pre[t - 1]);
                }
            }
            assert forall|i: int, j: int| 0 <= i < j < post.len() implies (
            #[trigger] post[i]).innovation < (#[trigger] post[j]).innovation by {
                let iv = if i < p {
                    pre[i]
                } else if i == p {
                    gene
                } else {
                    pre[i - 1]
                };
                let jv = if j < p {
                    pre[j]
                } else if j == p {
                    gene
                } else {
                    pre[j - 1]
                };
                assert(post[i] == iv && post[j] == jv);
            }
        }
    }

    /// Insert a gene at its sorted position, or overwrite the gene that
    /// already carries its innovation id.
    #[verifier::loop_isolation(false)]
    fn upsert_gene(&mut self, gene: Connection)
        requires
            old(self).connection_genes@.len() < CAP_GENES,
            forall|i: int, j: int|
                0 <= i < j < old(self).connection_genes@.len() ==> (#[trigger] old(self).connection_genes@[i]).innovation < (#[trigger] old(self).connection_genes@[j]).innovation,
        ensures
            final(self).node_genes@ == old(self).node_genes@,
            final(self).num_sensors == old(self).num_sensors,
            final(self).num_outputs == old(self).num_outputs,
            old(self).connection_genes@.len() <= final(self).connection_genes@.len() <= old(self).connection_genes@.len() + 1,
            final(self).connection_genes@.contains(gene),
            gene_at(final(self).connection_genes@, gene.innovation as int) == Some(gene),
            forall|id: int|
                id != gene.innovation ==> gene_at(final(self).connection_genes@, id) == gene_at(
                    old(self).connection_genes@,
                    id,
                ),
            forall|t: int|
                0 <= t < old(self).connection_genes@.len() && (#[trigger] old(self).connection_genes@[t]).innovation != gene.innovation ==> final(self).connection_genes@.contains(old(self).connection_genes@[t]),
            forall|t: int|
                0 <= t < final(self).connection_genes@.len() ==> (#[trigger] final(self).connection_genes@[t]) == gene || old(self).connection_genes@.contains(
                    final(self).connection_genes@[t],
                ),
            forall|i: int, j: int|
                0 <= i < j < final(self).connection_genes@.len() ==> (#[trigger] final(self).connection_genes@[i]).innovation < (#[trigger] final(self).connection_genes@[j]).innovation,
    {
        let ghost pre = self.connection_genes@;
        let mut idx: usize = 0;
        while idx < self.connection_genes.len()
            invariant
                idx <= self.connection_genes@.len(),
                *self == *old(self),
                forall|t: int|
                    0 <= t < idx ==> (#[trigger] self.connection_genes@[t]).innovation
                        != gene.innovation,
            decreases self.connection_genes@.len() - idx,
        {
            if self.connection_genes[idx].innovation == gene.innovation {
                self.connection_genes.set(idx, gene);
                proof {
                    let post = self.connection_genes@;
                    assert(post[idx as int] == gene);
                    assert forall|a: int, b: int|
                        0 <= a < b < pre.len() implies (#[trigger] pre[a]).innovation != (
                    #[trigger] pre[b]).innovation by {
                        assert(pre[a].innovation < pre[b].innovation);
                    }
                    lemma_gene_at_update(pre, idx as int, gene);
                    assert forall|t: int|
                        0 <= t < pre.len() && (#[trigger] pre[t]).innovation != gene.innovation
                        implies post.contains(pre[t]) by {
                        assert(t != idx);
                        assert(post[t] == pre[t]);
                    }
                    assert forall|t: int| 0 <= t < post.len() implies (#[trigger] post[t]) == gene
                        || pre.contains(post[t]) by {
                        if t != idx {
                            assert(post[t] == pre[t]);
                        }
                    }
                }
                return ;
            }
            idx = idx + 1;
        }
        self.insert_gene(gene);
    }

    /// Construct a minimally functional genome against the registry: the
    /// sensor, bias and output nodes in id order, then exactly one
    /// add-connection mutation.
    pub fn new(global: &mut Registry, rng: &mut rand::rngs::StdRng) -> (net: Network)
        requires
            old(global).wf(),
            old(global).num_outputs >= 1,
        ensures
            final(global).wf(),
            net.wf(*final(global)),
            net.num_sensors == old(global).num_sensors,
            net.num_outputs == old(global).num_outputs,
            net.node_genes@.len() == old(global).num_sensors + old(global).num_outputs + 1,
            net.connection_genes@.len() == 1,
            net.connection_genes@[0].enabled,
            final(global).num_sensors == old(global).num_sensors,
            final(global).num_outputs == old(global).num_outputs,
            final(global).node_innovation == old(global).node_innovation,
            final(global).node_mutations@ == old(global).node_mutations@,
            old(global).connection_list@.len() <= final(global).connection_list@.len(),
            forall|i: int|
                0 <= i < old(global).connection_list@.len()
                    ==> final(global).connection_list@[i] == old(global).connection_list@[i],
    {
        let ns: usize = global.num_sensors;
        let no: usize = global.num_outputs;
        let count: usize = ns + no + 1;
        let mut nodes: Vec<Node> = Vec::new();
        let mut i: usize = 0;
        while i < count
            invariant
                i <= count,
                count == ns + no + 1,
                nodes@.len() == i,
                forall|j: int|
                    0 <= j < i ==> (#[trigger] nodes@[j]).innovation == j && nodes@[j].node_type
                        == type_for_id(j, ns as int, no as int) && nodes@[j].activation_value
                        is None,
            decreases count - i,
        {
            let t: Type = if i < ns {
                Type::Sensor
            } else if i == ns {
                Type::Bias
            } else {
                Type::Output
            };
            nodes.push(Node { innovation: i, node_type: t, activation_value: None });
            i = i + 1;
        }
        let mut network = Network {
            node_genes: nodes,
            connection_genes: Vec::new(),
            num_sensors: ns,
            num_outputs: no,
        };
        proof {
            assert(network.wf0(*global));
        }
        network.add_connection(global, rng);
        proof {
            // on an empty genome only the insert outcome is possible, so
            // exactly one enabled gene was added
            assert(network.connection_genes@.len() == 1 && network.connection_genes@[0].enabled)
                by {
                reveal(add_connection_effect);
                let (p, ng): (int, Connection) = choose|p: int, ng: Connection|
                    {
                        &&& 0 <= p <= 0
                        &&& network.connection_genes@ == #[trigger] Seq::<
                            Connection,
                        >::empty().insert(p, ng)
                        &&& ng.enabled
                    };
            }
        }
        network
    }

    /// Split the enabled connection gene at position `pick`: the gene is
    /// disabled and replaced by source -> `k` (weight 1.0) and `k` -> target
    /// (the original weight). If this connection (by innovation id) was
    /// already split earlier in the run, the recorded node id and connection
    /// ids are reused; otherwise fresh ids are minted, registered and
    /// recorded. The returned node id is exactly what the registry records
    /// for this connection afterwards: see
    /// [`crate::registry::lemma_innovation_convergence`].
    #[verifier::loop_isolation(false)]
    pub fn split_connection(&mut self, global: &mut Registry, pick: usize) -> (k: usize)
        requires
            old(global).wf(),
            old(self).wf(*old(global)),
            pick < old(self).connection_genes@.len(),
            old(self).connection_genes@[pick as int].enabled,
            old(self).connection_genes@.len() + 2 <= CAP_GENES,
        ensures
            final(global).wf(),
            final(self).wf(*final(global)),
            final(global).num_sensors == old(global).num_sensors,
            final(global).num_outputs == old(global).num_outputs,
            final(global).node_innovation >= old(global).node_innovation,
            old(global).connection_list@.len() <= final(global).connection_list@.len(),
            forall|i: int|
                0 <= i < old(global).connection_list@.len()
                    ==> final(global).connection_list@[i] == old(global).connection_list@[i],
            old(global).node_mutations@.len() <= final(global).node_mutations@.len(),
            forall|m: int|
                0 <= m < old(global).node_mutations@.len() ==> final(global).node_mutations@[m]
                    == old(global).node_mutations@[m],
            final(self).num_sensors == old(self).num_sensors,
            final(self).num_outputs == old(self).num_outputs,
            ({
                let c = old(self).connection_genes@[pick as int].innovation;
                &&& final(global).has_split(c)
                &&& k == final(global).split_node_of(c)
                &&& old(global).has_split(c) ==> k == old(global).split_node_of(c) && *final(global) == *old(global)
                &&& !old(global).has_split(c) ==> {
                    &&& k == old(global).node_innovation
                    &&& final(global).node_innovation == old(global).node_innovation + 1
                    &&& final(global).node_mutations@ == old(global).node_mutations@.push((c, k))
                    &&& final(global).connection_list@ == old(global).connection_list@.push(
                        Connection {
                            innovation: old(global).connection_list@.len() as usize,
                            input: old(self).connection_genes@[pick as int].input,
                            output: k,
                            weight: 0,
                            enabled: true,
                        },
                    ).push(
                        Connection {
                            innovation: (old(global).connection_list@.len() + 1) as usize,
                            input: k,
                            output: old(self).connection_genes@[pick as int].output,
                            weight: 0,
                            enabled: true,
                        },
                    )
                }
            }),
            split_effect(*old(self), *final(self), *final(global), pick as int, k),
    {
        let c: usize = self.connection_genes[pick].innovation;

        let mut prev: Option<usize> = None;
        let mut m: usize = 0;
        while m < global.node_mutations.len()
            invariant
                m <= global.node_mutations@.len(),
                match prev {
                    Option::None => forall|t: int|
                        0 <= t < m ==> (#[trigger] global.node_mutations@[t]).0 != c,
                    Option::Some(kk) => exists|t: int|
                        0 <= t < global.node_mutations@.len()
                            && #[trigger] global.node_mutations@[t] == (c, kk),
                },
            decreases global.node_mutations@.len() - m,
        {
            if global.node_mutations[m].0 == c {
                match prev {
                    Option::None => {
                        prev = Some(global.node_mutations[m].1);
                        proof {
                            assert(global.node_mutations@[m as int] == (
                                c,
                                global.node_mutations@[m as int].1,
                            ));
                        }
                    },
                    Option::Some(_) => {},
                }
            }
            m = m + 1;
        }

        match prev {
            Some(kk) => {
                proof {
                    // split keys are unique, so the scanned record is the one
                    // `split_node_of` denotes
                    let t = choose|t: int|
                        0 <= t < global.node_mutations@.len() && #[trigger] global.node_mutations@[t]
                            == (c, kk);
                    assert(global.has_split(c));
                    let t2 = choose|t2: int|
                        0 <= t2 < global.node_mutations@.len() && (
                        #[trigger] global.node_mutations@[t2]).0 == c;
                    if t != t2 {
                        assert(global.node_mutations@[t].0 == global.node_mutations@[t2].0);
                        assert(false);
                    }
                    assert(global.split_node_of(c) == kk);
                }
                self.split_reuse(global, pick, kk);
                kk
            },
            None => {
                let kk = self.split_fresh(global, pick);
                kk
            },
        }
    }

    /// Apply a split whose ids are already on record: nothing is registered,
    /// the recorded node id and connection ids are adopted.
    #[verifier::loop_isolation(false)]
    #[verifier::rlimit(100)]
    fn split_reuse(&mut self, global: &Registry, pick: usize, kk: usize)
        requires
            global.wf(),
            old(self).wf(*global),
            pick < old(self).connection_genes@.len(),
            old(self).connection_genes@[pick as int].enabled,
            old(self).connection_genes@.len() + 2 <= CAP_GENES,
            global.has_split(old(self).connection_genes@[pick as int].innovation),
            kk == global.split_node_of(old(self).connection_genes@[pick as int].innovation),
        ensures
            final(self).wf(*global),
            final(self).num_sensors == old(self).num_sensors,
            final(self).num_outputs == old(self).num_outputs,
            split_effect(*old(self), *final(self), *global, pick as int, kk),
    {
        let gene = self.connection_genes[pick];
        let c: usize = gene.innovation;
        let input_node: usize = gene.input;
        let output_node: usize = gene.output;
        let mut dis = gene;
        dis.enabled = false;
        self.connection_genes.set(pick, dis);
        let ghost base = self.connection_genes@;

        proof {
            // the registry records the two halves of this split next to each
            // other; fetch the existential witness
            let t2 = choose|t2: int|
                0 <= t2 < global.node_mutations@.len() && (
                #[trigger] global.node_mutations@[t2]).0 == c;
            assert(global.node_mutations@[t2].1 == kk);
            assert(global.connection_list@[c as int].input == input_node);
            assert(global.connection_list@[c as int].output == output_node);
        }
        let cid_opt = global.find_connection(input_node, kk);
        let cid: usize = match cid_opt {
            None => {
                proof {
                    let j = choose|j: int|
                        0 <= j && j + 1 < global.connection_list@.len() && (
                        #[trigger] global.connection_list@[j]).input == global.connection_list@[
                        c as int
                    ].input && global.connection_list@[j].output == kk && global.connection_list@[
                        j + 1
                    ].input == kk && global.connection_list@[j + 1].output
                        == global.connection_list@[c as int].output;
                    assert(false);
                }
                // unreachable: the registry records both halves of a split
                0
            },
            Some(cid) => cid,
        };
        proof {
            // the found id is the recorded incoming half; the outgoing half
            // sits right behind it
            let j = choose|j: int|
                0 <= j && j + 1 < global.connection_list@.len() && (
                #[trigger] global.connection_list@[j]).input == global.connection_list@[
                c as int
            ].input && global.connection_list@[j].output == kk && global.connection_list@[
                j + 1
            ].input == kk && global.connection_list@[j + 1].output == global.connection_list@[
                c as int
            ].output;
            if j != cid {
                assert(!(global.connection_list@[j].input == global.connection_list@[
                    cid as int
                ].input && global.connection_list@[j].output == global.connection_list@[
                    cid as int
                ].output));
                assert(false);
            }
        }
        match self.find_node(kk) {
            Some(_) => {},
            None => {
                self.node_genes.push(
                    Node { innovation: kk, node_type: Type::Hidden, activation_value: None },
                );
            },
        }
        let ghost nodes_mid = self.node_genes@;
        proof {
            assert(has_node_id(nodes_mid, kk as int)) by {
                if has_node_id(old(self).node_genes@, kk as int) {
                    let w = choose|w: int|
                        0 <= w < old(self).node_genes@.len() && old(self).node_genes@[w].innovation
                            == kk;
                    assert(nodes_mid[w].innovation == kk);
                } else {
                    assert(nodes_mid[nodes_mid.len() - 1].innovation == kk);
                }
            }
        }
        let cid2: usize = cid + 1;
        let g1 = Connection {
            innovation: cid,
            input: input_node,
            output: kk,
            weight: crate::fixed::SCALE,
            enabled: true,
        };
        let g2 = Connection {
            innovation: cid2,
            input: kk,
            output: output_node,
            weight: gene.weight,
            enabled: true,
        };
        self.upsert_gene(g1);
        let ghost mid = self.connection_genes@;
        self.upsert_gene(g2);
        proof {
            let fin = self.connection_genes@;
            assert forall|i: int| 0 <= i < fin.len() implies {
                let g = #[trigger] fin[i];
                &&& g.innovation < global.connection_list@.len()
                &&& global.connection_list@[g.innovation as int].input == g.input
                &&& global.connection_list@[g.innovation as int].output == g.output
                &&& in_range(g.weight as int)
                &&& has_node_id(self.node_genes@, g.input as int)
                &&& has_node_id(self.node_genes@, g.output as int)
            } by {
                let g = fin[i];
                assert forall|idq: int|
                    has_node_id(old(self).node_genes@, idq) implies has_node_id(
                    self.node_genes@,
                    idq,
                ) by {
                    let w = choose|w: int|
                        0 <= w < old(self).node_genes@.len() && old(self).node_genes@[w].innovation
                            == idq;
                    assert(self.node_genes@[w].innovation == idq);
                }
                if g == g2 {
                } else {
                    assert(mid.contains(g));
                    let u = choose|u: int| 0 <= u < mid.len() && mid[u] == g;
                    if g == g1 {
                    } else {
                        assert(base.contains(g));
                        let v = choose|v: int| 0 <= v < base.len() && base[v] == g;
                        if v == pick {
                            assert(g == dis);
                        } else {
                            assert(g == old(self).connection_genes@[v]);
                        }
                    }
                }
            }
            assert(self.wf(*global));

            // the gene map matches the split effect exactly
            reveal(split_effect);
            let g0 = old(self).connection_genes@;
            let fin = self.connection_genes@;
            let ci = c as int;
            let cidi = cid as int;
            assert forall|a: int, b: int|
                0 <= a < b < g0.len() implies (#[trigger] g0[a]).innovation != (
            #[trigger] g0[b]).innovation by {
                assert(g0[a].innovation < g0[b].innovation);
            }
            assert(dis == Connection { enabled: false, ..gene });
            lemma_gene_at_update(g0, pick as int, dis);
            // the split ids never collide with the split gene's own id: a
            // collision would put a self-edge into the acyclic global graph
            let conns = global.connection_list@;
            let ge = edges_of(conns);
            if ci == cidi {
                assert(conns[cidi].output == output_node);
                assert(conns[cidi + 1].input == output_node && conns[cidi + 1].output
                    == output_node);
                assert(ge[cidi + 1] == (output_node as int, output_node as int));
                assert(has_edge(ge, output_node as int, output_node as int));
                lemma_reach_self(ge, output_node as int);
                assert(false);
            }
            if ci == cidi + 1 {
                assert(conns[ci].input == input_node);
                assert(conns[cidi].output == input_node);
                assert(conns[cidi].input == input_node);
                assert(ge[cidi] == (input_node as int, input_node as int));
                assert(has_edge(ge, input_node as int, input_node as int));
                lemma_reach_self(ge, input_node as int);
                assert(false);
            }
            assert(global.split_conn_of(gene.innovation) == cidi);
            assert(gene_at(fin, ci) == Some(Connection { enabled: false, ..gene }));
            assert(gene_at(fin, cidi) == Some(g1));
            assert(gene_at(fin, cidi + 1) == Some(g2));
            assert forall|id: int|
                id != ci && id != cidi && id != cidi + 1 implies gene_at(fin, id) == gene_at(
                g0,
                id,
            ) by {
                assert(gene_at(fin, id) == gene_at(mid, id));
                assert(gene_at(mid, id) == gene_at(base, id));
            }
            assert(split_effect(*old(self), *self, *global, pick as int, kk));
        }
    }

    /// Apply a split never seen before: mint and register fresh ids.
    #[verifier::loop_isolation(false)]
    #[verifier::rlimit(100)]
    fn split_fresh(&mut self, global: &mut Registry, pick: usize) -> (k: usize)
        requires
            old(global).wf(),
            old(self).wf(*old(global)),
            pick < old(self).connection_genes@.len(),
            old(self).connection_genes@[pick as int].enabled,
            old(self).connection_genes@.len() + 2 <= CAP_GENES,
            forall|m: int|
                0 <= m < old(global).node_mutations@.len() ==> (
                #[trigger] old(global).node_mutations@[m]).0 != old(self).connection_genes@[pick as int].innovation,
        ensures
            final(global).wf(),
            final(self).wf(*final(global)),
            final(global).num_sensors == old(global).num_sensors,
            final(global).num_outputs == old(global).num_outputs,
            final(global).node_innovation == old(global).node_innovation + 1,
            old(global).connection_list@.len() <= final(global).connection_list@.len(),
            forall|i: int|
                0 <= i < old(global).connection_list@.len()
                    ==> final(global).connection_list@[i] == old(global).connection_list@[i],
            final(global).node_mutations@ == old(global).node_mutations@.push(
                (old(self).connection_genes@[pick as int].innovation, k),
            ),
            final(self).num_sensors == old(self).num_sensors,
            final(self).num_outputs == old(self).num_outputs,
            k == old(global).node_innovation,
            final(global).has_split(old(self).connection_genes@[pick as int].innovation),
            final(global).split_node_of(old(self).connection_genes@[pick as int].innovation)
                == k,
            final(global).connection_list@ == old(global).connection_list@.push(
                Connection {
                    innovation: old(global).connection_list@.len() as usize,
                    input: old(self).connection_genes@[pick as int].input,
                    output: k,
                    weight: 0,
                    enabled: true,
                },
            ).push(
                Connection {
                    innovation: (old(global).connection_list@.len() + 1) as usize,
                    input: k,
                    output: old(self).connection_genes@[pick as int].output,
                    weight: 0,
                    enabled: true,
                },
            ),
            split_effect(*old(self), *final(self), *final(global), pick as int, k),
    {
        let gene = self.connection_genes[pick];
        let c: usize = gene.innovation;
        let input_node: usize = gene.input;
        let output_node: usize = gene.output;
        let mut dis = gene;
        dis.enabled = false;
        self.connection_genes.set(pick, dis);

        let ids = global.register_split(c);
        let kk: usize = ids.0;
        let cid: usize = ids.1;
        proof {
            lemma_wf_registry_growth(*self, *old(global), *global);
            assert(global.node_mutations@[global.node_mutations@.len() - 1] == (c, kk));
            assert(global.has_split(c));
            assert(global.split_node_of(c) == kk) by {
                let t2 = choose|t2: int|
                    0 <= t2 < global.node_mutations@.len() && (
                    #[trigger] global.node_mutations@[t2]).0 == c;
                if t2 < global.node_mutations@.len() - 1 {
                    assert(global.node_mutations@[t2] == old(global).node_mutations@[t2]);
                    assert(false);
                }
                assert(global.node_mutations@[t2] == (c, kk));
            }
            assert(global.connection_list@[cid as int].input == input_node);
            assert(global.connection_list@[cid as int + 1].output == output_node);
        }
        self.node_genes.push(
            Node { innovation: kk, node_type: Type::Hidden, activation_value: None },
        );
        let cid2: usize = global.connection_list.len() - 1;
        proof {
            assert(cid2 == cid + 1);
        }
        let ghost gpre = self.connection_genes@;
        let g1 = Connection {
            innovation: cid,
            input: input_node,
            output: kk,
            weight: crate::fixed::SCALE,
            enabled: true,
        };
        let g2 = Connection {
            innovation: cid2,
            input: kk,
            output: output_node,
            weight: gene.weight,
            enabled: true,
        };
        self.connection_genes.push(g1);
        self.connection_genes.push(g2);
        proof {
            let fin = self.connection_genes@;
            assert forall|i: int| 0 <= i < fin.len() implies {
                let g = #[trigger] fin[i];
                &&& g.innovation < global.connection_list@.len()
                &&& global.connection_list@[g.innovation as int].input == g.input
                &&& global.connection_list@[g.innovation as int].output == g.output
                &&& in_range(g.weight as int)
                &&& has_node_id(self.node_genes@, g.input as int)
                &&& has_node_id(self.node_genes@, g.output as int)
            } by {
                let g = fin[i];
                assert forall|idq: int|
                    has_node_id(old(self).node_genes@, idq) implies has_node_id(
                    self.node_genes@,
                    idq,
                ) by {
                    let w = choose|w: int|
                        0 <= w < old(self).node_genes@.len() && old(self).node_genes@[w].innovation
                            == idq;
                    assert(self.node_genes@[w].innovation == idq);
                }
                assert(has_node_id(self.node_genes@, kk as int)) by {
                    assert(self.node_genes@[self.node_genes@.len() - 1].innovation == kk);
                }
                if i < gpre.len() {
                    assert(g == gpre[i]);
                    if i == pick {
                        assert(g == dis);
                    } else {
                        assert(g == old(self).connection_genes@[i]);
                    }
                } else if i == gpre.len() {
                    assert(g == g1);
                } else {
                    assert(g == g2);
                }
            }
            assert forall|i: int, j: int| 0 <= i < j < fin.len() implies (
            #[trigger] fin[i]).innovation < (#[trigger] fin[j]).innovation by {
                if j < gpre.len() {
                } else if i < gpre.len() {
                    assert(fin[i].innovation < old(global).connection_list@.len());
                }
            }
            assert(self.wf(*global));

            // the gene map matches the split effect exactly
            reveal(split_effect);
            let g0 = old(self).connection_genes@;
            let ci = c as int;
            let cidi = cid as int;
            assert forall|a: int, b: int|
                0 <= a < b < g0.len() implies (#[trigger] g0[a]).innovation != (
            #[trigger] g0[b]).innovation by {
                assert(g0[a].innovation < g0[b].innovation);
            }
            assert(dis == Connection { enabled: false, ..gene });
            let base = g0.update(pick as int, dis);
            assert(gpre == base);
            lemma_gene_at_update(g0, pick as int, dis);
            assert(ci < cidi);
            let mid = base.push(g1);
            assert(mid =~= base.insert(base.len() as int, g1));
            lemma_gene_at_insert(base, base.len() as int, g1);
            assert(fin =~= mid.insert(mid.len() as int, g2));
            assert forall|i: int|
                0 <= i < mid.len() implies (#[trigger] mid[i]).innovation != g2.innovation by {
                if i < base.len() {
                    assert(mid[i] == base[i]);
                }
            }
            lemma_gene_at_insert(mid, mid.len() as int, g2);
            assert(gene_at(fin, ci) == Some(Connection { enabled: false, ..gene }));
            assert(gene_at(fin, cidi) == Some(g1));
            assert(gene_at(fin, cidi + 1) == Some(g2));
            assert forall|id: int|
                id != ci && id != cidi && id != cidi + 1 implies gene_at(fin, id) == gene_at(
                g0,
                id,
            ) by {
                assert(gene_at(fin, id) == gene_at(mid, id));
                assert(gene_at(mid, id) == gene_at(base, id));
            }
            // the recorded incoming half is exactly the minted id
            assert(global.split_conn_of(gene.innovation) == cidi) by {
                let j2 = global.split_conn_of(gene.innovation);
                assert(global.connection_list@[cidi].input == input_node
                    && global.connection_list@[cidi].output == kk);
                assert(global.connection_list@[ci].input == input_node);
                assert(0 <= j2 && j2 + 1 < global.connection_list@.len()
                    && global.connection_list@[j2].input == global.connection_list@[ci].input
                    && global.connection_list@[j2].output == kk);
                if j2 != cidi {
                    assert(!(global.connection_list@[j2].input == global.connection_list@[
                        cidi
                    ].input && global.connection_list@[j2].output == global.connection_list@[
                        cidi
                    ].output));
                    assert(false);
                }
            }
            // the fresh node id is new to this genome
            assert(!has_node_id(old(self).node_genes@, kk as int)) by {
                if has_node_id(old(self).node_genes@, kk as int) {
                    let w = choose|w: int|
                        0 <= w < old(self).node_genes@.len() && old(self).node_genes@[w].innovation
                            == kk;
                    assert(old(self).node_genes@[w].innovation < old(global).node_innovation);
                    assert(false);
                }
            }
            assert(split_effect(*old(self), *self, *global, pick as int, kk));
        }
        kk
    }

    /// Add-node structural mutation: pick a random enabled connection gene
    /// and split it (see [`Network::split_connection`]). With no enabled
    /// gene, or with the genome at its gene cap, the mutation is skipped as
    /// a recoverable no-op.
    pub fn add_node(&mut self, global: &mut Registry, rng: &mut rand::rngs::StdRng)
        requires
            old(global).wf(),
            old(self).wf(*old(global)),
        ensures
            final(global).wf(),
            final(self).wf(*final(global)),
            final(global).num_sensors == old(global).num_sensors,
            final(global).num_outputs == old(global).num_outputs,
            final(global).node_innovation >= old(global).node_innovation,
            old(global).connection_list@.len() <= final(global).connection_list@.len(),
            forall|i: int|
                0 <= i < old(global).connection_list@.len()
                    ==> final(global).connection_list@[i] == old(global).connection_list@[i],
            old(global).node_mutations@.len() <= final(global).node_mutations@.len(),
            forall|m: int|
                0 <= m < old(global).node_mutations@.len() ==> final(global).node_mutations@[m]
                    == old(global).node_mutations@[m],
            final(self).num_sensors == old(self).num_sensors,
            final(self).num_outputs == old(self).num_outputs,
            ({
                let genes0 = old(self).connection_genes@;
                if (exists|i: int| 0 <= i < genes0.len() && (#[trigger] genes0[i]).enabled)
                    && genes0.len() + 2 <= CAP_GENES {
                    exists|pick: int, kk: usize|
                        0 <= pick < genes0.len() && genes0[pick].enabled && #[trigger] split_effect(
                            *old(self),
                            *final(self),
                            *final(global),
                            pick,
                            kk,
                        )
                } else {
                    *final(self) == *old(self) && *final(global) == *old(global)
                }
            }),
    {
        let mut enabled: Vec<usize> = Vec::new();
        let mut i: usize = 0;
        while i < self.connection_genes.len()
            invariant
                i <= self.connection_genes@.len(),
                *self == *old(self),
                forall|t: int|
                    0 <= t < enabled@.len() ==> #[trigger] enabled@[t]
                        < self.connection_genes@.len() && self.connection_genes@[
                        enabled@[t] as int
                    ].enabled,
                enabled@.len() == 0 ==> forall|t: int|
                    0 <= t < i ==> !(#[trigger] self.connection_genes@[t]).enabled,
            decreases self.connection_genes@.len() - i,
        {
            if self.connection_genes[i].enabled {
                enabled.push(i);
            }
            i = i + 1;
        }
        if enabled.len() == 0 {
            return ;
        }
        if self.connection_genes.len() + 2 > CAP_GENES {
            return ;
        }
        let pick: usize = enabled[crate::rng::rng_below(rng, enabled.len())];
        let k = self.split_connection(global, pick);
        proof {
            assert(split_effect(*old(self), *self, *global, pick as int, k));
        }
    }

    /// Field-for-field copy of the genome.
    pub fn copy(&self) -> (r: Network)
        ensures
            r.node_genes@ == self.node_genes@,
            r.connection_genes@ == self.connection_genes@,
            r.num_sensors == self.num_sensors,
            r.num_outputs == self.num_outputs,
    {
        let mut nodes: Vec<Node> = Vec::new();
        let mut j: usize = 0;
        while j < self.node_genes.len()
            invariant
                j <= self.node_genes@.len(),
                nodes@ == self.node_genes@.take(j as int),
            decreases self.node_genes@.len() - j,
        {
            nodes.push(self.node_genes[j]);
            proof {
                assert(nodes@ =~= self.node_genes@.take(j + 1));
            }
            j = j + 1;
        }
        let mut genes: Vec<Connection> = Vec::new();
        let mut t: usize = 0;
        while t < self.connection_genes.len()
            invariant
                t <= self.connection_genes@.len(),
                genes@ == self.connection_genes@.take(t as int),
            decreases self.connection_genes@.len() - t,
        {
            genes.push(self.connection_genes[t]);
            proof {
                assert(genes@ =~= self.connection_genes@.take(t + 1));
            }
            t = t + 1;
        }
        proof {
            assert(nodes@ =~= self.node_genes@);
            assert(genes@ =~= self.connection_genes@);
        }
        Network {
            node_genes: nodes,
            connection_genes: genes,
            num_sensors: self.num_sensors,
            num_outputs: self.num_outputs,
        }
    }

    /// Position of the gene with innovation id `innov` in `genes`, if any.
    fn find_gene(genes: &Vec<Connection>, innov: usize) -> (r: Option<usize>)
        ensures
            match r {
                Some(j) => j < genes@.len() && genes@[j as int].innovation == innov,
                None => forall|t: int|
                    0 <= t < genes@.len() ==> (#[trigger] genes@[t]).innovation != innov,
            },
    {
        let mut j: usize = 0;
        while j < genes.len()
            invariant
                j <= genes@.len(),
                forall|t: int| 0 <= t < j ==> (#[trigger] genes@[t]).innovation != innov,
            decreases genes@.len() - j,
        {
            if genes[j].innovation == innov {
                return Some(j);
            }
            j = j + 1;
        }
        None
    }

    /// The crossover step alone: the child takes every gene of this (the
    /// primary) parent, with structure and enabled flags unchanged; where the
    /// other parent holds a gene with the same innovation id, the weight is
    /// taken from it with probability one half. Genes only the other parent
    /// holds are not inherited. The node genes are copied from this parent.
    #[verifier::loop_isolation(false)]
    pub fn crossover_genes(&self, other: &Network, rng: &mut rand::rngs::StdRng) -> (child:
        Network)
        ensures
            child.num_sensors == self.num_sensors,
            child.num_outputs == self.num_outputs,
            child.node_genes@ == self.node_genes@,
            child.connection_genes@.len() == self.connection_genes@.len(),
            forall|i: int|
                0 <= i < self.connection_genes@.len() ==> {
                    let cg = #[trigger] child.connection_genes@[i];
                    let sg = self.connection_genes@[i];
                    &&& cg.innovation == sg.innovation
                    &&& cg.input == sg.input
                    &&& cg.output == sg.output
                    &&& cg.enabled == sg.enabled
                    &&& (cg.weight == sg.weight || exists|j: int|
                        0 <= j < other.connection_genes@.len() && (
                        #[trigger] other.connection_genes@[j]).innovation == sg.innovation
                            && other.connection_genes@[j].weight == cg.weight)
                },
    {
        let mut crossed: Vec<Connection> = Vec::new();
        let mut i: usize = 0;
        while i < self.connection_genes.len()
            invariant
                i <= self.connection_genes@.len(),
                crossed@.len() == i,
                forall|t: int|
                    0 <= t < i ==> {
                        let cg = #[trigger] crossed@[t];
                        let sg = self.connection_genes@[t];
                        &&& cg.innovation == sg.innovation
                        &&& cg.input == sg.input
                        &&& cg.output == sg.output
                        &&& cg.enabled == sg.enabled
                        &&& (cg.weight == sg.weight || exists|j: int|
                            0 <= j < other.connection_genes@.len() && (
                            #[trigger] other.connection_genes@[j]).innovation == sg.innovation
                                && other.connection_genes@[j].weight == cg.weight)
                    },
            decreases self.connection_genes@.len() - i,
        {
            let mut g = self.connection_genes[i];
            match Self::find_gene(&other.connection_genes, g.innovation) {
                Some(j) => {
                    if crate::rng::chance(rng, 500) {
                        g.weight = other.connection_genes[j].weight;
                        proof {
                            assert(other.connection_genes@[j as int].innovation == g.innovation
                                && other.connection_genes@[j as int].weight == g.weight);
                        }
                    }
                },
                None => {},
            }
            crossed.push(g);
            i = i + 1;
        }
        let mut nodes: Vec<Node> = Vec::new();
        let mut j: usize = 0;
        while j < self.node_genes.len()
            invariant
                j <= self.node_genes@.len(),
                nodes@ == self.node_genes@.take(j as int),
            decreases self.node_genes@.len() - j,
        {
            nodes.push(self.node_genes[j]);
            proof {
                assert(nodes@ =~= self.node_genes@.take(j + 1));
            }
            j = j + 1;
        }
        proof {
            assert(nodes@ =~= self.node_genes@);
        }
        Network {
            node_genes: nodes,
            connection_genes: crossed,
            num_sensors: self.num_sensors,
            num_outputs: self.num_outputs,
        }
    }

    /// Crossover followed by mutation of the child (spec of the crossover
    /// step: [`Network::crossover_genes`]).
    pub fn cross(
        &self,
        other: &Network,
        global: &mut Registry,
        rng: &mut rand::rngs::StdRng,
        params: MutationParams,
    ) -> (child: Network)
        requires
            old(global).wf(),
            self.wf(*old(global)),
            other.wf(*old(global)),
            self.num_outputs >= 1,
            params.wf(),
        ensures
            final(global).wf(),
            child.wf(*final(global)),
            child.num_sensors == self.num_sensors,
            child.num_outputs == self.num_outputs,
            child.connection_genes@.len() >= self.connection_genes@.len(),
            genes_frame(self.connection_genes@, child.connection_genes@, *final(global)),
            final(global).num_sensors == old(global).num_sensors,
            final(global).num_outputs == old(global).num_outputs,
            final(global).node_innovation >= old(global).node_innovation,
            old(global).connection_list@.len() <= final(global).connection_list@.len(),
            forall|i: int|
                0 <= i < old(global).connection_list@.len()
                    ==> final(global).connection_list@[i] == old(global).connection_list@[i],
            old(global).node_mutations@.len() <= final(global).node_mutations@.len(),
            forall|m: int|
                0 <= m < old(global).node_mutations@.len() ==> final(global).node_mutations@[m]
                    == old(global).node_mutations@[m],
    {
        let mut child = self.crossover_genes(other, rng);
        proof {
            assert forall|i: int, j: int|
                0 <= i < j < child.connection_genes@.len() implies (
            #[trigger] child.connection_genes@[i]).innovation < (
            #[trigger] child.connection_genes@[j]).innovation by {
                assert(self.connection_genes@[i].innovation
                    < self.connection_genes@[j].innovation);
            }
            assert forall|i: int| 0 <= i < child.connection_genes@.len() implies {
                let g = #[trigger] child.connection_genes@[i];
                &&& g.innovation < global.connection_list@.len()
                &&& global.connection_list@[g.innovation as int].input == g.input
                &&& global.connection_list@[g.innovation as int].output == g.output
                &&& in_range(g.weight as int)
                &&& has_node_id(child.node_genes@, g.input as int)
                &&& has_node_id(child.node_genes@, g.output as int)
            } by {
                let g = child.connection_genes@[i];
                let sg = self.connection_genes@[i];
                if g.weight != sg.weight {
                    let j = choose|j: int|
                        0 <= j < other.connection_genes@.len() && (
                        #[trigger] other.connection_genes@[j]).innovation == sg.innovation
                            && other.connection_genes@[j].weight == g.weight;
                    assert(in_range(other.connection_genes@[j].weight as int));
                }
            }
            assert(child.wf(*global));
            // the crossover step keeps every gene id, endpoint and enabled
            // flag of the primary parent
            assert forall|id: int|
                match #[trigger] gene_at(self.connection_genes@, id) {
                    Some(g) => match gene_at(child.connection_genes@, id) {
                        Some(g2) => g2.input == g.input && g2.output == g.output && (g.enabled
                            && !g2.enabled ==> global.has_split(g.innovation)),
                        None => false,
                    },
                    None => true,
                } by {
                match gene_at(self.connection_genes@, id) {
                    Some(g) => {
                        let w = choose|w: int|
                            0 <= w < self.connection_genes@.len() && (
                            #[trigger] self.connection_genes@[w]).innovation == id;
                        assert forall|a: int, b: int|
                            0 <= a < b < self.connection_genes@.len() implies (
                        #[trigger] self.connection_genes@[a]).innovation != (
                        #[trigger] self.connection_genes@[b]).innovation by {
                            assert(self.connection_genes@[a].innovation
                                < self.connection_genes@[b].innovation);
                        }
                        assert forall|a: int, b: int|
                            0 <= a < b < child.connection_genes@.len() implies (
                        #[trigger] child.connection_genes@[a]).innovation != (
                        #[trigger] child.connection_genes@[b]).innovation by {
                            assert(child.connection_genes@[a].innovation
                                < child.connection_genes@[b].innovation);
                        }
                        lemma_gene_at_index(self.connection_genes@, w);
                        lemma_gene_at_index(child.connection_genes@, w);
                    },
                    None => {},
                }
            }
            assert(genes_frame(self.connection_genes@, child.connection_genes@, *global));
        }
        let ghost child0 = child.connection_genes@;
        let ghost r0 = *global;
        child.mutate_network(global, rng, params);
        proof {
            lemma_genes_frame_trans(
                self.connection_genes@,
                child0,
                child.connection_genes@,
                r0,
                *global,
            );
        }
        child
    }

    /// Weight and structural mutation: with the configured probabilities,
    /// one random gene's weight is replaced by a fresh draw or perturbed by
    /// scaled noise, and the add-node and add-connection operators are
    /// rolled independently.
    #[verifier::rlimit(100)]
    pub fn mutate_network(
        &mut self,
        global: &mut Registry,
        rng: &mut rand::rngs::StdRng,
        params: MutationParams,
    )
        requires
            old(global).wf(),
            old(self).wf(*old(global)),
            old(self).num_outputs >= 1,
            params.wf(),
        ensures
            final(global).wf(),
            final(self).wf(*final(global)),
            final(self).num_sensors == old(self).num_sensors,
            final(self).num_outputs == old(self).num_outputs,
            final(global).num_sensors == old(global).num_sensors,
            final(global).num_outputs == old(global).num_outputs,
            final(global).node_innovation >= old(global).node_innovation,
            old(global).connection_list@.len() <= final(global).connection_list@.len(),
            forall|i: int|
                0 <= i < old(global).connection_list@.len()
                    ==> final(global).connection_list@[i] == old(global).connection_list@[i],
            old(global).node_mutations@.len() <= final(global).node_mutations@.len(),
            forall|m: int|
                0 <= m < old(global).node_mutations@.len() ==> final(global).node_mutations@[m]
                    == old(global).node_mutations@[m],
            genes_frame(
                old(self).connection_genes@,
                final(self).connection_genes@,
                *final(global),
            ),
    {
        if crate::rng::chance(rng, params.weight_mutation_probability) {
            let idx: usize = crate::rng::rng_below(rng, self.connection_genes.len());
            let mut gene = self.connection_genes[idx];
            if crate::rng::chance(rng, params.weight_randomization_probability) {
                gene.weight = Self::random_weight(rng);
            } else {
                let noise: i64 = mul_sat(Self::random_weight(rng), params.weight_mutation_amount);
                gene.weight = add_sat(gene.weight, noise);
            }
            self.connection_genes.set(idx, gene);
            proof {
                assert forall|i: int| 0 <= i < self.connection_genes@.len() implies {
                    let g = #[trigger] self.connection_genes@[i];
                    &&& g.innovation < global.connection_list@.len()
                    &&& global.connection_list@[g.innovation as int].input == g.input
                    &&& global.connection_list@[g.innovation as int].output == g.output
                    &&& in_range(g.weight as int)
                    &&& has_node_id(self.node_genes@, g.input as int)
                    &&& has_node_id(self.node_genes@, g.output as int)
                } by {
                    if i != idx {
                        assert(self.connection_genes@[i] == old(self).connection_genes@[i]);
                    }
                }
                assert(self.wf(*global));
                // only one weight changed: the gene map keeps every id,
                // endpoint and enabled flag
                lemma_frame_weight(old(self).connection_genes@, idx as int, gene, *global);
            }
        }
        proof {
            assert(genes_frame(
                old(self).connection_genes@,
                self.connection_genes@,
                *global,
            ));
        }
        let ghost s1 = self.connection_genes@;
        let ghost r1 = *global;
        if crate::rng::chance(rng, params.node_mutation_probability) {
            let ghost pre_net = *self;
            self.add_node(global, rng);
            proof {
                assert(genes_frame(s1, self.connection_genes@, *global)) by {
                    if (exists|i: int|
                        0 <= i < s1.len() && (#[trigger] s1[i]).enabled) && s1.len() + 2
                        <= CAP_GENES {
                        let (pick, kk): (int, usize) = choose|pick: int, kk: usize|
                            0 <= pick < s1.len() && s1[pick].enabled && #[trigger] split_effect(
                                pre_net,
                                *self,
                                *global,
                                pick,
                                kk,
                            );
                        lemma_frame_split(pre_net, *self, *global, r1, pick, kk);
                    }
                }
                lemma_genes_frame_trans(
                    old(self).connection_genes@,
                    s1,
                    self.connection_genes@,
                    r1,
                    *global,
                );
            }
        }
        proof {
            assert(genes_frame(old(self).connection_genes@, self.connection_genes@, *global));
        }
        let ghost s2 = self.connection_genes@;
        let ghost r2 = *global;
        if crate::rng::chance(rng, params.connection_mutation_probability) {
            let ghost pre_net = *self;
            self.add_connection(global, rng);
            proof {
                lemma_frame_add_conn(pre_net, r2, *self, *global);
                lemma_genes_frame_trans(
                    old(self).connection_genes@,
                    s2,
                    self.connection_genes@,
                    r2,
                    *global,
                );
            }
        }
        proof {
            assert(genes_frame(old(self).connection_genes@, self.connection_genes@, *global));
        }
    }
}

/// The mutation probabilities (in thousandths) and the perturbation scale
/// (fixed point) that drive [`Network::mutate_network`].
#[derive(Clone, Copy)]
pub struct MutationParams {
    pub weight_mutation_probability: u64,
    pub weight_randomization_probability: u64,
    pub weight_mutation_amount: i64,
    pub node_mutation_probability: u64,
    pub connection_mutation_probability: u64,
}

impl MutationParams {
    /// Probabilities are fractions of 1000 and the perturbation scale is a
    /// representable scalar.
    pub open spec fn wf(self) -> bool {
        &&& self.weight_mutation_probability <= 1000
        &&& self.weight_randomization_probability <= 1000
        &&& self.node_mutation_probability <= 1000
        &&& self.connection_mutation_probability <= 1000
        &&& in_range(self.weight_mutation_amount as int)
    }
}

} // verus!
