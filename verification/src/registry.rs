//! The global innovation registry: one per evolutionary run, shared by every
//! genome, so that identical structural mutations in different genomes get
//! identical historical markings.

use vstd::prelude::*;

use crate::genes::Connection;
use crate::graph::{acyclic, has_edge, reaches, lemma_acyclic_push, lemma_reach_push_decompose,
    lemma_no_out_edges, lemma_no_in_edges};

verus! {

/// The directed graph spanned by a sequence of connections.
pub open spec fn edges_of(conns: Seq<Connection>) -> Seq<(int, int)> {
    conns.map_values(|c: Connection| (c.input as int, c.output as int))
}

/// Node kind dictated by the global id layout: ids `0..num_sensors` are
/// sensors, `num_sensors` is the bias, the next `num_outputs` ids are outputs,
/// everything above is hidden.
pub open spec fn type_for_id(id: int, num_sensors: int, num_outputs: int) -> crate::genes::Type {
    if id < num_sensors {
        crate::genes::Type::Sensor
    } else if id == num_sensors {
        crate::genes::Type::Bias
    } else if id <= num_sensors + num_outputs {
        crate::genes::Type::Output
    } else {
        crate::genes::Type::Hidden
    }
}

pub struct Registry {
    pub num_sensors: usize,
    pub num_outputs: usize,
    /// Next free node id; all ids below it are allocated.
    pub node_innovation: usize,
    /// For each split that ever happened: (innovation id of the split
    /// connection, id of the node the split created).
    pub node_mutations: Vec<(usize, usize)>,
    /// Every connection ever created, indexed by its innovation id.
    pub connection_list: Vec<Connection>,
    /// For each node id, the innovation ids of the connections leaving it.
    pub connection_lookup: Vec<Vec<usize>>,
}

impl Registry {
    /// A connection record is consistent with the id layout: endpoints are
    /// allocated ids, the target is neither a sensor nor the bias, and the
    /// source is not an output.
    pub open spec fn conn_ok(self, c: Connection) -> bool {
        &&& c.input < self.node_innovation
        &&& c.output < self.node_innovation
        &&& c.output > self.num_sensors
        &&& !(self.num_sensors < c.input <= self.num_sensors + self.num_outputs)
    }

    /// Well-formedness of the registry: ids are dense, the lookup table is an
    /// exact reverse index, source/target pairs are unique, recorded splits
    /// point at their two connections, and the global graph is acyclic.
    pub open spec fn wf(self) -> bool {
        let conns = self.connection_list@;
        &&& self.node_innovation >= self.num_sensors + self.num_outputs + 1
        &&& self.connection_lookup@.len() == self.node_innovation
        &&& forall|i: int|
            0 <= i < conns.len() ==> (#[trigger] conns[i]).innovation == i && self.conn_ok(
                conns[i],
            )
        &&& forall|i: int, j: int|
            0 <= i < j < conns.len() ==> !((#[trigger] conns[i]).input == (
            #[trigger] conns[j]).input && conns[i].output == conns[j].output)
        &&& forall|n: int, k: int|
            0 <= n < self.connection_lookup@.len() && 0 <= k < self.connection_lookup@[n]@.len()
                ==> #[trigger] self.connection_lookup@[n]@[k] < conns.len() && conns[
                self.connection_lookup@[n]@[k] as int
            ].input == n
        &&& forall|i: int|
            0 <= i < conns.len() ==> self.connection_lookup@[(#[trigger] conns[i]).input as int]@
                .contains(i as usize)
        &&& forall|m: int|
            0 <= m < self.node_mutations@.len() ==> {
                let s = (#[trigger] self.node_mutations@[m]).0;
                let k = self.node_mutations@[m].1;
                &&& s < conns.len()
                &&& self.num_sensors + self.num_outputs < k < self.node_innovation
                &&& exists|j: int|
                    0 <= j && j + 1 < conns.len() && (#[trigger] conns[j]).input == conns[
                        s as int
                    ].input && conns[j].output == k && conns[j + 1].input == k && conns[
                        j + 1
                    ].output == conns[s as int].output
            }
        &&& forall|m1: int, m2: int|
            0 <= m1 < m2 < self.node_mutations@.len() ==> (#[trigger] self.node_mutations@[m1]).0
                != (#[trigger] self.node_mutations@[m2]).0
        &&& acyclic(edges_of(conns))
    }

    /// Fresh registry for a run with the given sensor/output counts: node ids
    /// for the sensors, the bias and the outputs are pre-allocated, and no
    /// connection exists yet.
    pub fn new(num_sensors: usize, num_outputs: usize) -> (r: Registry)
        requires
            num_sensors + num_outputs + 1 <= usize::MAX,
        ensures
            r.wf(),
            r.num_sensors == num_sensors,
            r.num_outputs == num_outputs,
            r.node_innovation == num_sensors + num_outputs + 1,
            r.node_mutations@.len() == 0,
            r.connection_list@.len() == 0,
    {
        let count: usize = num_sensors + num_outputs + 1;
        let mut lookup: Vec<Vec<usize>> = Vec::new();
        let mut i: usize = 0;
        while i < count
            invariant
                i <= count,
                lookup@.len() == i,
                forall|n: int| 0 <= n < i ==> (#[trigger] lookup@[n])@.len() == 0,
            decreases count - i,
        {
            lookup.push(Vec::new());
            i = i + 1;
        }
        let r = Registry {
            num_sensors,
            num_outputs,
            node_innovation: count,
            node_mutations: Vec::new(),
            connection_list: Vec::new(),
            connection_lookup: lookup,
        };
        proof {
            assert(edges_of(r.connection_list@).len() == 0);
            assert forall|a: int, b: int| #[trigger]
                has_edge(edges_of(r.connection_list@), a, b) implies false by {
                let i = choose|i: int|
                    0 <= i < edges_of(r.connection_list@).len() && edges_of(r.connection_list@)[i]
                        == (a, b);
            }
        }
        r
    }

    /// Register a brand-new connection pair and hand out its innovation id.
    /// The caller must have established (by the reachability search) that the
    /// new edge cannot close a cycle.
    pub fn add_global_connection(&mut self, from: usize, to: usize) -> (id: usize)
        requires
            old(self).wf(),
            from < old(self).node_innovation,
            to < old(self).node_innovation,
            to > old(self).num_sensors,
            !(old(self).num_sensors < from <= old(self).num_sensors + old(self).num_outputs),
            forall|i: int|
                0 <= i < old(self).connection_list@.len() ==> !((
                #[trigger] old(self).connection_list@[i]).input == from && old(
                    self,
                ).connection_list@[i].output == to),
            !reaches(edges_of(old(self).connection_list@), to as int, from as int),
        ensures
            final(self).wf(),
            id == old(self).connection_list@.len(),
            final(self).connection_list@ == old(self).connection_list@.push(
                Connection { innovation: id, input: from, output: to, weight: 0, enabled: true },
            ),
            final(self).node_innovation == old(self).node_innovation,
            final(self).num_sensors == old(self).num_sensors,
            final(self).num_outputs == old(self).num_outputs,
            final(self).node_mutations@ == old(self).node_mutations@,
    {
        let id: usize = self.connection_list.len();
        let c = Connection { innovation: id, input: from, output: to, weight: 0, enabled: true };
        self.connection_list.push(c);
        self.connection_lookup[from].push(id);
        proof {
            let oldc = old(self).connection_list@;
            let newc = self.connection_list@;
            assert(edges_of(newc) =~= edges_of(oldc).push((from as int, to as int)));
            lemma_acyclic_push(edges_of(oldc), from as int, to as int);
            assert forall|i: int|
                0 <= i < newc.len() implies self.connection_lookup@[(
            #[trigger] newc[i]).input as int]@.contains(i as usize) by {
                if i < oldc.len() {
                    assert(old(self).connection_lookup@[oldc[i].input as int]@.contains(
                        i as usize,
                    ));
                    let t = choose|t: int|
                        0 <= t < old(self).connection_lookup@[oldc[i].input as int]@.len() && old(
                            self,
                        ).connection_lookup@[oldc[i].input as int]@[t] == i as usize;
                    assert(self.connection_lookup@[newc[i].input as int]@[t] == i as usize);
                } else {
                    let l = self.connection_lookup@[from as int]@;
                    assert(l[l.len() - 1] == id);
                }
            }
            assert forall|m: int| 0 <= m < self.node_mutations@.len() implies {
                let s = (#[trigger] self.node_mutations@[m]).0;
                let k = self.node_mutations@[m].1;
                exists|j: int|
                    0 <= j && j + 1 < newc.len() && (#[trigger] newc[j]).input == newc[
                        s as int
                    ].input && newc[j].output == k && newc[j + 1].input == k && newc[
                        j + 1
                    ].output == newc[s as int].output
            } by {
                let s = self.node_mutations@[m].0;
                let k = self.node_mutations@[m].1;
                let j = choose|j: int|
                    0 <= j && j + 1 < oldc.len() && (#[trigger] oldc[j]).input == oldc[
                        s as int
                    ].input && oldc[j].output == k && oldc[j + 1].input == k && oldc[
                        j + 1
                    ].output == oldc[s as int].output;
                assert(newc[j] == oldc[j] && newc[j + 1] == oldc[j + 1] && newc[s as int] == oldc[
                    s as int
                ]);
            }
        }
        id
    }

    /// Record the split of the connection `split` (which must never have been
    /// split before): mints a fresh node id `k` and the two connection ids
    /// `cid` (into `k`) and `cid + 1` (out of `k`), and registers all three.
    pub fn register_split(&mut self, split: usize) -> (ids: (usize, usize))
        requires
            old(self).wf(),
            split < old(self).connection_list@.len(),
            forall|m: int|
                0 <= m < old(self).node_mutations@.len() ==> (
                #[trigger] old(self).node_mutations@[m]).0 != split,
        ensures
            final(self).wf(),
            ids.0 == old(self).node_innovation,
            ids.1 == old(self).connection_list@.len(),
            final(self).node_innovation == old(self).node_innovation + 1,
            final(self).num_sensors == old(self).num_sensors,
            final(self).num_outputs == old(self).num_outputs,
            final(self).connection_list@ == old(self).connection_list@.push(
                Connection {
                    innovation: ids.1,
                    input: old(self).connection_list@[split as int].input,
                    output: ids.0,
                    weight: 0,
                    enabled: true,
                },
            ).push(
                Connection {
                    innovation: (ids.1 + 1) as usize,
                    input: ids.0,
                    output: old(self).connection_list@[split as int].output,
                    weight: 0,
                    enabled: true,
                },
            ),
            final(self).node_mutations@ == old(self).node_mutations@.push((split, ids.0)),
    {
        let k: usize = self.node_innovation;
        let cid: usize = self.connection_list.len();
        let input_node: usize = self.connection_list[split].input;
        let output_node: usize = self.connection_list[split].output;

        let c1 = Connection {
            innovation: cid,
            input: input_node,
            output: k,
            weight: 0,
            enabled: true,
        };
        self.connection_list.push(c1);
        self.connection_lookup[input_node].push(cid);
        let mut fresh: Vec<usize> = Vec::new();
        let cid2: usize = self.connection_list.len();
        fresh.push(cid2);
        let c2 = Connection {
            innovation: cid2,
            input: k,
            output: output_node,
            weight: 0,
            enabled: true,
        };
        self.connection_list.push(c2);
        self.connection_lookup.push(fresh);
        self.node_innovation = self.connection_lookup.len();
        self.node_mutations.push((split, k));

        proof {
            let oldc = old(self).connection_list@;
            let g0 = edges_of(oldc);
            let g1 = edges_of(oldc.push(c1));
            let g2 = edges_of(self.connection_list@);
            assert(g1 =~= g0.push((input_node as int, k as int)));
            assert(g2 =~= g1.push((k as int, output_node as int)));

            // the fresh node has no outgoing edge in g0, so nothing but k
            // itself reaches backward into the new edge's source
            assert forall|i: int| 0 <= i < g0.len() implies (#[trigger] g0[i]).0 != k as int by {
                assert(oldc[i].input < k);
            }
            if reaches(g0, k as int, input_node as int) {
                lemma_no_out_edges(g0, k as int, input_node as int);
            }
            lemma_acyclic_push(g0, input_node as int, k as int);

            // in g1 the only edge into k comes from input_node, and the split
            // edge input_node -> output_node already existed in g0, so
            // output_node cannot reach k without closing a cycle in g0
            if reaches(g1, output_node as int, k as int) {
                lemma_reach_push_decompose(
                    g0,
                    (input_node as int, k as int),
                    output_node as int,
                    k as int,
                );
                assert forall|i: int| 0 <= i < g0.len() implies (#[trigger] g0[i]).1
                    != k as int by {
                    assert(oldc[i].output < k);
                }
                if reaches(g0, output_node as int, k as int) {
                    lemma_no_in_edges(g0, k as int, output_node as int);
                    assert(false);
                } else {
                    assert(reaches(g0, output_node as int, input_node as int));
                    assert(g0[split as int] == (input_node as int, output_node as int));
                    assert(has_edge(g0, input_node as int, output_node as int));
                    assert(false);
                }
            }
            lemma_acyclic_push(g1, k as int, output_node as int);

            // lookup completeness carries over to the extended table
            let newc = self.connection_list@;
            assert forall|i: int|
                0 <= i < newc.len() implies self.connection_lookup@[(
            #[trigger] newc[i]).input as int]@.contains(i as usize) by {
                if i < oldc.len() {
                    assert(old(self).connection_lookup@[oldc[i].input as int]@.contains(
                        i as usize,
                    ));
                    let t = choose|t: int|
                        0 <= t < old(self).connection_lookup@[oldc[i].input as int]@.len() && old(
                            self,
                        ).connection_lookup@[oldc[i].input as int]@[t] == i as usize;
                    assert(self.connection_lookup@[newc[i].input as int]@[t] == i as usize);
                } else if i == oldc.len() {
                    let l = self.connection_lookup@[input_node as int]@;
                    assert(l[l.len() - 1] == cid);
                } else {
                    assert(self.connection_lookup@[k as int]@[0] == cid2);
                }
            }

            // every split record, old or new, points at its two connections
            assert forall|m: int| 0 <= m < self.node_mutations@.len() implies {
                let s = (#[trigger] self.node_mutations@[m]).0;
                let kk = self.node_mutations@[m].1;
                exists|j: int|
                    0 <= j && j + 1 < newc.len() && (#[trigger] newc[j]).input == newc[
                        s as int
                    ].input && newc[j].output == kk && newc[j + 1].input == kk && newc[
                        j + 1
                    ].output == newc[s as int].output
            } by {
                let s = self.node_mutations@[m].0;
                let kk = self.node_mutations@[m].1;
                if m < old(self).node_mutations@.len() {
                    let j = choose|j: int|
                        0 <= j && j + 1 < oldc.len() && (#[trigger] oldc[j]).input == oldc[
                            s as int
                        ].input && oldc[j].output == kk && oldc[j + 1].input == kk && oldc[
                            j + 1
                        ].output == oldc[s as int].output;
                    assert(newc[j] == oldc[j] && newc[j + 1] == oldc[j + 1] && newc[s as int]
                        == oldc[s as int]);
                } else {
                    assert(s == split && kk == k);
                    assert(newc[cid as int].input == newc[split as int].input && newc[
                        cid as int
                    ].output == k && newc[cid as int + 1].input == k && newc[
                        cid as int + 1
                    ].output == newc[split as int].output);
                }
            }
        }
        (k, cid)
    }

    /// Some split of the connection with innovation id `c` is on record.
    pub open spec fn has_split(self, c: usize) -> bool {
        exists|m: int|
            0 <= m < self.node_mutations@.len() && (#[trigger] self.node_mutations@[m]).0 == c
    }

    /// The node id that the recorded split of `c` minted.
    pub open spec fn split_node_of(self, c: usize) -> usize {
        let m = choose|m: int|
            0 <= m < self.node_mutations@.len() && (#[trigger] self.node_mutations@[m]).0 == c;
        self.node_mutations@[m].1
    }

    /// The innovation id of the incoming half of the recorded split of `c`
    /// (the outgoing half is the next id).
    pub open spec fn split_conn_of(self, c: usize) -> int {
        choose|j: int|
            0 <= j && j + 1 < self.connection_list@.len()
                && (#[trigger] self.connection_list@[j]).input == self.connection_list@[
                c as int
            ].input && self.connection_list@[j].output == self.split_node_of(c)
    }

    /// The innovation id of the registered connection from `input_node` to
    /// `output_node`, if that pair was ever created.
    pub fn find_connection(&self, input_node: usize, output_node: usize) -> (r: Option<usize>)
        requires
            self.wf(),
            input_node < self.node_innovation,
        ensures
            match r {
                Some(id) => id < self.connection_list@.len()
                    && self.connection_list@[id as int].input == input_node
                    && self.connection_list@[id as int].output == output_node,
                None => forall|i: int|
                    0 <= i < self.connection_list@.len() ==> !((
                    #[trigger] self.connection_list@[i]).input == input_node
                        && self.connection_list@[i].output == output_node),
            },
    {
        let outgoing: &Vec<usize> = &self.connection_lookup[input_node];
        let mut k: usize = 0;
        while k < outgoing.len()
            invariant
                self.wf(),
                input_node < self.node_innovation,
                outgoing == self.connection_lookup@[input_node as int],
                k <= outgoing@.len(),
                forall|t: int|
                    0 <= t < k ==> self.connection_list@[#[trigger] outgoing@[t] as int].output
                        != output_node,
            decreases outgoing@.len() - k,
        {
            let id: usize = outgoing[k];
            if self.connection_list[id].output == output_node {
                return Some(id);
            }
            k = k + 1;
        }
        proof {
            assert forall|i: int|
                0 <= i < self.connection_list@.len() implies !((
            #[trigger] self.connection_list@[i]).input == input_node
                && self.connection_list@[i].output == output_node) by {
                if self.connection_list@[i].input == input_node
                    && self.connection_list@[i].output == output_node {
                    assert(self.connection_lookup@[input_node as int]@.contains(i as usize));
                    let t = choose|t: int|
                        0 <= t < self.connection_lookup@[input_node as int]@.len()
                            && self.connection_lookup@[input_node as int]@[t] == i as usize;
                    assert(self.connection_list@[outgoing@[t] as int].output != output_node);
                }
            }
        }
        None
    }
}

/// Historical markings converge: once some genome's split of connection `c`
/// is on record, any later state of the same registry hands every further
/// split of `c` exactly the same node id and the same two connection ids.
/// Together with the contract of [`crate::network::Network::split_connection`]
/// this shows that independently-evolving genomes that split the same
/// connection produce identical ids.
pub proof fn lemma_innovation_convergence(r1: Registry, r2: Registry, c: usize)
    requires
        r1.wf(),
        r2.wf(),
        r1.has_split(c),
        r1.node_mutations@.len() <= r2.node_mutations@.len(),
        forall|m: int|
            0 <= m < r1.node_mutations@.len() ==> r2.node_mutations@[m] == r1.node_mutations@[m],
        r1.connection_list@.len() <= r2.connection_list@.len(),
        forall|i: int|
            0 <= i < r1.connection_list@.len() ==> r2.connection_list@[i]
                == r1.connection_list@[i],
    ensures
        r2.has_split(c),
        r2.split_node_of(c) == r1.split_node_of(c),
        r2.split_conn_of(c) == r1.split_conn_of(c),
{
    let m1 = choose|m: int|
        0 <= m < r1.node_mutations@.len() && (#[trigger] r1.node_mutations@[m]).0 == c;
    assert(r2.node_mutations@[m1].0 == c);
    assert(r2.has_split(c));
    let m2 = choose|m: int|
        0 <= m < r2.node_mutations@.len() && (#[trigger] r2.node_mutations@[m]).0 == c;
    // split keys are unique, so the same record is found in both states
    if m2 < r1.node_mutations@.len() {
        assert(r1.node_mutations@[m2].0 == c);
        assert(m1 == m2);
    } else {
        assert(r2.node_mutations@[m1].0 == r2.node_mutations@[m2].0);
        assert(false);
    }
    let k = r1.split_node_of(c);
    let j1 = r1.split_conn_of(c);
    assert(exists|j: int|
        0 <= j && j + 1 < r1.connection_list@.len() && (#[trigger] r1.connection_list@[j]).input
            == r1.connection_list@[c as int].input && r1.connection_list@[j].output == k);
    assert(0 <= j1 && j1 + 1 < r1.connection_list@.len() && r1.connection_list@[j1].input
        == r1.connection_list@[c as int].input && r1.connection_list@[j1].output == k);
    let j2 = r2.split_conn_of(c);
    assert(r2.connection_list@[j1].input == r2.connection_list@[c as int].input
        && r2.connection_list@[j1].output == k);
    assert(0 <= j2 && j2 + 1 < r2.connection_list@.len() && r2.connection_list@[j2].input
        == r2.connection_list@[c as int].input && r2.connection_list@[j2].output == k);
    // source/target pairs are unique, so the connection pair is found at the
    // same innovation id in both states
    if j1 != j2 {
        assert(!(r2.connection_list@[j1].input == r2.connection_list@[j2].input
            && r2.connection_list@[j1].output == r2.connection_list@[j2].output));
        assert(false);
    }
}

} // verus!
