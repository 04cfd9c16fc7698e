//! The seven mutation operators: three parametric (weight, bias, squashing
//! function), two growing (new node, new connection) and two shrinking
//! (remove node, remove connection), plus the dispatcher that picks one
//! uniformly.

use vstd::prelude::*;
use crate::activation_functions::ActivationFunctions;
use crate::fbits::{add_bits, sub_bits, f_sub, ONE_BITS};
use crate::genes::{ConnectionGene, NodeGene, NodeType};
use crate::helpers::{is_delta, std0};
use crate::nn::{
    find_idx, find_node, has_node, lemma_find_idx, lemma_slot_count_insert,
    lemma_slot_count_update, slot_count, NN, NNView,
};
use crate::rng::rand_below;

verus! {

/// The index of the first connection whose source is `from`, or the list
/// length when no connection has that source.
pub open spec fn first_from_idx(conns: Seq<ConnectionGene>, from: u32) -> int
    decreases conns.len(),
{
    if conns.len() == 0 {
        0
    } else if conns[0].from == from {
        0
    } else {
        1 + first_from_idx(conns.drop_first(), from)
    }
}

pub proof fn lemma_first_from_idx(conns: Seq<ConnectionGene>, from: u32)
    ensures
        ({
            let r = first_from_idx(conns, from);
            &&& 0 <= r <= conns.len()
            &&& r < conns.len() ==> conns[r].from == from
            &&& forall|j: int| 0 <= j < r ==> (#[trigger] conns[j]).from != from
        }),
    decreases conns.len(),
{
    if conns.len() > 0 && conns[0].from != from {
        let rest = conns.drop_first();
        lemma_first_from_idx(rest, from);
        assert(forall|k: int| 1 <= k < conns.len() ==> rest[k - 1] == #[trigger] conns[k]);
        let r = first_from_idx(conns, from);
        assert forall|j: int| 0 <= j < r implies (#[trigger] conns[j]).from != from by {
            if j > 0 {
                assert(rest[j - 1] == conns[j]);
            }
        }
    }
}

/// Inserts a connection before the first connection sharing its source,
/// or at the end when no connection shares it.
fn insert_by_scan(conns: &mut Vec<ConnectionGene>, c: ConnectionGene)
    ensures
        final(conns)@ == old(conns)@.insert(first_from_idx(old(conns)@, c.from), c),
{
    proof {
        lemma_first_from_idx(conns@, c.from);
    }
    let mut i: usize = 0;
    while i < conns.len()
        invariant
            i <= conns@.len(),
            conns@ == old(conns)@,
            forall|j: int| 0 <= j < i ==> (#[trigger] conns@[j]).from != c.from,
        decreases conns@.len() - i,
    {
        if conns[i].from == c.from {
            proof {
                let r = first_from_idx(conns@, c.from);
                assert(r == i as int);
            }
            conns.insert(i, c);
            return ;
        }
        i = i + 1;
    }
    proof {
        assert(first_from_idx(conns@, c.from) == conns@.len());
    }
    conns.push(c);
    proof {
        assert(conns@ =~= old(conns)@.insert(old(conns)@.len() as int, c));
    }
}

/// Whether the list already holds a connection with this exact ordered pair.
pub open spec fn conn_exists(conns: Seq<ConnectionGene>, f: u32, t: u32) -> bool {
    exists|k: int| 0 <= k < conns.len() && conns[k].from == f && conns[k].to == t
}

fn pair_exists(conns: &Vec<ConnectionGene>, f: u32, t: u32) -> (r: bool)
    ensures
        r == conn_exists(conns@, f, t),
{
    let mut i: usize = 0;
    while i < conns.len()
        invariant
            i <= conns@.len(),
            forall|j: int| 0 <= j < i ==> !((#[trigger] conns@[j]).from == f && conns@[j].to == t),
        decreases conns@.len() - i,
    {
        if conns[i].from == f && conns[i].to == t {
            return true;
        }
        i = i + 1;
    }
    false
}

/// The connection list with every edge touching the given identity removed,
/// order preserved.
pub open spec fn drop_touching(conns: Seq<ConnectionGene>, id: u32) -> Seq<ConnectionGene>
    decreases conns.len(),
{
    if conns.len() == 0 {
        Seq::empty()
    } else {
        drop_touching(conns.drop_last(), id) + (if conns.last().from == id || conns.last().to
            == id {
            Seq::empty()
        } else {
            seq![conns.last()]
        })
    }
}

pub proof fn lemma_drop_touching(conns: Seq<ConnectionGene>, id: u32)
    ensures
        forall|k: int|
            0 <= k < drop_touching(conns, id).len() ==> {
                let c = #[trigger] drop_touching(conns, id)[k];
                c.from != id && c.to != id && exists|k2: int|
                    0 <= k2 < conns.len() && conns[k2] == c
            },
    decreases conns.len(),
{
    if conns.len() > 0 {
        lemma_drop_touching(conns.drop_last(), id);
        let rest = drop_touching(conns.drop_last(), id);
        assert forall|k: int| 0 <= k < drop_touching(conns, id).len() implies {
            let c = #[trigger] drop_touching(conns, id)[k];
            c.from != id && c.to != id && exists|k2: int| 0 <= k2 < conns.len() && conns[k2] == c
        } by {
            let c = drop_touching(conns, id)[k];
            if k < rest.len() {
                assert(rest[k] == c);
                let k2 = choose|k2: int|
                    0 <= k2 < conns.drop_last().len() && conns.drop_last()[k2] == c;
                assert(conns[k2] == c);
            } else {
                assert(c == conns.last());
                assert(conns[conns.len() - 1] == c);
            }
        }
    }
}

/// The same node with only its bias replaced.
pub open spec fn with_bias(n: NodeGene, bias: u32) -> NodeGene {
    NodeGene { bias, ..n }
}

/// The same node with only its squashing function replaced.
pub open spec fn with_squash(n: NodeGene, squash: ActivationFunctions) -> NodeGene {
    NodeGene { squash, ..n }
}

/// The same connection with only its weight replaced.
pub open spec fn with_weight(c: ConnectionGene, weight: u32) -> ConnectionGene {
    ConnectionGene { weight, ..c }
}

/// The weight operator: one randomly chosen connection gets a random delta
/// added to its weight; a genome without connections is left unchanged.
pub open spec fn weight_mutated(a: NNView, b: NNView) -> bool {
    &&& b.layers == a.layers
    &&& b.nodes == a.nodes
    &&& b.fitness == a.fitness
    &&& b.next_id == a.next_id
    &&& if a.conns.len() == 0 {
        b.conns == a.conns
    } else {
        exists|i: int, d: u32|
            0 <= i < a.conns.len() && is_delta(d) && b.conns == a.conns.update(
                i,
                with_weight(a.conns[i], add_bits(a.conns[i].weight, d)),
            )
    }
}

/// The bias operator: a random node of a random layer gets a random delta
/// added to its bias.
pub open spec fn bias_mutated(a: NNView, b: NNView) -> bool {
    &&& b.layers == a.layers
    &&& b.conns == a.conns
    &&& b.fitness == a.fitness
    &&& b.next_id == a.next_id
    &&& exists|li: int, ni: int, d: u32|
        #![trigger a.layers[li][ni], is_delta(d)]
        0 <= li < a.layers.len() && 0 <= ni < a.layers[li].len() && is_delta(d) && ({
            let idx = find_idx(a.nodes, a.layers[li][ni]);
            idx >= 0 && b.nodes == a.nodes.update(
                idx,
                with_bias(a.nodes[idx], add_bits(a.nodes[idx].bias, d)),
            )
        })
}

/// The squash operator: a random node of a random layer gets a fresh
/// randomly chosen squashing function (never the pass-through).
pub open spec fn squash_mutated(a: NNView, b: NNView) -> bool {
    &&& b.layers == a.layers
    &&& b.conns == a.conns
    &&& b.fitness == a.fitness
    &&& b.next_id == a.next_id
    &&& exists|li: int, ni: int|
        #![trigger a.layers[li][ni]]
        0 <= li < a.layers.len() && 0 <= ni < a.layers[li].len() && ({
            let idx = find_idx(a.nodes, a.layers[li][ni]);
            idx >= 0 && b.nodes[idx].squash != ActivationFunctions::NoSquash && b.nodes
                == a.nodes.update(idx, with_squash(a.nodes[idx], b.nodes[idx].squash))
        })
}

/// The remove-connection operator: one randomly chosen connection is
/// removed outright; a genome without connections is left unchanged.
pub open spec fn conn_removed(a: NNView, b: NNView) -> bool {
    &&& b.layers == a.layers
    &&& b.nodes == a.nodes
    &&& b.fitness == a.fitness
    &&& b.next_id == a.next_id
    &&& if a.conns.len() == 0 {
        b.conns == a.conns
    } else {
        exists|i: int| 0 <= i < a.conns.len() && b.conns == a.conns.remove(i)
    }
}

impl NN {
    /// Adds a random delta to one randomly chosen connection's weight;
    /// does nothing when the genome has no connections.
    pub fn mutate_weight(&mut self)
        requires
            old(self)@.wf(),
        ensures
            final(self)@.wf(),
            weight_mutated(old(self)@, final(self)@),
    {
        if self.connection_genes.len() == 0 {
            return ;
        }
        let i = rand_below(self.connection_genes.len());
        let d = std0();
        let mut c = self.connection_genes[i];
        c.weight = crate::fbits::f_add(c.weight, d);
        self.connection_genes.set(i, c);
        proof {
            assert(self.connection_genes@ =~= old(self).connection_genes@.update(
                i as int,
                with_weight(
                    old(self).connection_genes@[i as int],
                    add_bits(old(self).connection_genes@[i as int].weight, d),
                ),
            ));
            assert forall|cc: int| 0 <= cc < self@.conns.len() implies has_node(
                self@.nodes,
                (#[trigger] self@.conns[cc]).from,
            ) && has_node(self@.nodes, self@.conns[cc].to) by {
                assert(self@.conns[cc].from == old(self)@.conns[cc].from);
                assert(self@.conns[cc].to == old(self)@.conns[cc].to);
            }
        }
    }

    /// Adds a random delta to the bias of a random node of a random layer.
    pub fn mutate_bias(&mut self)
        requires
            old(self)@.wf(),
        ensures
            final(self)@.wf(),
            bias_mutated(old(self)@, final(self)@),
    {
        let li = rand_below(self.node_genes_network.len());
        proof {
            assert(old(self)@.layers[li as int] == self.node_genes_network@[li as int]@);
        }
        let ni = rand_below(self.node_genes_network[li].len());
        let id = self.node_genes_network[li][ni];
        proof {
            assert(old(self)@.layers[li as int] == self.node_genes_network@[li as int]@);
            assert(has_node(self@.nodes, id));
            lemma_find_idx(self.node_genes@, id);
        }
        let d = std0();
        match find_node(&self.node_genes, id) {
            Some(fi) => {
                let mut node = self.node_genes[fi];
                node.bias = crate::fbits::f_add(node.bias, d);
                self.node_genes.set(fi, node);
                proof {
                    assert(self.node_genes@ =~= old(self).node_genes@.update(
                        fi as int,
                        with_bias(
                            old(self).node_genes@[fi as int],
                            add_bits(old(self).node_genes@[fi as int].bias, d),
                        ),
                    ));
                    lemma_same_ids_wf(old(self)@, self@);
                }
            },
            None => {
                proof {
                    assert(false);
                }
            },
        }
    }

    /// Replaces the squashing function of a random node of a random layer
    /// with a fresh randomly chosen one.
    pub fn mutate_squash(&mut self)
        requires
            old(self)@.wf(),
        ensures
            final(self)@.wf(),
            squash_mutated(old(self)@, final(self)@),
    {
        let li = rand_below(self.node_genes_network.len());
        proof {
            assert(old(self)@.layers[li as int] == self.node_genes_network@[li as int]@);
        }
        let ni = rand_below(self.node_genes_network[li].len());
        let id = self.node_genes_network[li][ni];
        proof {
            assert(old(self)@.layers[li as int] == self.node_genes_network@[li as int]@);
            assert(has_node(self@.nodes, id));
            lemma_find_idx(self.node_genes@, id);
        }
        let s = ActivationFunctions::get_random();
        match find_node(&self.node_genes, id) {
            Some(fi) => {
                let mut node = self.node_genes[fi];
                node.squash = s;
                self.node_genes.set(fi, node);
                proof {
                    assert(self.node_genes@ =~= old(self).node_genes@.update(
                        fi as int,
                        with_squash(old(self).node_genes@[fi as int], s),
                    ));
                    lemma_same_ids_wf(old(self)@, self@);
                }
            },
            None => {
                proof {
                    assert(false);
                }
            },
        }
    }

    /// Removes one randomly chosen connection outright; does nothing when
    /// the genome has no connections.
    pub fn mutate_remove_connection(&mut self)
        requires
            old(self)@.wf(),
        ensures
            final(self)@.wf(),
            conn_removed(old(self)@, final(self)@),
    {
        if self.connection_genes.len() == 0 {
            return ;
        }
        let i = rand_below(self.connection_genes.len());
        self.connection_genes.remove(i);
        proof {
            assert forall|cc: int| 0 <= cc < self@.conns.len() implies has_node(
                self@.nodes,
                (#[trigger] self@.conns[cc]).from,
            ) && has_node(self@.nodes, self@.conns[cc].to) by {
                if cc < i as int {
                    assert(self@.conns[cc] == old(self)@.conns[cc]);
                } else {
                    assert(self@.conns[cc] == old(self)@.conns[cc + 1]);
                }
            }
        }
    }

    /// Removes a random node of a random hidden layer and every connection
    /// touching it; a layer left empty is removed; does nothing when the
    /// topology has only the two mandatory layers.
    pub fn mutate_remove_node(&mut self)
        requires
            old(self)@.wf(),
        ensures
            final(self)@.wf(),
            node_removed(old(self)@, final(self)@),
    {
        if self.node_genes_network.len() == 2 {
            return ;
        }
        let li = 1 + rand_below(self.node_genes_network.len() - 2);
        proof {
            assert(old(self)@.layers[li as int] == self.node_genes_network@[li as int]@);
        }
        let node_id: u32;
        let ghost ni: int;
        if self.node_genes_network[li].len() == 1 {
            node_id = self.node_genes_network[li][0];
            self.node_genes_network.remove(li);
            proof {
                ni = 0;
                assert(self@.layers =~~= old(self)@.layers.remove(li as int));
            }
        } else {
            let nidx = rand_below(self.node_genes_network[li].len());
            node_id = self.node_genes_network[li][nidx];
            let mut layer = self.node_genes_network.remove(li);
            layer.remove(nidx);
            self.node_genes_network.insert(li, layer);
            proof {
                ni = nidx as int;
                assert(self@.layers =~~= old(self)@.layers.update(
                    li as int,
                    old(self)@.layers[li as int].remove(nidx as int),
                ));
            }
        }
        proof {
            assert(has_node(self.node_genes@, node_id));
            lemma_find_idx(self.node_genes@, node_id);
        }
        let ghost a = old(self)@;
        let ghost fidx = find_idx(self.node_genes@, node_id);
        match find_node(&self.node_genes, node_id) {
            Some(fi) => {
                self.node_genes.remove(fi);
            },
            None => {
                proof {
                    assert(false);
                }
            },
        }
        let mut new_connection_genes: Vec<ConnectionGene> = Vec::new();
        let mut ci: usize = 0;
        while ci < self.connection_genes.len()
            invariant
                ci <= self.connection_genes@.len(),
                new_connection_genes@ == drop_touching(
                    self.connection_genes@.take(ci as int),
                    node_id,
                ),
            decreases self.connection_genes@.len() - ci,
        {
            let c = self.connection_genes[ci];
            proof {
                let cc = ci as int;
                assert(self.connection_genes@.take(cc + 1).drop_last()
                    =~= self.connection_genes@.take(cc));
                assert(self.connection_genes@.take(cc + 1).last()
                    == self.connection_genes@[cc]);
            }
            if c.from != node_id && c.to != node_id {
                new_connection_genes.push(c);
                proof {
                    assert(new_connection_genes@ =~= drop_touching(
                        self.connection_genes@.take(ci as int + 1),
                        node_id,
                    ));
                }
            } else {
                proof {
                    assert(new_connection_genes@ =~= drop_touching(
                        self.connection_genes@.take(ci as int + 1),
                        node_id,
                    ));
                }
            }
            ci = ci + 1;
        }
        proof {
            assert(self.connection_genes@.take(self.connection_genes@.len() as int)
                =~= self.connection_genes@);
        }
        self.connection_genes = new_connection_genes;
        proof {
            let b = self@;
            let lii = li as int;
            let id = a.layers[lii][ni];
            assert(id == node_id);
            lemma_remove_node_wf(a, b, lii, ni, fidx);
        }
    }

    /// Adds one feed-forward connection between a random earlier layer and
    /// a random strictly later layer, inserted by first-match scan; skips a
    /// pair that already exists, and gives up after a bounded number of
    /// attempts — so it leaves the genome unchanged only when some drawn
    /// pair was already connected.
    pub fn mutate_new_connection(&mut self)
        requires
            old(self)@.wf(),
        ensures
            final(self)@.wf(),
            conn_added(old(self)@, final(self)@),
    {
        let n_layers = self.node_genes_network.len();
        let mut budget = n_layers;
        #[verifier::loop_isolation(true)]
        loop
            invariant_except_break
                old(self)@.wf(),
                n_layers == old(self)@.layers.len(),
                n_layers >= 2,
                self == old(self),
                budget <= n_layers,
            ensures
                conn_added(old(self)@, self@),
                self@.wf(),
            decreases budget,
        {
            let from_idx = rand_below(n_layers - 1);
            let to_idx = from_idx + 1 + rand_below(n_layers - from_idx - 1);
            proof {
                assert(old(self)@.layers[from_idx as int]
                    == self.node_genes_network@[from_idx as int]@);
                assert(old(self)@.layers[to_idx as int]
                    == self.node_genes_network@[to_idx as int]@);
            }
            let kf = rand_below(self.node_genes_network[from_idx].len());
            let from_id = self.node_genes_network[from_idx][kf];
            let kt = rand_below(self.node_genes_network[to_idx].len());
            let to_id = self.node_genes_network[to_idx][kt];
            proof {
                assert(old(self)@.layers[from_idx as int][kf as int] == from_id);
                assert(old(self)@.layers[to_idx as int][kt as int] == to_id);
                assert(old(self)@.layers[from_idx as int].contains(from_id));
                assert(old(self)@.layers[to_idx as int].contains(to_id));
                assert(has_node(old(self)@.nodes, from_id));
                assert(has_node(old(self)@.nodes, to_id));
            }
            if !pair_exists(&self.connection_genes, from_id, to_id) {
                let w = std0();
                let c = ConnectionGene::new(from_id, to_id, w, -1);
                let ghost prev = self.connection_genes@;
                insert_by_scan(&mut self.connection_genes, c);
                proof {
                    lemma_first_from_idx(prev, c.from);
                    assert(old(self)@.layers[from_idx as int].contains(c.from));
                    assert(old(self)@.layers[to_idx as int].contains(c.to));
                    let p = first_from_idx(prev, c.from);
                    prev.insert_ensures(p, c);
                    assert(self@.nodes == old(self)@.nodes);
                    assert(self@.conns == prev.insert(p, c));
                    assert(prev == old(self)@.conns);
                    assert(0 <= p <= prev.len());
                    assert forall|cc: int| 0 <= cc < self@.conns.len() implies has_node(
                        self@.nodes,
                        (#[trigger] self@.conns[cc]).from,
                    ) && has_node(self@.nodes, self@.conns[cc].to) by {
                        if cc < p {
                            assert(self@.conns[cc] == prev[cc]);
                        } else if cc == p {
                            assert(self@.conns[cc] == c);
                            assert(has_node(old(self)@.nodes, c.from));
                            assert(has_node(old(self)@.nodes, c.to));
                        } else {
                            assert(self@.conns[cc] == prev[cc - 1]);
                        }
                    }
                }
                break ;
            }
            if budget == 0 {
                proof {
                    // giving up: the pair drawn in this very attempt already
                    // existed, which witnesses the no-op disjunct
                    assert(conn_exists(old(self)@.conns, from_id, to_id));
                    assert((from_idx as int) < (to_idx as int) < old(self)@.layers.len());
                    assert(old(self)@.layers[from_idx as int].contains(from_id));
                    assert(old(self)@.layers[to_idx as int].contains(to_id));
                }
                break ;
            }
            budget = budget - 1;
        }
    }

    /// Inserts a new hidden node between two adjacent layers (a brand-new
    /// hidden layer right after the inputs when the first slot is chosen),
    /// splicing one connection in from the layer before and one out to the
    /// layer after; the fitness pays an immediate penalty of 1.0.
    pub fn mutate_new_node(&mut self)
        requires
            old(self)@.wf(),
            old(self).next_id < u32::MAX,
        ensures
            final(self)@.wf(),
            node_added(old(self)@, final(self)@),
            final(self)@.nodes.len() == old(self)@.nodes.len() + 1,
            final(self)@.conns.len() == old(self)@.conns.len() + 2,
            slot_count(final(self)@.layers) == slot_count(old(self)@.layers) + 1,
            final(self).fitness == sub_bits(old(self).fitness, ONE_BITS),
    {
        let ghost a = old(self)@;
        self.fitness = f_sub(self.fitness, ONE_BITS);
        let upper_limit = self.node_genes_network.len() - 2;
        let layer_no = rand_below(upper_limit + 1);
        let id = self.get_next_id();
        let bias = std0();
        let squash = ActivationFunctions::get_random();
        let node = NodeGene::new(id, NodeType::Hidden, bias, squash, 0);
        self.node_genes.push(node);

        let from_layer: usize;
        let to_layer: usize;
        if layer_no == 0 {
            let mut new_layer: Vec<u32> = Vec::new();
            new_layer.push(id);
            proof {
                assert(new_layer@ =~= seq![id]);
            }
            self.node_genes_network.insert(1, new_layer);
            from_layer = 0;
            to_layer = 2;
            proof {
                assert(self@.layers =~~= a.layers.insert(1, seq![id]));
            }
        } else {
            let mut layer = self.node_genes_network.remove(layer_no);
            layer.push(id);
            self.node_genes_network.insert(layer_no, layer);
            from_layer = layer_no - 1;
            to_layer = layer_no + 1;
            proof {
                assert(self@.layers =~~= a.layers.update(
                    layer_no as int,
                    a.layers[layer_no as int].push(id),
                ));
            }
        }
        proof {
            if layer_no == 0 {
                assert(self@.layers[0] == a.layers[0]);
                assert(self@.layers[2] == a.layers[1]);
            } else {
                assert(self@.layers[from_layer as int] == a.layers[from_layer as int]);
                assert(self@.layers[to_layer as int] == a.layers[to_layer as int]);
            }
            assert(self@.layers[from_layer as int]
                == self.node_genes_network@[from_layer as int]@);
            assert(self@.layers[to_layer as int] == self.node_genes_network@[to_layer as int]@);
        }
        let kf = rand_below(self.node_genes_network[from_layer].len());
        let from_id = self.node_genes_network[from_layer][kf];
        let kt = rand_below(self.node_genes_network[to_layer].len());
        let to_id = self.node_genes_network[to_layer][kt];
        proof {
            assert(self@.layers[from_layer as int][kf as int] == from_id);
            assert(self@.layers[to_layer as int][kt as int] == to_id);
            if layer_no == 0 {
                assert(a.layers[0][kf as int] == from_id);
                assert(a.layers[1][kt as int] == to_id);
                assert(a.layers[0].contains(from_id));
                assert(a.layers[1].contains(to_id));
            } else {
                assert(a.layers[from_layer as int][kf as int] == from_id);
                assert(a.layers[to_layer as int][kt as int] == to_id);
                assert(a.layers[from_layer as int].contains(from_id));
                assert(a.layers[to_layer as int].contains(to_id));
            }
        }
        let w1 = std0();
        let w2 = std0();
        let conn1 = ConnectionGene::new(from_id, id, w1, -1);
        let conn2 = ConnectionGene::new(id, to_id, w2, -1);
        let ghost layers_mid = self@.layers;
        let ghost conns0 = self.connection_genes@;
        insert_by_scan(&mut self.connection_genes, conn1);
        let ghost conns1 = self.connection_genes@;
        insert_by_scan(&mut self.connection_genes, conn2);
        proof {
            let b = self@;
            let lii = layer_no as int;
            if layer_no == 0 {
                assert(a.layers[0].contains(conn1.from));
                assert(a.layers[1].contains(conn2.to));
            } else {
                assert(a.layers[lii - 1].contains(conn1.from));
                assert(a.layers[lii + 1].contains(conn2.to));
            }
            assert(b.nodes == a.nodes.push(node));
            assert(b.nodes.last() == node);
            lemma_add_node_wf(a, b, lii, conn1, conn2, conns0, conns1);
        }
    }

    /// Applies exactly one uniformly chosen mutation operator.
    pub fn mutate(&mut self)
        requires
            old(self)@.wf(),
            old(self).next_id < u32::MAX,
        ensures
            final(self)@.wf(),
            mutation_step(old(self)@, final(self)@),
            final(self).next_id <= old(self).next_id + 1,
    {
        let choice = rand_below(7);
        match choice {
            0 => self.mutate_weight(),
            1 => self.mutate_bias(),
            2 => self.mutate_new_node(),
            3 => self.mutate_new_connection(),
            4 => self.mutate_squash(),
            5 => self.mutate_remove_node(),
            _ => self.mutate_remove_connection(),
        }
    }
}

/// The remove-node operator: a random node of a random hidden layer is
/// removed together with every connection touching it; a layer left empty
/// is removed; a genome without hidden layers is left unchanged.
pub open spec fn node_removed(a: NNView, b: NNView) -> bool {
    &&& b.fitness == a.fitness
    &&& b.next_id == a.next_id
    &&& if a.layers.len() == 2 {
        b.layers == a.layers && b.nodes == a.nodes && b.conns == a.conns
    } else {
        exists|li: int, ni: int|
            #![trigger a.layers[li][ni]]
            1 <= li < a.layers.len() - 1 && 0 <= ni < a.layers[li].len() && ({
                let id = a.layers[li][ni];
                let idx = find_idx(a.nodes, id);
                &&& (if a.layers[li].len() == 1 {
                    ni == 0 && b.layers == a.layers.remove(li)
                } else {
                    b.layers == a.layers.update(li, a.layers[li].remove(ni))
                })
                &&& b.nodes == (if idx >= 0 {
                    a.nodes.remove(idx)
                } else {
                    a.nodes
                })
                &&& b.conns == drop_touching(a.conns, id)
            })
    }
}

/// The new-connection operator: a feed-forward connection between a random
/// earlier layer and a random strictly later layer, inserted by first-match
/// scan, skipped when the exact ordered pair already exists; the bounded
/// retry may also give up without adding anything, but only after drawing a
/// pair that the genome already holds.
pub open spec fn conn_added(a: NNView, b: NNView) -> bool {
    &&& b.layers == a.layers
    &&& b.nodes == a.nodes
    &&& b.fitness == a.fitness
    &&& b.next_id == a.next_id
    &&& ((b.conns == a.conns && exists|fli: int, tli: int, f: u32, t: u32|
        #![trigger a.layers[fli].contains(f), a.layers[tli].contains(t)]
        0 <= fli < tli < a.layers.len() && a.layers[fli].contains(f) && a.layers[tli].contains(t)
            && conn_exists(a.conns, f, t)) || exists|fli: int, tli: int, c: ConnectionGene|
        #![trigger a.layers[fli].contains(c.from), a.layers[tli].contains(c.to)]
        0 <= fli < tli < a.layers.len() && a.layers[fli].contains(c.from)
            && a.layers[tli].contains(c.to) && !conn_exists(a.conns, c.from, c.to) && c.gater
            == -1 && is_delta(c.weight) && b.conns == a.conns.insert(
            first_from_idx(a.conns, c.from),
            c,
        ))
}

/// The new-node operator: a fresh hidden node is spliced between two
/// adjacent layers (a brand-new hidden layer right after the inputs when
/// the first slot is chosen), wired in from the layer before and out to
/// the layer after, the two new connections inserted by first-match scan;
/// the fitness pays an immediate penalty of 1.0.
pub open spec fn node_added(a: NNView, b: NNView) -> bool {
    &&& b.fitness == sub_bits(a.fitness, ONE_BITS)
    &&& b.next_id == a.next_id + 1
    &&& b.nodes.len() == a.nodes.len() + 1
    &&& b.nodes == a.nodes.push(b.nodes.last())
    &&& ({
        let n = b.nodes.last();
        n.id == a.next_id + 1 && n.node_type == NodeType::Hidden && n.value == 0 && is_delta(
            n.bias,
        ) && n.squash != ActivationFunctions::NoSquash
    })
    &&& exists|li: int, c1: ConnectionGene, c2: ConnectionGene|
        #![trigger a.layers[li], is_delta(c1.weight), is_delta(c2.weight)]
        0 <= li <= a.layers.len() - 2 && ({
            let id = b.nodes.last().id;
            &&& c1.to == id && c2.from == id
            &&& c1.gater == -1 && c2.gater == -1
            &&& is_delta(c1.weight) && is_delta(c2.weight)
            &&& (if li == 0 {
                b.layers == a.layers.insert(1, seq![id]) && a.layers[0].contains(c1.from)
                    && a.layers[1].contains(c2.to)
            } else {
                b.layers == a.layers.update(li, a.layers[li].push(id)) && a.layers[li
                    - 1].contains(c1.from) && a.layers[li + 1].contains(c2.to)
            })
            &&& ({
                let mid = a.conns.insert(first_from_idx(a.conns, c1.from), c1);
                b.conns == mid.insert(first_from_idx(mid, id), c2)
            })
        })
}

/// What one call of the mutation dispatcher may do: exactly one of the
/// seven operators, applied once.
pub open spec fn mutation_step(a: NNView, b: NNView) -> bool {
    ||| weight_mutated(a, b)
    ||| bias_mutated(a, b)
    ||| node_added(a, b)
    ||| conn_added(a, b)
    ||| squash_mutated(a, b)
    ||| node_removed(a, b)
    ||| conn_removed(a, b)
}

/// Layers, connections and counters equal, node identities unchanged
/// position by position: the well-formedness of the first carries to the
/// second.
proof fn lemma_same_ids_wf(a: NNView, b: NNView)
    requires
        a.wf(),
        b.layers == a.layers,
        b.conns == a.conns,
        b.next_id == a.next_id,
        b.nodes.len() == a.nodes.len(),
        forall|p: int| 0 <= p < a.nodes.len() ==> (#[trigger] b.nodes[p]).id == a.nodes[p].id,
    ensures
        b.wf(),
{
    assert forall|x: u32| has_node(a.nodes, x) implies has_node(b.nodes, x) by {
        let w = choose|k: int| 0 <= k < a.nodes.len() && a.nodes[k].id == x;
        assert(b.nodes[w].id == x);
    }
    assert forall|i: int, j: int|
        0 <= i < b.layers.len() && 0 <= j < b.layers[i].len() implies has_node(
        b.nodes,
        #[trigger] b.layers[i][j],
    ) by {
        assert(has_node(a.nodes, a.layers[i][j]));
    }
    assert forall|c: int| 0 <= c < b.conns.len() implies has_node(
        b.nodes,
        (#[trigger] b.conns[c]).from,
    ) && has_node(b.nodes, b.conns[c].to) by {
        assert(has_node(a.nodes, a.conns[c].from));
        assert(has_node(a.nodes, a.conns[c].to));
    }
}

/// Removal of one topology slot, its node and its connections keeps the
/// genome well-formed, and is exactly the remove-node relation.
proof fn lemma_remove_node_wf(a: NNView, b: NNView, li: int, ni: int, fidx: int)
    requires
        a.wf(),
        a.layers.len() >= 3,
        1 <= li < a.layers.len() - 1,
        0 <= ni < a.layers[li].len(),
        fidx == find_idx(a.nodes, a.layers[li][ni]),
        (if a.layers[li].len() == 1 {
            ni == 0 && b.layers == a.layers.remove(li)
        } else {
            b.layers == a.layers.update(li, a.layers[li].remove(ni))
        }),
        b.nodes == (if fidx >= 0 {
            a.nodes.remove(fidx)
        } else {
            a.nodes
        }),
        b.conns == drop_touching(a.conns, a.layers[li][ni]),
        b.fitness == a.fitness,
        b.next_id == a.next_id,
    ensures
        b.wf(),
        node_removed(a, b),
{
    let id = a.layers[li][ni];
    lemma_find_idx(a.nodes, id);
    assert(has_node(a.nodes, id));
    assert(0 <= fidx < a.nodes.len() && a.nodes[fidx].id == id);
    a.nodes.remove_ensures(fidx);
    if a.layers[li].len() == 1 {
        a.layers.remove_ensures(li);
    } else {
        a.layers[li].remove_ensures(ni);
    }

    assert forall|x: u32| has_node(a.nodes, x) && x != id implies has_node(b.nodes, x) by {
        let w = choose|k: int| 0 <= k < a.nodes.len() && a.nodes[k].id == x;
        assert(w != fidx);
        if w < fidx {
            assert(b.nodes[w].id == x);
        } else {
            assert(b.nodes[w - 1].id == x);
        }
    }
    assert forall|p: int, q: int|
        #![trigger b.nodes[p].id, b.nodes[q].id]
        0 <= p < q < b.nodes.len() implies b.nodes[p].id != b.nodes[q].id by {
        let p2 = if p < fidx {
            p
        } else {
            p + 1
        };
        let q2 = if q < fidx {
            q
        } else {
            q + 1
        };
        assert(b.nodes[p] == a.nodes[p2]);
        assert(b.nodes[q] == a.nodes[q2]);
        assert(a.nodes[p2].id != a.nodes[q2].id);
    }
    assert forall|p: int| 0 <= p < b.nodes.len() implies #[trigger] b.nodes[p].id
        <= b.next_id by {
        let p2 = if p < fidx {
            p
        } else {
            p + 1
        };
        assert(b.nodes[p] == a.nodes[p2]);
    }

    lemma_drop_touching(a.conns, id);
    assert forall|c: int| 0 <= c < b.conns.len() implies has_node(
        b.nodes,
        (#[trigger] b.conns[c]).from,
    ) && has_node(b.nodes, b.conns[c].to) by {
        let k2 = choose|k2: int| 0 <= k2 < a.conns.len() && a.conns[k2] == b.conns[c];
        assert(has_node(a.nodes, a.conns[k2].from));
        assert(has_node(a.nodes, a.conns[k2].to));
    }

    if a.layers[li].len() == 1 {
        assert forall|i: int| 0 <= i < b.layers.len() implies #[trigger] b.layers[i].len()
            >= 1 by {
            if i < li {
                assert(b.layers[i] == a.layers[i]);
            } else {
                assert(b.layers[i] == a.layers[i + 1]);
            }
        }
        assert forall|i: int, j: int, k: int, l: int|
            #![trigger b.layers[i][j], b.layers[k][l]]
            0 <= i < b.layers.len() && 0 <= j < b.layers[i].len() && 0 <= k < b.layers.len() && 0
                <= l < b.layers[k].len() && (i != k || j != l) implies b.layers[i][j]
            != b.layers[k][l] by {
            let i2 = if i < li {
                i
            } else {
                i + 1
            };
            let k2 = if k < li {
                k
            } else {
                k + 1
            };
            assert(b.layers[i] == a.layers[i2]);
            assert(b.layers[k] == a.layers[k2]);
            assert(a.layers[i2][j] != a.layers[k2][l]);
        }
        assert forall|i: int, j: int|
            0 <= i < b.layers.len() && 0 <= j < b.layers[i].len() implies has_node(
            b.nodes,
            #[trigger] b.layers[i][j],
        ) by {
            let i2 = if i < li {
                i
            } else {
                i + 1
            };
            assert(b.layers[i] == a.layers[i2]);
            assert(i2 != li);
            assert(a.layers[i2][j] != a.layers[li][ni]);
            assert(has_node(a.nodes, a.layers[i2][j]));
        }
    } else {
        let newl = a.layers[li].remove(ni);
        assert forall|i: int| 0 <= i < b.layers.len() implies #[trigger] b.layers[i].len()
            >= 1 by {
            if i != li {
                assert(b.layers[i] == a.layers[i]);
            } else {
                assert(b.layers[i] == newl);
            }
        }
        assert forall|i: int, j: int, k: int, l: int|
            #![trigger b.layers[i][j], b.layers[k][l]]
            0 <= i < b.layers.len() && 0 <= j < b.layers[i].len() && 0 <= k < b.layers.len() && 0
                <= l < b.layers[k].len() && (i != k || j != l) implies b.layers[i][j]
            != b.layers[k][l] by {
            let j2 = if i == li && j >= ni {
                j + 1
            } else {
                j
            };
            let l2 = if k == li && l >= ni {
                l + 1
            } else {
                l
            };
            assert(b.layers[i][j] == a.layers[i][j2]);
            assert(b.layers[k][l] == a.layers[k][l2]);
            assert(a.layers[i][j2] != a.layers[k][l2]);
        }
        assert forall|i: int, j: int|
            0 <= i < b.layers.len() && 0 <= j < b.layers[i].len() implies has_node(
            b.nodes,
            #[trigger] b.layers[i][j],
        ) by {
            let j2 = if i == li && j >= ni {
                j + 1
            } else {
                j
            };
            assert(b.layers[i][j] == a.layers[i][j2]);
            assert((i, j2) != (li, ni));
            assert(a.layers[i][j2] != a.layers[li][ni]);
            assert(has_node(a.nodes, a.layers[i][j2]));
        }
    }
    // seed the witness term of the relation's existential
    let witness_slot = a.layers[li][ni];
    assert(node_removed(a, b));
}

/// Splicing a fresh hidden node with its two connections keeps the genome
/// well-formed, and is exactly the new-node relation.
proof fn lemma_add_node_wf(
    a: NNView,
    b: NNView,
    li: int,
    c1: ConnectionGene,
    c2: ConnectionGene,
    conns0: Seq<ConnectionGene>,
    conns1: Seq<ConnectionGene>,
)
    requires
        a.wf(),
        a.next_id < u32::MAX,
        0 <= li <= a.layers.len() - 2,
        b.nodes.len() == a.nodes.len() + 1,
        b.nodes == a.nodes.push(b.nodes.last()),
        ({
            let n = b.nodes.last();
            n.id == a.next_id + 1 && n.node_type == NodeType::Hidden && n.value == 0 && is_delta(
                n.bias,
            ) && n.squash != ActivationFunctions::NoSquash
        }),
        c1.to == b.nodes.last().id,
        c2.from == b.nodes.last().id,
        c1.gater == -1,
        c2.gater == -1,
        is_delta(c1.weight),
        is_delta(c2.weight),
        (if li == 0 {
            b.layers == a.layers.insert(1, seq![b.nodes.last().id]) && a.layers[0].contains(
                c1.from,
            ) && a.layers[1].contains(c2.to)
        } else {
            b.layers == a.layers.update(li, a.layers[li].push(b.nodes.last().id)) && a.layers[li
                - 1].contains(c1.from) && a.layers[li + 1].contains(c2.to)
        }),
        conns0 == a.conns,
        conns1 == conns0.insert(first_from_idx(conns0, c1.from), c1),
        b.conns == conns1.insert(first_from_idx(conns1, c2.from), c2),
        b.fitness == sub_bits(a.fitness, ONE_BITS),
        b.next_id == a.next_id + 1,
    ensures
        b.wf(),
        node_added(a, b),
        b.conns.len() == a.conns.len() + 2,
        slot_count(b.layers) == slot_count(a.layers) + 1,
{
    let n = b.nodes.last();
    let id = n.id;
    if li == 0 {
        lemma_slot_count_insert(a.layers, 1, seq![id]);
    } else {
        lemma_slot_count_update(a.layers, li, a.layers[li].push(id));
    }

    assert forall|x: u32| has_node(a.nodes, x) implies has_node(b.nodes, x) && x != id by {
        let w = choose|k: int| 0 <= k < a.nodes.len() && a.nodes[k].id == x;
        assert(b.nodes[w].id == x);
        assert(a.nodes[w].id <= a.next_id);
    }
    assert(b.nodes[b.nodes.len() - 1].id == id);
    assert(has_node(b.nodes, id));

    assert forall|p: int, q: int|
        #![trigger b.nodes[p].id, b.nodes[q].id]
        0 <= p < q < b.nodes.len() implies b.nodes[p].id != b.nodes[q].id by {
        if q == b.nodes.len() - 1 {
            assert(b.nodes[p] == a.nodes[p]);
            assert(a.nodes[p].id <= a.next_id);
        } else {
            assert(b.nodes[p] == a.nodes[p]);
            assert(b.nodes[q] == a.nodes[q]);
        }
    }
    assert forall|p: int| 0 <= p < b.nodes.len() implies #[trigger] b.nodes[p].id
        <= b.next_id by {
        if p < b.nodes.len() - 1 {
            assert(b.nodes[p] == a.nodes[p]);
        }
    }

    // every slot of the new topology is either an old slot or the new id
    if li == 0 {
        assert forall|i: int| 0 <= i < b.layers.len() implies #[trigger] b.layers[i].len()
            >= 1 by {
            if i == 1 {
                assert(b.layers[1] == seq![id]);
            } else if i < 1 {
                assert(b.layers[i] == a.layers[i]);
            } else {
                assert(b.layers[i] == a.layers[i - 1]);
            }
        }
        assert forall|i: int, j: int, k: int, l: int|
            #![trigger b.layers[i][j], b.layers[k][l]]
            0 <= i < b.layers.len() && 0 <= j < b.layers[i].len() && 0 <= k < b.layers.len() && 0
                <= l < b.layers[k].len() && (i != k || j != l) implies b.layers[i][j]
            != b.layers[k][l] by {
            if i == 1 && k == 1 {
                assert(j == 0 && l == 0);
            } else if i == 1 {
                let k2 = if k < 1 {
                    k
                } else {
                    k - 1
                };
                assert(b.layers[k][l] == a.layers[k2][l]);
                assert(has_node(a.nodes, a.layers[k2][l]));
            } else if k == 1 {
                let i2 = if i < 1 {
                    i
                } else {
                    i - 1
                };
                assert(b.layers[i][j] == a.layers[i2][j]);
                assert(has_node(a.nodes, a.layers[i2][j]));
            } else {
                let i2 = if i < 1 {
                    i
                } else {
                    i - 1
                };
                let k2 = if k < 1 {
                    k
                } else {
                    k - 1
                };
                assert(b.layers[i][j] == a.layers[i2][j]);
                assert(b.layers[k][l] == a.layers[k2][l]);
                assert(a.layers[i2][j] != a.layers[k2][l]);
            }
        }
        assert forall|i: int, j: int|
            0 <= i < b.layers.len() && 0 <= j < b.layers[i].len() implies has_node(
            b.nodes,
            #[trigger] b.layers[i][j],
        ) by {
            if i == 1 {
                assert(b.layers[i][j] == id);
            } else {
                let i2 = if i < 1 {
                    i
                } else {
                    i - 1
                };
                assert(b.layers[i][j] == a.layers[i2][j]);
                assert(has_node(a.nodes, a.layers[i2][j]));
            }
        }
    } else {
        let newl = a.layers[li].push(id);
        assert forall|i: int| 0 <= i < b.layers.len() implies #[trigger] b.layers[i].len()
            >= 1 by {
            if i != li {
                assert(b.layers[i] == a.layers[i]);
            }
        }
        assert forall|i: int, j: int, k: int, l: int|
            #![trigger b.layers[i][j], b.layers[k][l]]
            0 <= i < b.layers.len() && 0 <= j < b.layers[i].len() && 0 <= k < b.layers.len() && 0
                <= l < b.layers[k].len() && (i != k || j != l) implies b.layers[i][j]
            != b.layers[k][l] by {
            let inew = i == li && j == a.layers[li].len();
            let knew = k == li && l == a.layers[li].len();
            if inew && knew {
            } else if inew {
                assert(b.layers[i][j] == id);
                assert(b.layers[k][l] == a.layers[k][l]);
                assert(has_node(a.nodes, a.layers[k][l]));
            } else if knew {
                assert(b.layers[k][l] == id);
                assert(b.layers[i][j] == a.layers[i][j]);
                assert(has_node(a.nodes, a.layers[i][j]));
            } else {
                assert(b.layers[i][j] == a.layers[i][j]);
                assert(b.layers[k][l] == a.layers[k][l]);
                assert(a.layers[i][j] != a.layers[k][l]);
            }
        }
        assert forall|i: int, j: int|
            0 <= i < b.layers.len() && 0 <= j < b.layers[i].len() implies has_node(
            b.nodes,
            #[trigger] b.layers[i][j],
        ) by {
            if i == li && j == a.layers[li].len() {
                assert(b.layers[i][j] == id);
            } else {
                assert(b.layers[i][j] == a.layers[i][j]);
                assert(has_node(a.nodes, a.layers[i][j]));
            }
        }
    }

    lemma_first_from_idx(conns0, c1.from);
    lemma_first_from_idx(conns1, c2.from);
    let p1 = first_from_idx(conns0, c1.from);
    let p2 = first_from_idx(conns1, c2.from);
    conns0.insert_ensures(p1, c1);
    conns1.insert_ensures(p2, c2);
    if li == 0 {
        let w1 = choose|k: int| 0 <= k < a.layers[0].len() && a.layers[0][k] == c1.from;
        assert(has_node(a.nodes, a.layers[0][w1]));
        let w2 = choose|k: int| 0 <= k < a.layers[1].len() && a.layers[1][k] == c2.to;
        assert(has_node(a.nodes, a.layers[1][w2]));
    } else {
        let w1 = choose|k: int| 0 <= k < a.layers[li - 1].len() && #[trigger] a.layers[li
            - 1][k] == c1.from;
        assert(has_node(a.nodes, a.layers[li - 1][w1]));
        let w2 = choose|k: int| 0 <= k < a.layers[li + 1].len() && #[trigger] a.layers[li
            + 1][k] == c2.to;
        assert(has_node(a.nodes, a.layers[li + 1][w2]));
    }
    assert(has_node(a.nodes, c1.from) && has_node(a.nodes, c2.to));
    assert forall|cc: int| 0 <= cc < b.conns.len() implies has_node(
        b.nodes,
        (#[trigger] b.conns[cc]).from,
    ) && has_node(b.nodes, b.conns[cc].to) by {
        if cc == p2 {
            assert(b.conns[cc] == c2);
        } else {
            let cm = if cc < p2 {
                cc
            } else {
                cc - 1
            };
            assert(b.conns[cc] == conns1[cm]);
            if cm == p1 {
                assert(conns1[cm] == c1);
            } else {
                let co = if cm < p1 {
                    cm
                } else {
                    cm - 1
                };
                assert(conns1[cm] == a.conns[co]);
                assert(has_node(a.nodes, a.conns[co].from));
                assert(has_node(a.nodes, a.conns[co].to));
            }
        }
    }
    assert(b.wf());
    // seed the witness terms of the relation's existential
    let witness_layer = a.layers[li];
    assert(0 <= li <= a.layers.len() - 2 && is_delta(c1.weight) && is_delta(c2.weight));
    assert(node_added(a, b));
}

} // verus!
