//! The genome: a layered topology of node identities, a node table, an
//! ordered connection list, a fitness scalar and a counter for minting new
//! node identities.  The evaluator makes a single deterministic pass over
//! the connection list in stored order.

use vstd::prelude::*;
use crate::fbits::{add_bits, bits_of_int, gt_bits, sub_bits, f_add, f_gt, f_of_usize, f_sub};
use crate::genes::{node_output_spec, with_value, ConnectionGene, NodeGene, NodeType};
use crate::helpers::{is_delta, std0};

verus! {

/// One candidate network.  `node_genes_network` is the layered topology
/// (layer 0 holds the input identities, the last layer the output
/// identities); `node_genes` is the node table; `connection_genes` is the
/// ordered edge list; `fitness` is a binary32 bit pattern.
#[derive(Debug, PartialEq)]
pub struct NN {
    pub node_genes_network: Vec<Vec<u32>>,
    pub node_genes: Vec<NodeGene>,
    pub connection_genes: Vec<ConnectionGene>,
    pub fitness: u32,
    pub next_id: u32,
}

/// The mathematical shape of a genome.
pub ghost struct NNView {
    pub layers: Seq<Seq<u32>>,
    pub nodes: Seq<NodeGene>,
    pub conns: Seq<ConnectionGene>,
    pub fitness: u32,
    pub next_id: u32,
}

impl View for NN {
    type V = NNView;

    open spec fn view(&self) -> NNView {
        NNView {
            layers: self.node_genes_network@.map_values(|l: Vec<u32>| l@),
            nodes: self.node_genes@,
            conns: self.connection_genes@,
            fitness: self.fitness,
            next_id: self.next_id,
        }
    }
}

/// Whether some node in the table carries the given identity.
pub open spec fn has_node(nodes: Seq<NodeGene>, id: u32) -> bool {
    exists|k: int| 0 <= k < nodes.len() && nodes[k].id == id
}

impl NNView {
    /// The genome invariants: at least two layers, none empty, every
    /// identity in exactly one layer slot, every identity in the topology
    /// and on a connection present in the node table, table identities
    /// unique, and no identity above the minting counter.
    pub open spec fn wf(self) -> bool {
        &&& self.layers.len() >= 2
        &&& forall|i: int| 0 <= i < self.layers.len() ==> #[trigger] self.layers[i].len() >= 1
        &&& forall|i: int, j: int, k: int, l: int|
            #![trigger self.layers[i][j], self.layers[k][l]]
            0 <= i < self.layers.len() && 0 <= j < self.layers[i].len() && 0 <= k
                < self.layers.len() && 0 <= l < self.layers[k].len() && (i != k || j != l)
                ==> self.layers[i][j] != self.layers[k][l]
        &&& forall|i: int, j: int|
            0 <= i < self.layers.len() && 0 <= j < self.layers[i].len() ==> has_node(
                self.nodes,
                #[trigger] self.layers[i][j],
            )
        &&& forall|p: int, q: int|
            #![trigger self.nodes[p].id, self.nodes[q].id]
            0 <= p < q < self.nodes.len() ==> self.nodes[p].id != self.nodes[q].id
        &&& forall|c: int|
            0 <= c < self.conns.len() ==> has_node(self.nodes, #[trigger] self.conns[c].from)
                && has_node(self.nodes, self.conns[c].to)
        &&& forall|p: int| 0 <= p < self.nodes.len() ==> #[trigger] self.nodes[p].id <= self.next_id
    }
}

/// The index of the first node with the given identity, or -1.
pub open spec fn find_idx(nodes: Seq<NodeGene>, id: u32) -> int
    decreases nodes.len(),
{
    if nodes.len() == 0 {
        -1
    } else if nodes[0].id == id {
        0
    } else {
        let r = find_idx(nodes.drop_first(), id);
        if r == -1 {
            -1
        } else {
            r + 1
        }
    }
}

pub proof fn lemma_find_idx(nodes: Seq<NodeGene>, id: u32)
    ensures
        ({
            let r = find_idx(nodes, id);
            &&& (r == -1 <==> !has_node(nodes, id))
            &&& r != -1 ==> 0 <= r < nodes.len() && nodes[r].id == id && (forall|j: int|
                0 <= j < r ==> nodes[j].id != id)
        }),
    decreases nodes.len(),
{
    if nodes.len() == 0 {
    } else if nodes[0].id == id {
        assert(0 <= 0 < nodes.len() && nodes[0].id == id);
        assert(has_node(nodes, id));
    } else {
        let rest = nodes.drop_first();
        lemma_find_idx(rest, id);
        assert(forall|k: int| 1 <= k < nodes.len() ==> rest[k - 1] == #[trigger] nodes[k]);
        if has_node(nodes, id) {
            let w = choose|k: int| 0 <= k < nodes.len() && nodes[k].id == id;
            assert(rest[w - 1].id == id);
            assert(has_node(rest, id));
        }
        if has_node(rest, id) {
            let w = choose|k: int| 0 <= k < rest.len() && rest[k].id == id;
            assert(rest[w] == nodes[w + 1]);
            assert(has_node(nodes, id));
        }
        let r = find_idx(nodes, id);
        if r != -1 {
            assert(rest[r - 1] == nodes[r]);
            assert forall|j: int| 0 <= j < r implies nodes[j].id != id by {
                if j > 0 {
                    assert(rest[j - 1] == nodes[j]);
                }
            }
        }
    }
}

/// Finds the position of a node identity in the table, scanning forward.
pub fn find_node(nodes: &Vec<NodeGene>, id: u32) -> (r: Option<usize>)
    ensures
        match r {
            Some(i) => find_idx(nodes@, id) == i as int && i < nodes@.len() && nodes@[i as int].id
                == id,
            None => find_idx(nodes@, id) == -1,
        },
{
    proof {
        lemma_find_idx(nodes@, id);
    }
    let mut i: usize = 0;
    while i < nodes.len()
        invariant
            i <= nodes@.len(),
            forall|j: int| 0 <= j < i ==> nodes@[j].id != id,
        decreases nodes@.len() - i,
    {
        if nodes[i].id == id {
            return Some(i);
        }
        i = i + 1;
    }
    None
}

/// One evaluator step: read the source node's output and accumulate it
/// into the destination node's value; a missing endpoint makes the step a
/// no-op on the table.
pub open spec fn step_conn(nodes: Seq<NodeGene>, c: ConnectionGene) -> Seq<NodeGene> {
    let fi = find_idx(nodes, c.from);
    if fi == -1 {
        nodes
    } else {
        let out = node_output_spec(nodes[fi]);
        let ti = find_idx(nodes, c.to);
        if ti == -1 {
            nodes
        } else {
            nodes.update(ti, with_value(nodes[ti], add_bits(nodes[ti].value, out)))
        }
    }
}

/// The whole forward pass: the connections applied in stored order.
pub open spec fn run_conns(nodes: Seq<NodeGene>, conns: Seq<ConnectionGene>) -> Seq<NodeGene>
    decreases conns.len(),
{
    if conns.len() == 0 {
        nodes
    } else {
        step_conn(run_conns(nodes, conns.drop_last()), conns.last())
    }
}

/// Accumulating one external input value into the node with the given
/// identity; a missing node is skipped.
pub open spec fn add_one_input(nodes: Seq<NodeGene>, id: u32, v: u32) -> Seq<NodeGene> {
    let fi = find_idx(nodes, id);
    if fi == -1 {
        nodes
    } else {
        nodes.update(fi, with_value(nodes[fi], add_bits(nodes[fi].value, v)))
    }
}

/// All input values accumulated into the input-layer nodes, in layer order.
pub open spec fn add_inputs(nodes: Seq<NodeGene>, ids: Seq<u32>, vals: Seq<u32>) -> Seq<NodeGene>
    decreases ids.len(),
{
    if ids.len() == 0 || vals.len() == 0 {
        nodes
    } else {
        add_one_input(
            add_inputs(nodes, ids.drop_last(), vals.drop_last()),
            ids.last(),
            vals.last(),
        )
    }
}

/// The output scan from position `i` with the current best `(cur_v, cur_i)`:
/// a node strictly greater than the best seen (or position 0) takes over;
/// a missing node is skipped.
pub open spec fn select_from(
    nodes: Seq<NodeGene>,
    outs: Seq<u32>,
    i: int,
    cur_v: u32,
    cur_i: usize,
) -> usize
    decreases outs.len() - i,
{
    if i < 0 || i >= outs.len() {
        cur_i
    } else {
        let fi = find_idx(nodes, outs[i]);
        if fi == -1 {
            select_from(nodes, outs, i + 1, cur_v, cur_i)
        } else {
            let v = node_output_spec(nodes[fi]);
            if gt_bits(v, cur_v) || i == 0 {
                select_from(nodes, outs, i + 1, v, i as usize)
            } else {
                select_from(nodes, outs, i + 1, cur_v, cur_i)
            }
        }
    }
}

/// The index of the output-layer node with the greatest output value
/// (earliest index on ties; index 0 is always a candidate).
pub open spec fn select_output(nodes: Seq<NodeGene>, outs: Seq<u32>) -> usize {
    select_from(nodes, outs, 0, 0u32, 0)
}

/// Every node's transient value reset to 0.0.
pub open spec fn zero_values(nodes: Seq<NodeGene>) -> Seq<NodeGene> {
    nodes.map_values(|n: NodeGene| with_value(n, 0u32))
}

/// Two node tables that differ at most in their transient values.
pub open spec fn same_shape(a: Seq<NodeGene>, b: Seq<NodeGene>) -> bool {
    &&& a.len() == b.len()
    &&& forall|p: int| 0 <= p < a.len() ==> #[trigger] b[p] == with_value(a[p], b[p].value)
}

pub proof fn lemma_run_conns_shape(nodes: Seq<NodeGene>, conns: Seq<ConnectionGene>)
    ensures
        same_shape(nodes, run_conns(nodes, conns)),
    decreases conns.len(),
{
    if conns.len() > 0 {
        lemma_run_conns_shape(nodes, conns.drop_last());
        let mid = run_conns(nodes, conns.drop_last());
        let b = step_conn(mid, conns.last());
        lemma_find_idx(mid, conns.last().from);
        lemma_find_idx(mid, conns.last().to);
        assert forall|p: int| 0 <= p < nodes.len() implies #[trigger] b[p] == with_value(
            nodes[p],
            b[p].value,
        ) by {
            assert(mid[p] == with_value(nodes[p], mid[p].value));
        }
    }
}

pub proof fn lemma_add_inputs_shape(nodes: Seq<NodeGene>, ids: Seq<u32>, vals: Seq<u32>)
    ensures
        same_shape(nodes, add_inputs(nodes, ids, vals)),
    decreases ids.len(),
{
    if ids.len() > 0 && vals.len() > 0 {
        lemma_add_inputs_shape(nodes, ids.drop_last(), vals.drop_last());
        let mid = add_inputs(nodes, ids.drop_last(), vals.drop_last());
        let b = add_one_input(mid, ids.last(), vals.last());
        lemma_find_idx(mid, ids.last());
        assert forall|p: int| 0 <= p < nodes.len() implies #[trigger] b[p] == with_value(
            nodes[p],
            b[p].value,
        ) by {
            assert(mid[p] == with_value(nodes[p], mid[p].value));
        }
    }
}

/// Tables of the same shape reset to the same table.
pub proof fn lemma_zero_values_same_shape(a: Seq<NodeGene>, b: Seq<NodeGene>)
    requires
        same_shape(a, b),
    ensures
        zero_values(a) == zero_values(b),
{
    assert(zero_values(a) =~= zero_values(b));
}

/// The total number of identity slots in a topology, summed across all
/// layers.
pub open spec fn slot_count(layers: Seq<Seq<u32>>) -> int
    decreases layers.len(),
{
    if layers.len() == 0 {
        0
    } else {
        slot_count(layers.drop_last()) + layers.last().len()
    }
}

pub proof fn lemma_slot_count_concat(a: Seq<Seq<u32>>, b: Seq<Seq<u32>>)
    ensures
        slot_count(a + b) == slot_count(a) + slot_count(b),
    decreases b.len(),
{
    if b.len() == 0 {
        assert(a + b =~= a);
    } else {
        lemma_slot_count_concat(a, b.drop_last());
        assert((a + b).drop_last() =~= a + b.drop_last());
        assert((a + b).last() == b.last());
    }
}

/// Inserting one layer adds exactly its length to the slot count.
pub proof fn lemma_slot_count_insert(layers: Seq<Seq<u32>>, p: int, l: Seq<u32>)
    requires
        0 <= p <= layers.len(),
    ensures
        slot_count(layers.insert(p, l)) == slot_count(layers) + l.len(),
{
    let a = layers.subrange(0, p);
    let b = layers.subrange(p, layers.len() as int);
    assert(layers.insert(p, l) == a.push(l) + b);
    assert(a.push(l).drop_last() =~= a);
    lemma_slot_count_concat(a.push(l), b);
    lemma_slot_count_concat(a, b);
    assert(a + b =~= layers);
}

/// Replacing one layer shifts the slot count by the length difference.
pub proof fn lemma_slot_count_update(layers: Seq<Seq<u32>>, p: int, l: Seq<u32>)
    requires
        0 <= p < layers.len(),
    ensures
        slot_count(layers.update(p, l)) == slot_count(layers) - layers[p].len() + l.len(),
{
    let a = layers.subrange(0, p);
    let b = layers.subrange(p + 1, layers.len() as int);
    assert(layers.update(p, l) =~= a.push(l) + b);
    assert(layers =~= a.push(layers[p]) + b);
    assert(a.push(l).drop_last() =~= a);
    assert(a.push(layers[p]).drop_last() =~= a);
    lemma_slot_count_concat(a.push(l), b);
    lemma_slot_count_concat(a.push(layers[p]), b);
}

/// The fitness penalised by structural complexity: the stored fitness
/// minus each layer's node count, then minus the connection count, each
/// subtraction in binary32.
pub open spec fn sub_layer_counts(f: u32, layers: Seq<Seq<u32>>) -> u32
    decreases layers.len(),
{
    if layers.len() == 0 {
        f
    } else {
        sub_bits(sub_layer_counts(f, layers.drop_last()), bits_of_int(layers.last().len() as int))
    }
}

pub open spec fn fitness_spec(v: NNView) -> u32 {
    sub_bits(sub_layer_counts(v.fitness, v.layers), bits_of_int(v.conns.len() as int))
}

/// The ordered (from, to) pairs of a connection list.
pub open spec fn conn_pairs(conns: Seq<ConnectionGene>) -> Seq<(u32, u32)> {
    conns.map_values(|c: ConnectionGene| (c.from, c.to))
}

/// The connections one input identity gets at construction: one to each
/// output-role node, in output-layer order.
pub open spec fn row_pairs(from: u32, outs: Seq<NodeGene>) -> Seq<(u32, u32)>
    decreases outs.len(),
{
    if outs.len() == 0 {
        Seq::empty()
    } else {
        row_pairs(from, outs.drop_last()) + (if outs.last().node_type == NodeType::Output {
            seq![(from, outs.last().id)]
        } else {
            Seq::empty()
        })
    }
}

/// The full construction wiring: every input-role node connected to every
/// output-role node, in input-major, output-minor order.
pub open spec fn cross_pairs(ins: Seq<NodeGene>, outs: Seq<NodeGene>) -> Seq<(u32, u32)>
    decreases ins.len(),
{
    if ins.len() == 0 {
        Seq::empty()
    } else {
        cross_pairs(ins.drop_last(), outs) + (if ins.last().node_type == NodeType::Input {
            row_pairs(ins.last().id, outs)
        } else {
            Seq::empty()
        })
    }
}

/// How many nodes of a sequence carry the given role.
pub open spec fn count_of_type(nodes: Seq<NodeGene>, t: NodeType) -> int
    decreases nodes.len(),
{
    if nodes.len() == 0 {
        0
    } else {
        count_of_type(nodes.drop_last(), t) + (if nodes.last().node_type == t {
            1int
        } else {
            0int
        })
    }
}

pub proof fn lemma_row_pairs_len(from: u32, outs: Seq<NodeGene>)
    ensures
        row_pairs(from, outs).len() == count_of_type(outs, NodeType::Output),
    decreases outs.len(),
{
    if outs.len() > 0 {
        lemma_row_pairs_len(from, outs.drop_last());
    }
}

pub proof fn lemma_cross_pairs_len(ins: Seq<NodeGene>, outs: Seq<NodeGene>)
    ensures
        cross_pairs(ins, outs).len() == count_of_type(ins, NodeType::Input) * count_of_type(
            outs,
            NodeType::Output,
        ),
        0 <= count_of_type(ins, NodeType::Input) <= ins.len(),
        0 <= count_of_type(outs, NodeType::Output) <= outs.len(),
    decreases ins.len(),
{
    lemma_count_of_type_bound(outs, NodeType::Output);
    lemma_count_of_type_bound(ins, NodeType::Input);
    if ins.len() > 0 {
        lemma_cross_pairs_len(ins.drop_last(), outs);
        let a = count_of_type(ins.drop_last(), NodeType::Input);
        let b = count_of_type(outs, NodeType::Output);
        if ins.last().node_type == NodeType::Input {
            lemma_row_pairs_len(ins.last().id, outs);
            assert((a + 1) * b == a * b + b) by (nonlinear_arith);
        }
    }
}

pub proof fn lemma_count_of_type_bound(nodes: Seq<NodeGene>, t: NodeType)
    ensures
        0 <= count_of_type(nodes, t) <= nodes.len(),
    decreases nodes.len(),
{
    if nodes.len() > 0 {
        lemma_count_of_type_bound(nodes.drop_last(), t);
    }
}

/// How many times an ordered pair occurs in a wiring.
pub open spec fn count_pair(ps: Seq<(u32, u32)>, p: (u32, u32)) -> int
    decreases ps.len(),
{
    if ps.len() == 0 {
        0
    } else {
        count_pair(ps.drop_last(), p) + (if ps.last() == p {
            1int
        } else {
            0int
        })
    }
}

proof fn lemma_count_pair_empty(p: (u32, u32))
    ensures
        count_pair(Seq::empty(), p) == 0,
{
}

proof fn lemma_count_pair_single(x: (u32, u32), p: (u32, u32))
    ensures
        count_pair(seq![x], p) == (if x == p {
            1int
        } else {
            0int
        }),
{
    assert(seq![x].drop_last() =~= Seq::<(u32, u32)>::empty());
    assert(seq![x].last() == x);
    lemma_count_pair_empty(p);
}

proof fn lemma_count_pair_concat(a: Seq<(u32, u32)>, b: Seq<(u32, u32)>, p: (u32, u32))
    ensures
        count_pair(a + b, p) == count_pair(a, p) + count_pair(b, p),
    decreases b.len(),
{
    if b.len() == 0 {
        assert(a + b =~= a);
    } else {
        lemma_count_pair_concat(a, b.drop_last(), p);
        assert((a + b).drop_last() =~= a + b.drop_last());
        assert((a + b).last() == b.last());
    }
}

proof fn lemma_row_pairs_other_from(f: u32, outs: Seq<NodeGene>, p: (u32, u32))
    requires
        p.0 != f,
    ensures
        count_pair(row_pairs(f, outs), p) == 0,
    decreases outs.len(),
{
    if outs.len() > 0 {
        lemma_row_pairs_other_from(f, outs.drop_last(), p);
        if outs.last().node_type == NodeType::Output {
            lemma_count_pair_concat(
                row_pairs(f, outs.drop_last()),
                seq![(f, outs.last().id)],
                p,
            );
            lemma_count_pair_single((f, outs.last().id), p);
        } else {
            lemma_count_pair_concat(row_pairs(f, outs.drop_last()), Seq::empty(), p);
            lemma_count_pair_empty(p);
        }
    }
}

proof fn lemma_row_pairs_absent(f: u32, outs: Seq<NodeGene>, t: u32)
    requires
        forall|k: int|
            0 <= k < outs.len() && (#[trigger] outs[k]).node_type == NodeType::Output
                ==> outs[k].id != t,
    ensures
        count_pair(row_pairs(f, outs), (f, t)) == 0,
    decreases outs.len(),
{
    if outs.len() > 0 {
        lemma_row_pairs_absent(f, outs.drop_last(), t);
        if outs.last().node_type == NodeType::Output {
            lemma_count_pair_concat(
                row_pairs(f, outs.drop_last()),
                seq![(f, outs.last().id)],
                (f, t),
            );
            lemma_count_pair_single((f, outs.last().id), (f, t));
        } else {
            lemma_count_pair_concat(row_pairs(f, outs.drop_last()), Seq::empty(), (f, t));
            lemma_count_pair_empty((f, t));
        }
    }
}

proof fn lemma_row_pairs_once(f: u32, outs: Seq<NodeGene>, j: int)
    requires
        forall|p: int, q: int|
            #![trigger outs[p].id, outs[q].id]
            0 <= p < q < outs.len() ==> outs[p].id != outs[q].id,
        0 <= j < outs.len(),
        outs[j].node_type == NodeType::Output,
    ensures
        count_pair(row_pairs(f, outs), (f, outs[j].id)) == 1,
    decreases outs.len(),
{
    let t = outs[j].id;
    if j == outs.len() - 1 {
        assert(forall|k: int|
            0 <= k < outs.drop_last().len() ==> #[trigger] outs.drop_last()[k] == outs[k]);
        lemma_row_pairs_absent(f, outs.drop_last(), t);
        lemma_count_pair_concat(row_pairs(f, outs.drop_last()), seq![(f, t)], (f, t));
        lemma_count_pair_single((f, t), (f, t));
    } else {
        assert(forall|k: int|
            0 <= k < outs.drop_last().len() ==> #[trigger] outs.drop_last()[k] == outs[k]);
        lemma_row_pairs_once(f, outs.drop_last(), j);
        if outs.last().node_type == NodeType::Output {
            lemma_count_pair_concat(
                row_pairs(f, outs.drop_last()),
                seq![(f, outs.last().id)],
                (f, t),
            );
            assert(outs.last().id != t);
            lemma_count_pair_single((f, outs.last().id), (f, t));
        } else {
            lemma_count_pair_concat(row_pairs(f, outs.drop_last()), Seq::empty(), (f, t));
            lemma_count_pair_empty((f, t));
        }
    }
}

proof fn lemma_cross_pairs_absent(ins: Seq<NodeGene>, outs: Seq<NodeGene>, fid: u32, t: u32)
    requires
        forall|k: int|
            0 <= k < ins.len() && (#[trigger] ins[k]).node_type == NodeType::Input ==> ins[k].id
                != fid,
    ensures
        count_pair(cross_pairs(ins, outs), (fid, t)) == 0,
    decreases ins.len(),
{
    if ins.len() > 0 {
        lemma_cross_pairs_absent(ins.drop_last(), outs, fid, t);
        if ins.last().node_type == NodeType::Input {
            lemma_count_pair_concat(
                cross_pairs(ins.drop_last(), outs),
                row_pairs(ins.last().id, outs),
                (fid, t),
            );
            lemma_row_pairs_other_from(ins.last().id, outs, (fid, t));
        } else {
            lemma_count_pair_concat(cross_pairs(ins.drop_last(), outs), Seq::empty(), (fid, t));
            lemma_count_pair_empty((fid, t));
        }
    }
}

/// After construction, every input-role node is connected to every
/// output-role node exactly once: for node identities that are unique
/// within each given layer, the construction wiring contains each ordered
/// (input id, output id) pair exactly once.  Together with
/// `lemma_cross_pairs_len`, the wiring's length is exactly the product of
/// the role counts.
pub proof fn lemma_new_fully_connected(ins: Seq<NodeGene>, outs: Seq<NodeGene>, i: int, j: int)
    requires
        forall|p: int, q: int|
            #![trigger ins[p].id, ins[q].id]
            0 <= p < q < ins.len() ==> ins[p].id != ins[q].id,
        forall|p: int, q: int|
            #![trigger outs[p].id, outs[q].id]
            0 <= p < q < outs.len() ==> outs[p].id != outs[q].id,
        0 <= i < ins.len(),
        ins[i].node_type == NodeType::Input,
        0 <= j < outs.len(),
        outs[j].node_type == NodeType::Output,
    ensures
        count_pair(cross_pairs(ins, outs), (ins[i].id, outs[j].id)) == 1,
    decreases ins.len(),
{
    let fid = ins[i].id;
    let t = outs[j].id;
    if i == ins.len() - 1 {
        assert(forall|k: int|
            0 <= k < ins.drop_last().len() ==> #[trigger] ins.drop_last()[k] == ins[k]);
        lemma_cross_pairs_absent(ins.drop_last(), outs, fid, t);
        lemma_count_pair_concat(cross_pairs(ins.drop_last(), outs), row_pairs(fid, outs), (fid, t));
        lemma_row_pairs_once(fid, outs, j);
    } else {
        assert(forall|k: int|
            0 <= k < ins.drop_last().len() ==> #[trigger] ins.drop_last()[k] == ins[k]);
        lemma_new_fully_connected(ins.drop_last(), outs, i, j);
        if ins.last().node_type == NodeType::Input {
            lemma_count_pair_concat(
                cross_pairs(ins.drop_last(), outs),
                row_pairs(ins.last().id, outs),
                (fid, t),
            );
            assert(ins.last().id != fid);
            lemma_row_pairs_other_from(ins.last().id, outs, (fid, t));
        } else {
            lemma_count_pair_concat(cross_pairs(ins.drop_last(), outs), Seq::empty(), (fid, t));
            lemma_count_pair_empty((fid, t));
        }
    }
}

impl NN {
    /// Builds a genome fully connecting the input-role nodes of
    /// `input_layer` to the output-role nodes of `output_layer`, one
    /// random-weight connection per ordered pair; both given layers are
    /// installed verbatim as the two-layer topology.
    pub fn new(input_layer: Vec<NodeGene>, output_layer: Vec<NodeGene>) -> (r: NN)
        requires
            input_layer@.len() * output_layer@.len() < u32::MAX as int,
        ensures
            conn_pairs(r@.conns) == cross_pairs(input_layer@, output_layer@),
            forall|c: int|
                0 <= c < r@.conns.len() ==> (#[trigger] r@.conns[c]).gater == -1 && is_delta(
                    r@.conns[c].weight,
                ),
            forall|c: int|
                0 <= c < r@.conns.len() ==> has_node(r@.nodes, (#[trigger] r@.conns[c]).from)
                    && has_node(r@.nodes, r@.conns[c].to),
            r@.nodes == input_layer@ + output_layer@,
            r@.layers.len() == 2,
            r@.layers[0] == input_layer@.map_values(|n: NodeGene| n.id),
            r@.layers[1] == output_layer@.map_values(|n: NodeGene| n.id),
            r@.fitness == 0u32,
            r@.next_id as int == cross_pairs(input_layer@, output_layer@).len(),
    {
        let mut connection_genes: Vec<ConnectionGene> = Vec::new();
        let mut next_id: u32 = 0;

        proof {
            lemma_cross_pairs_len(input_layer@, output_layer@);
        }
        let mut i: usize = 0;
        while i < input_layer.len()
            invariant
                i <= input_layer@.len(),
                conn_pairs(connection_genes@) == cross_pairs(input_layer@.take(i as int), output_layer@),
                next_id as int == connection_genes@.len(),
                connection_genes@.len() <= i * output_layer@.len(),
                forall|c: int|
                    0 <= c < connection_genes@.len() ==> (#[trigger] connection_genes@[c]).gater
                        == -1 && is_delta(connection_genes@[c].weight),
                forall|c: int|
                    0 <= c < connection_genes@.len() ==> has_node(
                        input_layer@ + output_layer@,
                        (#[trigger] connection_genes@[c]).from,
                    ) && has_node(input_layer@ + output_layer@, connection_genes@[c].to),
            decreases input_layer@.len() - i,
        {
            if input_layer[i].node_type == NodeType::Input {
                proof {
                    assert(output_layer@.take(0) =~= Seq::<NodeGene>::empty());
                    assert(conn_pairs(connection_genes@) =~= cross_pairs(
                        input_layer@.take(i as int),
                        output_layer@,
                    ) + row_pairs(input_layer@[i as int].id, output_layer@.take(0)));
                }
                let mut j: usize = 0;
                while j < output_layer.len()
                    invariant
                        j <= output_layer@.len(),
                        conn_pairs(connection_genes@) == cross_pairs(
                            input_layer@.take(i as int),
                            output_layer@,
                        ) + row_pairs(input_layer@[i as int].id, output_layer@.take(j as int)),
                        next_id as int == connection_genes@.len(),
                        connection_genes@.len() <= i * output_layer@.len() + j,
                        forall|c: int|
                            0 <= c < connection_genes@.len() ==> (
                            #[trigger] connection_genes@[c]).gater == -1 && is_delta(
                                connection_genes@[c].weight,
                            ),
                        forall|c: int|
                            0 <= c < connection_genes@.len() ==> has_node(
                                input_layer@ + output_layer@,
                                (#[trigger] connection_genes@[c]).from,
                            ) && has_node(input_layer@ + output_layer@, connection_genes@[c].to),
                    decreases output_layer@.len() - j,
                {
                    if output_layer[j].node_type == NodeType::Output {
                        let w = std0();
                        let c = ConnectionGene::new(input_layer[i].id, output_layer[j].id, w, -1);
                        let ghost prev = connection_genes@;
                        proof {
                            assert((input_layer@ + output_layer@)[i as int] == input_layer@[i as int]);
                            assert((input_layer@ + output_layer@)[input_layer@.len() + j] == output_layer@[j as int]);
                            assert(i * output_layer@.len() + j < input_layer@.len() * output_layer@.len()) by (nonlinear_arith)
                                requires
                                    0 <= i < input_layer@.len(),
                                    0 <= j < output_layer@.len(),
                            ;
                        }
                        connection_genes.push(c);
                        next_id = next_id + 1;
                        proof {
                            let jj = j as int;
                            let id = input_layer@[i as int].id;
                            assert(output_layer@.take(jj + 1).drop_last() =~= output_layer@.take(jj));
                            assert(output_layer@.take(jj + 1).last() == output_layer@[jj]);
                            assert(row_pairs(id, output_layer@.take(jj + 1)) == row_pairs(
                                id,
                                output_layer@.take(jj),
                            ) + seq![(id, output_layer@[jj].id)]);
                            assert(conn_pairs(connection_genes@) =~= conn_pairs(prev).push(
                                (c.from, c.to),
                            ));
                            assert(conn_pairs(connection_genes@) =~= cross_pairs(
                                input_layer@.take(i as int),
                                output_layer@,
                            ) + row_pairs(id, output_layer@.take(jj + 1)));
                            assert(forall|cc: int|
                                0 <= cc < prev.len() ==> #[trigger] connection_genes@[cc]
                                    == prev[cc]);
                            assert(connection_genes@[prev.len() as int] == c);
                            assert(is_delta(c.weight));
                        }
                    } else {
                        proof {
                            let jj = j as int;
                            let id = input_layer@[i as int].id;
                            assert(output_layer@.take(jj + 1).drop_last() =~= output_layer@.take(jj));
                            assert(output_layer@.take(jj + 1).last() == output_layer@[jj]);
                            assert(row_pairs(id, output_layer@.take(jj + 1)) =~= row_pairs(
                                id,
                                output_layer@.take(jj),
                            ));
                            assert(conn_pairs(connection_genes@) =~= cross_pairs(
                                input_layer@.take(i as int),
                                output_layer@,
                            ) + row_pairs(id, output_layer@.take(jj + 1)));
                        }
                    }
                    j = j + 1;
                }
                proof {
                    let ii = i as int;
                    assert(output_layer@.take(output_layer@.len() as int) =~= output_layer@);
                    assert(input_layer@.take(ii + 1).drop_last() =~= input_layer@.take(ii));
                    assert(input_layer@.take(ii + 1).last() == input_layer@[ii]);
                    assert(conn_pairs(connection_genes@) =~= cross_pairs(
                        input_layer@.take(ii + 1),
                        output_layer@,
                    ));
                    assert(connection_genes@.len() <= (i + 1) * output_layer@.len())
                        by (nonlinear_arith)
                        requires
                            connection_genes@.len() <= i * output_layer@.len()
                                + output_layer@.len(),
                    ;
                }
            } else {
                proof {
                    let ii = i as int;
                    assert(input_layer@.take(ii + 1).drop_last() =~= input_layer@.take(ii));
                    assert(input_layer@.take(ii + 1).last() == input_layer@[ii]);
                    assert(conn_pairs(connection_genes@) =~= cross_pairs(
                        input_layer@.take(ii + 1),
                        output_layer@,
                    ));
                    assert(connection_genes@.len() <= (i + 1) * output_layer@.len())
                        by (nonlinear_arith)
                        requires
                            connection_genes@.len() <= i * output_layer@.len(),
                            output_layer@.len() >= 0,
                    ;
                }
            }
            i = i + 1;
        }
        proof {
            assert(input_layer@.take(input_layer@.len() as int) =~= input_layer@);
        }

        let mut node_genes: Vec<NodeGene> = Vec::new();
        let mut layer0: Vec<u32> = Vec::new();
        let mut layer1: Vec<u32> = Vec::new();

        let mut k: usize = 0;
        while k < input_layer.len()
            invariant
                k <= input_layer@.len(),
                node_genes@ == input_layer@.take(k as int),
                layer0@ == input_layer@.take(k as int).map_values(|n: NodeGene| n.id),
            decreases input_layer@.len() - k,
        {
            let node = input_layer[k];
            node_genes.push(node);
            layer0.push(node.id);
            proof {
                let kk = k as int;
                assert(node_genes@ =~= input_layer@.take(kk + 1));
                assert(layer0@ =~= input_layer@.take(kk + 1).map_values(|n: NodeGene| n.id));
            }
            k = k + 1;
        }
        let mut k: usize = 0;
        while k < output_layer.len()
            invariant
                k <= output_layer@.len(),
                node_genes@ == input_layer@ + output_layer@.take(k as int),
                layer1@ == output_layer@.take(k as int).map_values(|n: NodeGene| n.id),
            decreases output_layer@.len() - k,
        {
            let node = output_layer[k];
            node_genes.push(node);
            layer1.push(node.id);
            proof {
                let kk = k as int;
                assert(node_genes@ =~= input_layer@ + output_layer@.take(kk + 1));
                assert(layer1@ =~= output_layer@.take(kk + 1).map_values(|n: NodeGene| n.id));
            }
            k = k + 1;
        }
        proof {
            assert(input_layer@.take(input_layer@.len() as int) =~= input_layer@);
            assert(output_layer@.take(output_layer@.len() as int) =~= output_layer@);
        }

        let mut node_genes_network: Vec<Vec<u32>> = Vec::new();
        node_genes_network.push(layer0);
        node_genes_network.push(layer1);

        let r = NN {
            node_genes_network,
            node_genes,
            connection_genes,
            fitness: 0,
            next_id,
        };
        proof {
            assert(r@.layers =~= r.node_genes_network@.map_values(|l: Vec<u32>| l@));
            assert(r@.layers.len() == 2);
            assert(r@.nodes =~= input_layer@ + output_layer@);
        }
        r
    }

    /// A deep value-copy: the result is value-equal to the source.  The
    /// copy owns all of its layers, nodes and connections, so no later
    /// mutation of either genome can reach the other — independence is
    /// given by ownership, which is why no contract clause states it.
    pub fn clone(nn: &NN) -> (r: NN)
        ensures
            r@ == nn@,
    {
        let mut node_genes_network: Vec<Vec<u32>> = Vec::new();
        let mut i: usize = 0;
        while i < nn.node_genes_network.len()
            invariant
                i <= nn.node_genes_network@.len(),
                node_genes_network@.len() == i,
                forall|p: int|
                    0 <= p < i ==> #[trigger] node_genes_network@[p]@
                        == nn.node_genes_network@[p]@,
            decreases nn.node_genes_network@.len() - i,
        {
            let mut network_layer: Vec<u32> = Vec::new();
            let mut j: usize = 0;
            while j < nn.node_genes_network[i].len()
                invariant
                    0 <= i < nn.node_genes_network@.len(),
                    j <= nn.node_genes_network@[i as int]@.len(),
                    network_layer@ == nn.node_genes_network@[i as int]@.take(j as int),
                decreases nn.node_genes_network@[i as int]@.len() - j,
            {
                network_layer.push(nn.node_genes_network[i][j]);
                proof {
                    assert(network_layer@ =~= nn.node_genes_network@[i as int]@.take(
                        j as int + 1,
                    ));
                }
                j = j + 1;
            }
            proof {
                assert(nn.node_genes_network@[i as int]@.take(
                    nn.node_genes_network@[i as int]@.len() as int,
                ) =~= nn.node_genes_network@[i as int]@);
            }
            node_genes_network.push(network_layer);
            i = i + 1;
        }

        let mut node_genes: Vec<NodeGene> = Vec::new();
        let mut i: usize = 0;
        while i < nn.node_genes.len()
            invariant
                i <= nn.node_genes@.len(),
                node_genes@ == nn.node_genes@.take(i as int),
            decreases nn.node_genes@.len() - i,
        {
            node_genes.push(nn.node_genes[i]);
            proof {
                assert(node_genes@ =~= nn.node_genes@.take(i as int + 1));
            }
            i = i + 1;
        }

        let mut connection_genes: Vec<ConnectionGene> = Vec::new();
        let mut i: usize = 0;
        while i < nn.connection_genes.len()
            invariant
                i <= nn.connection_genes@.len(),
                connection_genes@ == nn.connection_genes@.take(i as int),
            decreases nn.connection_genes@.len() - i,
        {
            connection_genes.push(nn.connection_genes[i]);
            proof {
                assert(connection_genes@ =~= nn.connection_genes@.take(i as int + 1));
            }
            i = i + 1;
        }

        let r = NN {
            node_genes_network,
            node_genes,
            connection_genes,
            fitness: nn.fitness,
            next_id: nn.next_id,
        };
        proof {
            assert(nn.node_genes@.take(nn.node_genes@.len() as int) =~= nn.node_genes@);
            assert(nn.connection_genes@.take(nn.connection_genes@.len() as int)
                =~= nn.connection_genes@);
            assert(r@.layers =~~= nn@.layers);
            assert(r@ == nn@);
        }
        r
    }

    /// One pass over the connection list in stored order, each connection
    /// adding its source's output into its destination, followed by the scan
    /// of the output layer for the index with the greatest output value.
    /// Transient values are left as the pass accumulated them.
    pub fn get_output(&mut self) -> (r: usize)
        requires
            old(self)@.layers.len() >= 1,
        ensures
            final(self).node_genes@ == run_conns(
                old(self).node_genes@,
                old(self).connection_genes@,
            ),
            final(self).node_genes_network == old(self).node_genes_network,
            final(self).connection_genes == old(self).connection_genes,
            final(self).fitness == old(self).fitness,
            final(self).next_id == old(self).next_id,
            r == select_output(final(self).node_genes@, old(self)@.layers.last()),
            old(self)@.layers.last().len() > 0 ==> r < old(self)@.layers.last().len(),
    {
        let ghost nodes0 = self.node_genes@;
        let mut ci: usize = 0;
        while ci < self.connection_genes.len()
            invariant
                ci <= self.connection_genes@.len(),
                self.node_genes@ == run_conns(
                    nodes0,
                    self.connection_genes@.take(ci as int),
                ),
                self.node_genes_network == old(self).node_genes_network,
                self.connection_genes == old(self).connection_genes,
                self.fitness == old(self).fitness,
                self.next_id == old(self).next_id,
            decreases self.connection_genes@.len() - ci,
        {
            let c = self.connection_genes[ci];
            let ghost pre = self.node_genes@;
            match find_node(&self.node_genes, c.from) {
                Some(fi) => {
                    let mut from_node = self.node_genes[fi];
                    let out = from_node.get_output();
                    match find_node(&self.node_genes, c.to) {
                        Some(ti) => {
                            let mut node = self.node_genes[ti];
                            node.add_value(out);
                            self.node_genes.set(ti, node);
                        },
                        None => {},
                    }
                },
                None => {},
            }
            proof {
                let cc = ci as int;
                assert(self.connection_genes@.take(cc + 1).drop_last()
                    =~= self.connection_genes@.take(cc));
                assert(self.connection_genes@.take(cc + 1).last()
                    == self.connection_genes@[cc]);
                assert(self.node_genes@ =~= step_conn(pre, c));
            }
            ci = ci + 1;
        }
        proof {
            assert(self.connection_genes@.take(self.connection_genes@.len() as int)
                =~= self.connection_genes@);
        }

        let outputs_idx = self.node_genes_network.len() - 1;
        let ghost outs = self@.layers.last();
        proof {
            assert(self.node_genes_network@[outputs_idx as int]@ == outs);
        }
        let mut cur_v: u32 = 0;
        let mut cur_i: usize = 0;
        let mut i: usize = 0;
        while i < self.node_genes_network[outputs_idx].len()
            invariant
                i <= outs.len(),
                outputs_idx == self.node_genes_network@.len() - 1,
                self.node_genes_network@[outputs_idx as int]@ == outs,
                select_from(self.node_genes@, outs, 0, 0u32, 0) == select_from(
                    self.node_genes@,
                    outs,
                    i as int,
                    cur_v,
                    cur_i,
                ),
                outs.len() > 0 ==> cur_i < outs.len(),
                self.node_genes@ == run_conns(nodes0, self.connection_genes@),
                self.node_genes_network == old(self).node_genes_network,
                self.connection_genes == old(self).connection_genes,
                self.fitness == old(self).fitness,
                self.next_id == old(self).next_id,
            decreases outs.len() - i,
        {
            let node_id = self.node_genes_network[outputs_idx][i];
            match find_node(&self.node_genes, node_id) {
                Some(fi) => {
                    let mut out_node = self.node_genes[fi];
                    let value = out_node.get_output();
                    if f_gt(value, cur_v) || i == 0 {
                        cur_v = value;
                        cur_i = i;
                    }
                },
                None => {},
            }
            i = i + 1;
        }
        cur_i
    }

    /// Resets every node's transient value to 0.0, leaving biases, weights
    /// and squashing functions untouched.
    pub fn reset_gene_value(&mut self)
        ensures
            final(self).node_genes@ == zero_values(old(self).node_genes@),
            final(self).node_genes_network == old(self).node_genes_network,
            final(self).connection_genes == old(self).connection_genes,
            final(self).fitness == old(self).fitness,
            final(self).next_id == old(self).next_id,
    {
        let mut i: usize = 0;
        while i < self.node_genes.len()
            invariant
                i <= self.node_genes@.len(),
                self.node_genes@.len() == old(self).node_genes@.len(),
                forall|p: int|
                    0 <= p < i ==> #[trigger] self.node_genes@[p] == with_value(
                        old(self).node_genes@[p],
                        0u32,
                    ),
                forall|p: int|
                    i <= p < self.node_genes@.len() ==> #[trigger] self.node_genes@[p] == old(
                        self,
                    ).node_genes@[p],
                self.node_genes_network == old(self).node_genes_network,
                self.connection_genes == old(self).connection_genes,
                self.fitness == old(self).fitness,
                self.next_id == old(self).next_id,
            decreases self.node_genes@.len() - i,
        {
            let mut node = self.node_genes[i];
            node.value = 0;
            self.node_genes.set(i, node);
            i = i + 1;
        }
        proof {
            assert(self.node_genes@ =~= zero_values(old(self).node_genes@));
        }
    }

    /// Feeds the external input values into the input layer, runs the
    /// forward pass, reads the decision, and resets every transient value
    /// to 0.0 so the genome is ready for the next tick.
    pub fn update(&mut self, input_values: Vec<u32>) -> (r: usize)
        requires
            old(self)@.layers.len() >= 1,
            input_values@.len() == old(self)@.layers[0].len(),
        ensures
            r == select_output(
                run_conns(
                    add_inputs(old(self).node_genes@, old(self)@.layers[0], input_values@),
                    old(self).connection_genes@,
                ),
                old(self)@.layers.last(),
            ),
            old(self)@.layers.last().len() > 0 ==> r < old(self)@.layers.last().len(),
            final(self).node_genes@ == zero_values(old(self).node_genes@),
            final(self).node_genes_network == old(self).node_genes_network,
            final(self).connection_genes == old(self).connection_genes,
            final(self).fitness == old(self).fitness,
            final(self).next_id == old(self).next_id,
    {
        let ghost nodes0 = self.node_genes@;
        let ghost ids = self@.layers[0];
        let ghost vals = input_values@;
        let n_in = self.node_genes_network[0].len();
        proof {
            assert(self.node_genes_network@[0]@ == ids);
        }
        let mut i: usize = 0;
        while i < n_in
            invariant
                i <= ids.len(),
                n_in == ids.len(),
                vals.len() == ids.len(),
                self.node_genes_network@[0]@ == ids,
                input_values@ == vals,
                self.node_genes@ == add_inputs(nodes0, ids.take(i as int), vals.take(i as int)),
                self.node_genes_network == old(self).node_genes_network,
                self.connection_genes == old(self).connection_genes,
                self.fitness == old(self).fitness,
                self.next_id == old(self).next_id,
            decreases ids.len() - i,
        {
            let id = self.node_genes_network[0][i];
            let v = input_values[i];
            let ghost pre = self.node_genes@;
            match find_node(&self.node_genes, id) {
                Some(fi) => {
                    let mut node = self.node_genes[fi];
                    node.add_value(v);
                    self.node_genes.set(fi, node);
                },
                None => {},
            }
            proof {
                let jj = i as int;
                assert(ids.take(jj + 1).drop_last() =~= ids.take(jj));
                assert(vals.take(jj + 1).drop_last() =~= vals.take(jj));
                assert(ids.take(jj + 1).last() == ids[jj]);
                assert(vals.take(jj + 1).last() == vals[jj]);
                assert(self.node_genes@ =~= add_one_input(pre, ids[jj], vals[jj]));
            }
            i = i + 1;
        }
        proof {
            assert(ids.take(ids.len() as int) =~= ids);
            assert(vals.take(vals.len() as int) =~= vals);
        }

        let res = self.get_output();

        proof {
            let fed = add_inputs(nodes0, ids, vals);
            lemma_add_inputs_shape(nodes0, ids, vals);
            lemma_run_conns_shape(fed, old(self).connection_genes@);
            lemma_zero_values_same_shape(nodes0, run_conns(fed, old(self).connection_genes@));
        }
        self.reset_gene_value();
        res
    }

    /// The parsimony-penalised fitness: the accumulated fitness minus each
    /// layer's node count, then minus the connection count.
    pub fn calculate_fitness(&self) -> (r: u32)
        ensures
            r == fitness_spec(self@),
    {
        let mut fitness = self.fitness;
        let mut i: usize = 0;
        while i < self.node_genes_network.len()
            invariant
                i <= self@.layers.len(),
                fitness == sub_layer_counts(self.fitness, self@.layers.take(i as int)),
            decreases self@.layers.len() - i,
        {
            fitness = f_sub(fitness, f_of_usize(self.node_genes_network[i].len()));
            proof {
                let ii = i as int;
                assert(self@.layers.take(ii + 1).drop_last() =~= self@.layers.take(ii));
                assert(self@.layers.take(ii + 1).last() == self@.layers[ii]);
                assert(self@.layers[ii] == self.node_genes_network@[ii]@);
            }
            i = i + 1;
        }
        proof {
            assert(self@.layers.take(self@.layers.len() as int) =~= self@.layers);
        }
        f_sub(fitness, f_of_usize(self.connection_genes.len()))
    }

    /// Adds a reward (or a penalty) to the accumulated fitness.
    pub fn reward(&mut self, reward: u32)
        ensures
            final(self).fitness == add_bits(old(self).fitness, reward),
            final(self).node_genes_network == old(self).node_genes_network,
            final(self).node_genes == old(self).node_genes,
            final(self).connection_genes == old(self).connection_genes,
            final(self).next_id == old(self).next_id,
    {
        self.fitness = f_add(self.fitness, reward);
    }

    /// Mints the next node identity by advancing the counter.
    pub(crate) fn get_next_id(&mut self) -> (r: u32)
        requires
            old(self).next_id < u32::MAX,
        ensures
            r == old(self).next_id + 1,
            final(self).next_id == old(self).next_id + 1,
            final(self).node_genes_network == old(self).node_genes_network,
            final(self).node_genes == old(self).node_genes,
            final(self).connection_genes == old(self).connection_genes,
            final(self).fitness == old(self).fitness,
    {
        self.next_id = self.next_id + 1;
        self.next_id
    }
}

} // verus!
