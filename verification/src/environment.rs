//! The population manager: a fixed-size collection of genomes and a
//! generation counter, with one fitness-ranking and reproduction cycle per
//! generation (elitist: the chosen parent always survives unmutated).

use vstd::prelude::*;
use crate::activation_functions::ActivationFunctions;
use crate::fbits::{gt_bits, f_gt};
use crate::genes::{NodeGene, NodeType};
use crate::helpers::{is_delta, std0};
use crate::mutation::mutation_step;
use crate::nn::{conn_pairs, cross_pairs, fitness_spec, has_node, lemma_cross_pairs_len, NN, NNView};
use crate::rng::rand_below;

verus! {

/// The population: genomes index-aligned with the external task instances,
/// and the generation counter, starting at 1.
pub struct Environment {
    pub species: Vec<NN>,
    pub generation: u32,
}

/// The same genome with its accumulated fitness cleared.
pub open spec fn fitness_reset(v: NNView) -> NNView {
    NNView { fitness: 0u32, ..v }
}

/// The views of a population's genomes.
pub open spec fn views_of(s: Seq<NN>) -> Seq<NNView> {
    s.map_values(|n: NN| n@)
}

/// Genome `child` arises from `parent` by one or two dispatcher steps, as
/// every slot but the elite one does at a generation boundary.
pub open spec fn offspring_of(parent: NNView, child: NNView) -> bool {
    exists|k: nat| 1 <= k <= 2 && mutation_chain(parent, child, k)
}

/// Genome `b` arises from `a` by exactly `k` dispatcher steps.
pub open spec fn mutation_chain(a: NNView, b: NNView, k: nat) -> bool
    decreases k,
{
    if k == 0 {
        b == a
    } else {
        exists|mid: NNView| mutation_step(a, mid) && mutation_chain(mid, b, (k - 1) as nat)
    }
}

pub proof fn lemma_chain_extend(a: NNView, b: NNView, c: NNView, k: nat)
    requires
        mutation_chain(a, b, k),
        mutation_step(b, c),
    ensures
        mutation_chain(a, c, k + 1),
    decreases k,
{
    if k == 0 {
        assert(mutation_chain(c, c, 0));
        assert(mutation_step(a, c));
        assert(mutation_chain(a, c, 1));
    } else {
        let mid = choose|mid: NNView| mutation_step(a, mid) && mutation_chain(mid, b, (k - 1) as nat);
        lemma_chain_extend(mid, b, c, (k - 1) as nat);
        assert(mutation_step(a, mid) && mutation_chain(mid, c, k));
    }
}

/// The index of the fittest genome under the strict-greater scan: the first
/// genome seen wins ties.
pub open spec fn best_index(s: Seq<NNView>) -> int
    decreases s.len(),
{
    if s.len() <= 1 {
        0
    } else {
        let b = best_index(s.drop_last());
        if gt_bits(fitness_spec(s.last()), fitness_spec(s[b])) {
            s.len() - 1
        } else {
            b
        }
    }
}

/// Whether every genome's penalised fitness compares bit-equal to the
/// first's — the situation of a population that never received a reward.
pub open spec fn all_fitness_tied(s: Seq<NNView>) -> bool {
    forall|p: int| 0 <= p < s.len() ==> fitness_spec(#[trigger] s[p]) == fitness_spec(s[0])
}

pub proof fn lemma_best_index_bound(s: Seq<NNView>)
    requires
        s.len() >= 1,
    ensures
        0 <= best_index(s) < s.len(),
    decreases s.len(),
{
    if s.len() > 1 {
        lemma_best_index_bound(s.drop_last());
    }
}

impl Environment {
    /// Builds `num_of_species` genomes over a shared node-identity layout:
    /// output identities 0 .. num_output_layer, then input identities after
    /// them, every node with the identity squash, a random bias and a zero
    /// value, each genome fully connected input to output with its own
    /// random weights.
    pub fn new(num_of_species: u32, num_input_layer: u32, num_output_layer: u32) -> (r:
        Environment)
        requires
            num_input_layer + num_output_layer <= u32::MAX,
            num_input_layer * num_output_layer < u32::MAX,
        ensures
            r.generation == 1,
            r.species@.len() == num_of_species,
            forall|i: int|
                0 <= i < r.species@.len() ==> ({
                    let v = (#[trigger] r.species@[i])@;
                    &&& v.layers.len() == 2
                    &&& v.layers[0] == Seq::new(
                        num_input_layer as nat,
                        |k: int| (num_output_layer + k) as u32,
                    )
                    &&& v.layers[1] == Seq::new(num_output_layer as nat, |k: int| k as u32)
                    &&& v.nodes.len() == num_input_layer + num_output_layer
                    &&& (forall|k: int|
                        0 <= k < v.nodes.len() ==> {
                            let n = #[trigger] v.nodes[k];
                            &&& (k < num_input_layer ==> n.id == num_output_layer + k
                                && n.node_type == NodeType::Input)
                            &&& (k >= num_input_layer ==> n.id == k - num_input_layer
                                && n.node_type == NodeType::Output)
                            &&& is_delta(n.bias)
                            &&& n.squash == ActivationFunctions::Identity
                            &&& n.value == 0
                        })
                    &&& conn_pairs(v.conns) == cross_pairs(
                        v.nodes.take(num_input_layer as int),
                        v.nodes.skip(num_input_layer as int),
                    )
                    &&& (forall|c: int|
                        0 <= c < v.conns.len() ==> (#[trigger] v.conns[c]).gater == -1
                            && is_delta(v.conns[c].weight))
                    &&& v.fitness == 0
                    &&& v.next_id == num_input_layer * num_output_layer
                    &&& (num_input_layer >= 1 && num_output_layer >= 1 ==> v.wf())
                }),
    {
        let mut output_layer: Vec<NodeGene> = Vec::new();
        let mut id: u32 = 0;
        while id < num_output_layer
            invariant
                id <= num_output_layer,
                num_input_layer + num_output_layer <= u32::MAX,
                output_layer@.len() == id,
                forall|k: int|
                    0 <= k < output_layer@.len() ==> {
                        let n = #[trigger] output_layer@[k];
                        n.id == k && n.node_type == NodeType::Output && is_delta(n.bias)
                            && n.squash == ActivationFunctions::Identity && n.value == 0
                    },
            decreases num_output_layer - id,
        {
            let b = std0();
            output_layer.push(
                NodeGene::new(id, NodeType::Output, b, ActivationFunctions::Identity, 0),
            );
            id = id + 1;
        }
        let mut input_layer: Vec<NodeGene> = Vec::new();
        while id < num_output_layer + num_input_layer
            invariant
                num_output_layer <= id <= num_output_layer + num_input_layer,
                num_input_layer + num_output_layer <= u32::MAX,
                input_layer@.len() == id - num_output_layer,
                forall|k: int|
                    0 <= k < input_layer@.len() ==> {
                        let n = #[trigger] input_layer@[k];
                        n.id == num_output_layer + k && n.node_type == NodeType::Input && is_delta(
                            n.bias,
                        ) && n.squash == ActivationFunctions::Identity && n.value == 0
                    },
            decreases num_output_layer + num_input_layer - id,
        {
            let b = std0();
            input_layer.push(
                NodeGene::new(id, NodeType::Input, b, ActivationFunctions::Identity, 0),
            );
            id = id + 1;
        }

        let mut species: Vec<NN> = Vec::new();
        let mut s: u32 = 0;
        while s < num_of_species
            invariant
                s <= num_of_species,
                species@.len() == s,
                num_input_layer + num_output_layer <= u32::MAX,
                num_input_layer * num_output_layer < u32::MAX,
                input_layer@.len() == num_input_layer,
                output_layer@.len() == num_output_layer,
                forall|k: int|
                    0 <= k < input_layer@.len() ==> {
                        let n = #[trigger] input_layer@[k];
                        n.id == num_output_layer + k && n.node_type == NodeType::Input && is_delta(
                            n.bias,
                        ) && n.squash == ActivationFunctions::Identity && n.value == 0
                    },
                forall|k: int|
                    0 <= k < output_layer@.len() ==> {
                        let n = #[trigger] output_layer@[k];
                        n.id == k && n.node_type == NodeType::Output && is_delta(n.bias)
                            && n.squash == ActivationFunctions::Identity && n.value == 0
                    },
                forall|i: int|
                    0 <= i < species@.len() ==> ({
                        let v = (#[trigger] species@[i])@;
                        &&& v.layers.len() == 2
                        &&& v.layers[0] == Seq::new(
                            num_input_layer as nat,
                            |k: int| (num_output_layer + k) as u32,
                        )
                        &&& v.layers[1] == Seq::new(num_output_layer as nat, |k: int| k as u32)
                        &&& v.nodes.len() == num_input_layer + num_output_layer
                        &&& (forall|k: int|
                            0 <= k < v.nodes.len() ==> {
                                let n = #[trigger] v.nodes[k];
                                &&& (k < num_input_layer ==> n.id == num_output_layer + k
                                    && n.node_type == NodeType::Input)
                                &&& (k >= num_input_layer ==> n.id == k - num_input_layer
                                    && n.node_type == NodeType::Output)
                                &&& is_delta(n.bias)
                                &&& n.squash == ActivationFunctions::Identity
                                &&& n.value == 0
                            })
                        &&& conn_pairs(v.conns) == cross_pairs(
                            v.nodes.take(num_input_layer as int),
                            v.nodes.skip(num_input_layer as int),
                        )
                        &&& (forall|c: int|
                            0 <= c < v.conns.len() ==> (#[trigger] v.conns[c]).gater == -1
                                && is_delta(v.conns[c].weight))
                        &&& v.fitness == 0
                        &&& v.next_id == num_input_layer * num_output_layer
                        &&& (num_input_layer >= 1 && num_output_layer >= 1 ==> v.wf())
                    }),
            decreases num_of_species - s,
        {
            let inputs = clone_nodes(&input_layer);
            let outputs = clone_nodes(&output_layer);
            proof {
                lemma_cross_pairs_len(input_layer@, output_layer@);
                lemma_all_of_type(input_layer@, num_input_layer as int);
                lemma_all_of_type_out(output_layer@, num_output_layer as int);
            }
            let nn = NN::new(inputs, outputs);
            proof {
                let v = nn@;
                assert(v.nodes =~= input_layer@ + output_layer@);
                assert(v.nodes.take(num_input_layer as int) =~= input_layer@);
                assert(v.nodes.skip(num_input_layer as int) =~= output_layer@);
                assert(v.layers[0] =~= Seq::new(
                    num_input_layer as nat,
                    |k: int| (num_output_layer + k) as u32,
                ));
                assert(v.layers[1] =~= Seq::new(num_output_layer as nat, |k: int| k as u32));
                if num_input_layer >= 1 && num_output_layer >= 1 {
                    lemma_env_genome_wf(v, num_input_layer as int, num_output_layer as int);
                }
            }
            species.push(nn);
            s = s + 1;
        }
        Environment { species, generation: 1 }
    }

    /// The fittest member by the parsimony-penalised fitness, found by one
    /// strict-greater scan (the first member seen wins ties), returned as a
    /// fresh deep copy; the population itself is left untouched.
    pub fn get_best_specie(&mut self) -> (r: NN)
        requires
            old(self).species@.len() >= 1,
        ensures
            *final(self) == *old(self),
            r@ == old(self).species@[best_index(views_of(old(self).species@))]@,
            all_fitness_tied(views_of(old(self).species@)) ==> r@ == old(self).species@[0]@,
    {
        proof {
            lemma_best_index_bound(views_of(self.species@));
        }
        let ghost vs = views_of(self.species@);
        let mut best: usize = 0;
        let mut i: usize = 1;
        while i < self.species.len()
            invariant
                1 <= i <= self.species@.len(),
                0 <= best < i,
                vs == views_of(self.species@),
                best as int == best_index(vs.take(i as int)),
                all_fitness_tied(vs) ==> best == 0,
            decreases self.species@.len() - i,
        {
            let fi = self.species[i].calculate_fitness();
            let fb = self.species[best].calculate_fitness();
            proof {
                let ii = i as int;
                assert(vs.take(ii + 1).drop_last() =~= vs.take(ii));
                assert(vs.take(ii + 1).last() == vs[ii]);
                assert(vs[ii] == self.species@[ii]@);
                assert(vs.take(ii)[best as int] == self.species@[best as int]@);
                if all_fitness_tied(vs) {
                    assert(fitness_spec(vs[ii]) == fitness_spec(vs[0]));
                    assert(fitness_spec(vs[best as int]) == fitness_spec(vs[0]));
                }
            }
            if f_gt(fi, fb) {
                best = i;
            }
            i = i + 1;
        }
        proof {
            assert(vs.take(vs.len() as int) =~= vs);
        }
        NN::clone(&self.species[best])
    }

    /// One reproduction cycle: bumps the generation, picks the parent (the
    /// fittest member, or a randomly mutated random member when the caller
    /// reports a plateau), clears its fitness, and replaces the population
    /// with mutated clones of the parent, the last slot receiving the
    /// parent unmutated.
    pub fn next_generation(&mut self, local_maximum: bool)
        requires
            old(self).generation < u32::MAX,
            old(self).species@.len() >= 1,
            forall|i: int|
                0 <= i < old(self).species@.len() ==> (#[trigger] old(self).species@[i])@.wf()
                    && old(self).species@[i].next_id + 5 <= u32::MAX,
        ensures
            final(self).generation == old(self).generation + 1,
            final(self).species@.len() == old(self).species@.len(),
            forall|j: int|
                0 <= j < final(self).species@.len() ==> (#[trigger] final(self).species@[j])@.wf(),
            !local_maximum ==> final(self).species@.last()@ == fitness_reset(
                old(self).species@[best_index(views_of(old(self).species@))]@,
            ),
            !local_maximum && all_fitness_tied(views_of(old(self).species@)) ==> final(self)
                .species@.last()@ == fitness_reset(old(self).species@[0]@),
            local_maximum ==> exists|i: int, k: nat, v: NNView|
                #![trigger mutation_chain(old(self).species@[i]@, v, k)]
                0 <= i < old(self).species@.len() && 1 <= k <= 3 && mutation_chain(
                    old(self).species@[i]@,
                    v,
                    k,
                ) && final(self).species@.last()@ == fitness_reset(v),
            forall|j: int|
                0 <= j < final(self).species@.len() - 1 ==> offspring_of(
                    final(self).species@.last()@,
                    (#[trigger] final(self).species@[j])@,
                ),
    {
        self.generation = self.generation + 1;
        let ghost olds = old(self).species@;
        let mut nn: NN;
        if local_maximum {
            let num = rand_below(self.species.len());
            nn = NN::clone(&self.species[num]);
            let m = 1 + rand_below(3);
            let ghost base = nn@;
            let mut t: usize = 0;
            while t < m
                invariant
                    t <= m <= 3,
                    base == olds[num as int]@,
                    0 <= num < olds.len(),
                    nn@.wf(),
                    mutation_chain(base, nn@, t as nat),
                    nn.next_id <= base.next_id + t,
                    base.next_id + 5 <= u32::MAX,
                decreases m - t,
            {
                let ghost pre = nn@;
                nn.mutate();
                proof {
                    lemma_chain_extend(base, pre, nn@, t as nat);
                }
                t = t + 1;
            }
            proof {
                assert(mutation_chain(olds[num as int]@, nn@, m as nat));
            }
        } else {
            nn = self.get_best_specie();
            proof {
                lemma_best_index_bound(views_of(olds));
                assert(views_of(olds)[best_index(views_of(olds))] == olds[best_index(
                    views_of(olds),
                )]@);
            }
        }
        let ghost parent_pre = nn@;
        nn.fitness = 0;
        let ghost pv = nn@;
        proof {
            assert(pv == fitness_reset(parent_pre));
            assert(pv.wf());
        }

        let n = self.species.len();
        let mut new_species: Vec<NN> = Vec::new();
        let mut s: usize = 0;
        while s < n - 1
            invariant
                s <= n - 1,
                new_species@.len() == s,
                nn@ == pv,
                pv.wf(),
                nn.next_id + 2 <= u32::MAX,
                forall|j: int|
                    0 <= j < s ==> (#[trigger] new_species@[j])@.wf() && offspring_of(
                        pv,
                        new_species@[j]@,
                    ),
            decreases n - 1 - s,
        {
            let mut new_nn = NN::clone(&nn);
            let m = 1 + rand_below(2);
            let ghost base2 = new_nn@;
            let mut t: usize = 0;
            while t < m
                invariant
                    t <= m <= 2,
                    base2 == pv,
                    new_nn@.wf(),
                    mutation_chain(base2, new_nn@, t as nat),
                    new_nn.next_id <= base2.next_id + t,
                    base2.next_id + 2 <= u32::MAX,
                decreases m - t,
            {
                let ghost pre = new_nn@;
                new_nn.mutate();
                proof {
                    lemma_chain_extend(base2, pre, new_nn@, t as nat);
                }
                t = t + 1;
            }
            let ghost prev = new_species@;
            new_species.push(new_nn);
            proof {
                assert(forall|j: int|
                    0 <= j < prev.len() ==> #[trigger] new_species@[j] == prev[j]);
                assert(new_species@[prev.len() as int] == new_nn);
                assert(1 <= m as nat <= 2 && mutation_chain(pv, new_nn@, m as nat));
                assert(offspring_of(pv, new_nn@));
            }
            s = s + 1;
        }
        let ghost prev = new_species@;
        new_species.push(NN::clone(&nn));
        self.species = new_species;
        proof {
            assert(forall|j: int| 0 <= j < prev.len() ==> #[trigger] self.species@[j] == prev[j]);
            assert(self.species@.last()@ == pv);
            assert forall|j: int| 0 <= j < self.species@.len() - 1 implies offspring_of(
                self.species@.last()@,
                (#[trigger] self.species@[j])@,
            ) by {
                assert(self.species@[j] == prev[j]);
                assert(offspring_of(pv, prev[j]@));
            }
        }
    }
}

/// Deep copy of a node list.
fn clone_nodes(v: &Vec<NodeGene>) -> (r: Vec<NodeGene>)
    ensures
        r@ == v@,
{
    let mut r: Vec<NodeGene> = Vec::new();
    let mut i: usize = 0;
    while i < v.len()
        invariant
            i <= v@.len(),
            r@ == v@.take(i as int),
        decreases v@.len() - i,
    {
        r.push(v[i]);
        proof {
            assert(r@ =~= v@.take(i as int + 1));
        }
        i = i + 1;
    }
    proof {
        assert(v@.take(v@.len() as int) =~= v@);
    }
    r
}

proof fn lemma_all_of_type(ins: Seq<NodeGene>, n: int)
    requires
        ins.len() == n,
        forall|k: int| 0 <= k < ins.len() ==> (#[trigger] ins[k]).node_type == NodeType::Input,
    ensures
        crate::nn::count_of_type(ins, NodeType::Input) == n,
    decreases ins.len(),
{
    if ins.len() > 0 {
        lemma_all_of_type(ins.drop_last(), n - 1);
    }
}

proof fn lemma_all_of_type_out(outs: Seq<NodeGene>, n: int)
    requires
        outs.len() == n,
        forall|k: int| 0 <= k < outs.len() ==> (#[trigger] outs[k]).node_type == NodeType::Output,
    ensures
        crate::nn::count_of_type(outs, NodeType::Output) == n,
    decreases outs.len(),
{
    if outs.len() > 0 {
        lemma_all_of_type_out(outs.drop_last(), n - 1);
    }
}

/// A freshly constructed two-layer genome with the standard identity layout
/// is well-formed.
proof fn lemma_env_genome_wf(v: NNView, n_in: int, n_out: int)
    requires
        1 <= n_in,
        1 <= n_out,
        n_in + n_out <= u32::MAX,
        n_in * n_out < u32::MAX,
        v.layers.len() == 2,
        v.layers[0] == Seq::new(n_in as nat, |k: int| (n_out + k) as u32),
        v.layers[1] == Seq::new(n_out as nat, |k: int| k as u32),
        v.nodes.len() == n_in + n_out,
        forall|k: int|
            0 <= k < v.nodes.len() ==> {
                let n = #[trigger] v.nodes[k];
                &&& (k < n_in ==> n.id == n_out + k)
                &&& (k >= n_in ==> n.id == k - n_in)
            },
        forall|c: int|
            0 <= c < v.conns.len() ==> has_node(v.nodes, (#[trigger] v.conns[c]).from) && has_node(
                v.nodes,
                v.conns[c].to,
            ),
        v.next_id == n_in * n_out,
    ensures
        v.wf(),
{
    assert(n_in + n_out - 1 <= n_in * n_out) by (nonlinear_arith)
        requires
            1 <= n_in,
            1 <= n_out,
    ;
    assert forall|i: int, j: int|
        0 <= i < v.layers.len() && 0 <= j < v.layers[i].len() implies has_node(
        v.nodes,
        #[trigger] v.layers[i][j],
    ) by {
        if i == 0 {
            assert(v.nodes[j].id == n_out + j);
            assert(v.layers[0][j] == n_out + j);
        } else {
            assert(v.nodes[n_in + j].id == j);
            assert(v.layers[1][j] == j);
        }
    }
    assert forall|p: int| 0 <= p < v.nodes.len() implies #[trigger] v.nodes[p].id
        <= v.next_id by {
        if p < n_in {
            assert(v.nodes[p].id == n_out + p);
            assert(n_out + p <= n_in + n_out - 1);
        } else {
            assert(v.nodes[p].id == p - n_in);
        }
    }
}

} // verus!
