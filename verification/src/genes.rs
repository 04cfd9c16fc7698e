//! The two gene kinds a genome is made of: nodes and directed connections.

use vstd::prelude::*;
use crate::activation_functions::{activation_spec, ActivationFunctions};
use crate::fbits::{add_bits, f_add};

verus! {

/// The role a node plays in the layered topology.
#[derive(Debug, PartialEq, Eq, Structural, Copy, Clone)]
pub enum NodeType {
    Input,
    Hidden,
    Output,
}

/// A computational unit: identity, role, bias, squashing function, and the
/// transient value accumulated during one evaluation.  `bias` and `value`
/// are binary32 bit patterns.
#[derive(Debug, PartialEq, Eq, Structural, Copy, Clone)]
pub struct NodeGene {
    pub id: u32,
    pub node_type: NodeType,
    pub bias: u32,
    pub squash: ActivationFunctions,
    pub value: u32,
}

/// A directed, weighted edge between two node identities.  `weight` is a
/// binary32 bit pattern; `gater` is unused and kept at -1.
#[derive(Debug, PartialEq, Eq, Structural, Copy, Clone)]
pub struct ConnectionGene {
    pub from: u32,
    pub to: u32,
    pub weight: u32,
    pub gater: i32,
}

impl ConnectionGene {
    pub fn new(from: u32, to: u32, weight: u32, gater: i32) -> (r: ConnectionGene)
        ensures
            r == (ConnectionGene { from, to, weight, gater }),
    {
        ConnectionGene { from, to, weight, gater }
    }
}

/// What a node emits when read: its squashing function applied to the
/// binary32 sum of its accumulated value and its bias.
pub open spec fn node_output_spec(n: NodeGene) -> u32 {
    activation_spec(n.squash, add_bits(n.value, n.bias))
}

/// The same node with its accumulated value replaced.
pub open spec fn with_value(n: NodeGene, v: u32) -> NodeGene {
    NodeGene { value: v, ..n }
}

impl NodeGene {
    pub fn new(
        id: u32,
        node_type: NodeType,
        bias: u32,
        squash: ActivationFunctions,
        value: u32,
    ) -> (r: NodeGene)
        ensures
            r == (NodeGene { id, node_type, bias, squash, value }),
    {
        NodeGene { id, node_type, bias, squash, value }
    }

    /// The node's current output: activation(value + bias); the node itself
    /// is left unchanged.
    pub fn get_output(&mut self) -> (r: u32)
        ensures
            *final(self) == *old(self),
            r == node_output_spec(*old(self)),
    {
        ActivationFunctions::get_output(self.squash, f_add(self.value, self.bias))
    }

    /// Accumulates a contribution into the node's transient value.
    pub fn add_value(&mut self, value: u32)
        ensures
            *final(self) == with_value(*old(self), add_bits(old(self).value, value)),
    {
        self.value = f_add(self.value, value);
    }
}

} // verus!
