//! The gene model: typed node genes and weighted, innovation-tagged
//! connection genes.

use vstd::prelude::*;

use crate::fixed::{
    clamp_spec, relu_spec, sigmoid_spec, in_range, clamp, relu, sigmoid, SCALE, BOUND,
};

verus! {

/// The closed set of node kinds; each kind fixes the node's activation rule.
#[derive(Clone, Copy, Debug, PartialEq, Eq, Structural)]
pub enum Type {
    Sensor,
    Output,
    Hidden,
    Bias,
}

/// Activation of a node kind on a fixed-point input: sensors pass the
/// (saturated) input through, the bias is the constant 1.0, outputs apply the
/// logistic sigmoid, hidden nodes the rectified linear unit.
pub open spec fn activation_spec(t: Type, input: int) -> int {
    match t {
        Type::Sensor => clamp_spec(input),
        Type::Output => sigmoid_spec(input),
        Type::Hidden => relu_spec(input),
        Type::Bias => SCALE as int,
    }
}

/// Every activation result lies in the scalar domain.
pub proof fn lemma_activation_range(t: Type, input: int)
    ensures
        in_range(activation_spec(t, input)),
{
    match t {
        Type::Output => {
            crate::fixed::lemma_sigmoid_range(input);
        },
        _ => {},
    }
}

impl Type {
    /// Per-kind activation function; total and exactly specified.
    pub fn activation(&self, input: i64) -> (r: i64)
        ensures
            r == activation_spec(*self, input as int),
            in_range(r as int),
    {
        match *self {
            Type::Sensor => clamp(input),
            Type::Output => sigmoid(input),
            Type::Hidden => relu(input),
            Type::Bias => SCALE,
        }
    }
}

/// A node gene. `activation_value` is a transient cache that only lives
/// during one evaluation pass.
#[derive(Clone, Copy, Debug)]
pub struct Node {
    pub innovation: usize,
    pub node_type: Type,
    pub activation_value: Option<i64>,
}

impl Node {
    /// Feed a raw weighted sum into the node: caches the activation of it.
    pub fn give_input(&mut self, input: i64)
        ensures
            *final(self) == (Node {
                activation_value: Some(activation_spec(old(self).node_type, input as int) as i64),
                ..*old(self)
            }),
    {
        self.activation_value = Some(self.node_type.activation(input));
    }

    /// Drop the cached activation value.
    pub fn clear(&mut self)
        ensures
            *final(self) == (Node { activation_value: None, ..*old(self) }),
    {
        self.activation_value = None;
    }
}

/// A connection gene: a weighted directed edge, tagged with its global
/// innovation id. Disabled genes are kept for historical alignment but do not
/// take part in evaluation.
#[derive(Clone, Copy, Debug, PartialEq, Eq, Structural)]
pub struct Connection {
    pub innovation: usize,
    pub input: usize,
    pub output: usize,
    pub weight: i64,
    pub enabled: bool,
}

} // verus!
