//! Connection genes.
//!
//! A weight is a double-precision real, carried here by its IEEE-754 bit
//! pattern: genes move weights around and never compute with them.

use super::Gene;
use vstd::prelude::*;

verus! {

/// What a connection gene holds.
pub ghost struct ConnectionGeneView {
    /// The historical marking.
    pub innovation: u32,
    /// The marking of the neuron the connection leaves.
    pub neuron_in: u32,
    /// The marking of the neuron the connection enters.
    pub neuron_out: u32,
    /// The bit pattern of the weight.
    pub weight: u64,
    /// Whether the connection takes part in the network.
    pub enabled: bool,
}

/// A connection of the encoded network.
pub struct ConnectionGene {
    innovation_number: u32,
    neuron_in: u32,
    neuron_out: u32,
    weight: u64,
    enabled: bool,
}

impl View for ConnectionGene {
    type V = ConnectionGeneView;

    closed spec fn view(&self) -> ConnectionGeneView {
        ConnectionGeneView {
            innovation: self.innovation_number,
            neuron_in: self.neuron_in,
            neuron_out: self.neuron_out,
            weight: self.weight,
            enabled: self.enabled,
        }
    }
}

impl ConnectionGene {
    /// An enabled connection from `neuron_in` to `neuron_out`.
    pub fn new(innovation_number: u32, neuron_in: u32, neuron_out: u32, weight: u64) -> (gene:
        ConnectionGene)
        ensures
            gene@ == (ConnectionGeneView {
                innovation: innovation_number,
                neuron_in,
                neuron_out,
                weight,
                enabled: true,
            }),
    {
        ConnectionGene { innovation_number, neuron_in, neuron_out, weight, enabled: true }
    }

    /// The marking of the neuron the connection leaves.
    pub fn get_neuron_in(&self) -> (marking: u32)
        ensures
            marking == self@.neuron_in,
    {
        self.neuron_in
    }

    /// The marking of the neuron the connection enters.
    pub fn get_neuron_out(&self) -> (marking: u32)
        ensures
            marking == self@.neuron_out,
    {
        self.neuron_out
    }

    /// The bit pattern of the weight.
    pub fn get_weight(&self) -> (weight: u64)
        ensures
            weight == self@.weight,
    {
        self.weight
    }

    /// Whether the connection is enabled.
    pub fn is_enabled(&self) -> (enabled: bool)
        ensures
            enabled == self@.enabled,
    {
        self.enabled
    }

    /// Replaces the weight and nothing else.
    pub fn set_weight(&mut self, weight: u64)
        ensures
            final(self)@ == (ConnectionGeneView { weight, ..old(self)@ }),
    {
        self.weight = weight;
    }

    /// Flips the enabled flag and nothing else.
    pub fn toggle_enabled(&mut self)
        ensures
            final(self)@ == (ConnectionGeneView { enabled: !old(self)@.enabled, ..old(self)@ }),
    {
        self.enabled = !self.enabled;
    }
}

impl Gene for ConnectionGene {
    open spec fn innovation(&self) -> u32 {
        self@.innovation
    }

    fn get_innovation_number(&self) -> (n: u32) {
        self.innovation_number
    }
}

} // verus!
