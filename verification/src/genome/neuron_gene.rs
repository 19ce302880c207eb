//! Neuron genes.

use super::Gene;
use vstd::prelude::*;

verus! {

/// The class of a sensor (input) neuron: the least class there is.
pub const SENSOR: u32 = 0;

/// The class of an output neuron: the greatest class there is.
pub const OUTPUT: u32 = 0xFFFF_FFFF;

/// What a neuron gene holds.
pub ghost struct NeuronGeneView {
    /// The historical marking.
    pub innovation: u32,
    /// The class: `SENSOR`, `OUTPUT`, or strictly between them for a hidden
    /// neuron.
    pub class: u32,
}

/// A neuron of the encoded network.
pub struct NeuronGene {
    innovation_number: u32,
    class: u32,
}

impl View for NeuronGene {
    type V = NeuronGeneView;

    closed spec fn view(&self) -> NeuronGeneView {
        NeuronGeneView { innovation: self.innovation_number, class: self.class }
    }
}

impl NeuronGene {
    /// A neuron gene with the given marking and class.
    pub fn new(innovation_number: u32, class: u32) -> (gene: NeuronGene)
        ensures
            gene@ == (NeuronGeneView { innovation: innovation_number, class }),
    {
        NeuronGene { innovation_number, class }
    }

    /// The class of the neuron.
    pub fn get_class(&self) -> (class: u32)
        ensures
            class == self@.class,
    {
        self.class
    }
}

impl Gene for NeuronGene {
    open spec fn innovation(&self) -> u32 {
        self@.innovation
    }

    fn get_innovation_number(&self) -> (n: u32) {
        self.innovation_number
    }
}

} // verus!
