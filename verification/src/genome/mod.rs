//! Genes, their comparison by historical marking, and the genome.

pub mod connection_gene;
pub mod genome_config;
pub mod laws;
pub mod model;
pub mod neuron_gene;
pub mod sampling;

use crate::utils::order::{items_of, keys_of, lt, settled, well_ordered};
use crate::utils::HashVec;
use crate::InnovationCounter;
use connection_gene::ConnectionGene;
use genome_config::GenomeConfig;
use laws::lemma_slot;
use model::{
    after_row, after_rows, initial_neurons, midpoint, wired_before, GenomeView, Stages,
    Triggers, UNIT_WEIGHT,
};
use neuron_gene::{NeuronGene, OUTPUT, SENSOR};
use rand::rngs::ThreadRng;
use sampling::{pick_one, pick_two, thread_rng};
use std::cmp::Ordering;
use std::ops::{Deref, DerefMut};
use vstd::prelude::*;
use vstd::std_specs::cmp::{PartialEqSpecImpl, PartialOrdSpecImpl};
use vstd::std_specs::slice::into_iter_elts;

verus! {

/// A gene: anything that carries a historical marking.
///
/// `innovation` says in specifications what `get_innovation_number`
/// returns when run. An implementation that is compiled without being
/// verified writes both, with one body.
pub trait Gene {
    /// The historical marking of this gene.
    spec fn innovation(&self) -> u32;

    /// The historical marking of this gene.
    fn get_innovation_number(&self) -> (n: u32)
        ensures
            n == self.innovation(),
    ;
}

/// A gene seen through its historical marking alone: two genes compare as
/// their markings do, whatever else they hold.
pub struct ComparableGeneInterface<T: Gene>(pub T);

impl<T: Gene> Deref for ComparableGeneInterface<T> {
    type Target = T;

    /// The gene itself.
    fn deref(&self) -> (r: &T)
        ensures
            *r == self.0,
    {
        &self.0
    }
}

impl<T: Gene> DerefMut for ComparableGeneInterface<T> {
    /// The gene itself, for changing in place.
    fn deref_mut(&mut self) -> (r: &mut T)
        ensures
            *r == old(self).0,
            final(self).0 == *final(r),
    {
        &mut self.0
    }
}

impl<T: Gene> PartialEq for ComparableGeneInterface<T> {
    /// Whether the two genes have one marking.
    fn eq(&self, other: &Self) -> (r: bool) {
        self.0.get_innovation_number() == other.0.get_innovation_number()
    }
}

impl<T: Gene> PartialEqSpecImpl for ComparableGeneInterface<T> {
    open spec fn obeys_eq_spec() -> bool {
        true
    }

    open spec fn eq_spec(&self, other: &Self) -> bool {
        self.0.innovation() == other.0.innovation()
    }
}

impl<T: Gene> PartialOrd for ComparableGeneInterface<T> {
    /// The order of the two markings.
    fn partial_cmp(&self, other: &Self) -> (r: Option<Ordering>) {
        let a = self.0.get_innovation_number();
        let b = other.0.get_innovation_number();
        if a < b {
            Some(Ordering::Less)
        } else if a > b {
            Some(Ordering::Greater)
        } else {
            Some(Ordering::Equal)
        }
    }
}

impl<T: Gene> PartialOrdSpecImpl for ComparableGeneInterface<T> {
    open spec fn obeys_partial_cmp_spec() -> bool {
        true
    }

    open spec fn partial_cmp_spec(&self, other: &Self) -> Option<Ordering> {
        if self.0.innovation() < other.0.innovation() {
            Some(Ordering::Less)
        } else if self.0.innovation() > other.0.innovation() {
            Some(Ordering::Greater)
        } else {
            Some(Ordering::Equal)
        }
    }
}

/// Genes are well ordered by their markings, whatever kind of gene they
/// are.
pub proof fn lemma_genes_well_ordered<T: Gene>()
    ensures
        well_ordered::<ComparableGeneInterface<T>>(),
        forall|a: ComparableGeneInterface<T>, b: ComparableGeneInterface<T>|
            #[trigger] lt(a, b) <==> a.0.innovation() < b.0.innovation(),
{
}

/// How often the create-connection operator draws a pair of neurons before
/// it gives up.
pub const MAX_CONNECTION_ATTEMPTS: u32 = 100;

/// The evolvable encoding of one network: its neurons and its connections,
/// each kept in a registry by historical marking.
pub struct Genome {
    connections: HashVec<u32, ComparableGeneInterface<ConnectionGene>>,
    neurons: HashVec<u32, ComparableGeneInterface<NeuronGene>>,
}

impl View for Genome {
    type V = GenomeView;

    closed spec fn view(&self) -> GenomeView {
        GenomeView {
            neurons: Seq::new(self.neurons@.len(), |i: int| self.neurons@[i].0@),
            connections: Seq::new(self.connections@.len(), |i: int| self.connections@[i].0@),
        }
    }
}

impl Genome {
    /// Both registries are well formed, and each gene is stored under its
    /// own marking.
    pub closed spec fn registered(&self) -> bool {
        &&& self.neurons.wf()
        &&& self.connections.wf()
        &&& forall|i: int|
            0 <= i < self.neurons@.len() ==> #[trigger] self.neurons.keys()[i]
                == self.neurons@[i].0@.innovation
        &&& forall|i: int|
            0 <= i < self.connections@.len() ==> #[trigger] self.connections.keys()[i]
                == self.connections@[i].0@.innovation
    }

    /// Well-formedness: sound storage of a well-formed genome.
    pub open spec fn wf(&self) -> bool {
        &&& self.registered()
        &&& self@.wf()
    }

    /// Adds a neuron gene at the place its marking gives it; a gene whose
    /// marking is taken changes nothing.
    fn add_neuron(&mut self, gene: NeuronGene)
        requires
            old(self).wf(),
        ensures
            final(self).wf(),
            final(self)@ == old(self)@.with_neuron(gene@),
    {
        let key = gene.get_innovation_number();
        let ghost before = self.neurons.entries();
        let ghost markings = self@.neuron_markings();
        proof {
            lemma_genes_well_ordered::<NeuronGene>();
            assert(keys_of(before) =~= self.neurons.keys());
            assert(items_of(before) =~= self.neurons@);
            assert(markings =~= self.neurons.keys());
            assert forall|i: int, j: int| 0 <= i < j < self.neurons@.len() implies !lt(
                #[trigger] self.neurons@[j],
                #[trigger] self.neurons@[i],
            ) by {
                assert(markings[i] < markings[j]);
            }
            assert(settled(before) == before);
        }
        let index = self.neurons.insert_ordered(key, ComparableGeneInterface(gene));
        proof {
            if old(self)@.has_neuron(key) {
                assert(self.neurons@ =~= old(self).neurons@);
                assert(self@.neurons =~= old(self)@.neurons);
            } else {
                assert forall|j: int| 0 <= j < index implies markings[j] < key by {
                    assert(lt(before[j].1, ComparableGeneInterface(gene)));
                }
                assert forall|j: int| index <= j < markings.len() implies markings[j] >= key by {
                    assert(!lt(before[index as int].1, ComparableGeneInterface(gene)));
                    if j > index {
                        assert(markings[index as int] < markings[j]);
                    }
                }
                lemma_slot(markings, key, index as int);
                assert(self@.neurons =~= old(self)@.neurons.insert(index as int, gene@));
                old(self)@.lemma_with_neuron_wf(gene@);
            }
        }
    }

    /// Adds a connection gene at the place its marking gives it; a gene
    /// whose marking is taken changes nothing.
    fn add_connection(&mut self, gene: ConnectionGene)
        requires
            old(self).wf(),
            old(self)@.has_neuron(gene@.neuron_in),
            old(self)@.has_neuron(gene@.neuron_out),
        ensures
            final(self).wf(),
            final(self)@ == old(self)@.with_connection(gene@),
    {
        let key = gene.get_innovation_number();
        let ghost before = self.connections.entries();
        let ghost markings = self@.connection_markings();
        proof {
            lemma_genes_well_ordered::<ConnectionGene>();
            assert(keys_of(before) =~= self.connections.keys());
            assert(items_of(before) =~= self.connections@);
            assert(markings =~= self.connections.keys());
            assert forall|i: int, j: int| 0 <= i < j < self.connections@.len() implies !lt(
                #[trigger] self.connections@[j],
                #[trigger] self.connections@[i],
            ) by {
                assert(markings[i] < markings[j]);
            }
            assert(settled(before) == before);
        }
        let index = self.connections.insert_ordered(key, ComparableGeneInterface(gene));
        proof {
            assert(self@.neurons =~= old(self)@.neurons);
            if old(self)@.has_connection(key) {
                assert(self.connections@ =~= old(self).connections@);
                assert(self@.connections =~= old(self)@.connections);
            } else {
                assert forall|j: int| 0 <= j < index implies markings[j] < key by {
                    assert(lt(before[j].1, ComparableGeneInterface(gene)));
                }
                assert forall|j: int| index <= j < markings.len() implies markings[j] >= key by {
                    assert(!lt(before[index as int].1, ComparableGeneInterface(gene)));
                    if j > index {
                        assert(markings[index as int] < markings[j]);
                    }
                }
                lemma_slot(markings, key, index as int);
                assert(self@.connections =~= old(self)@.connections.insert(index as int, gene@));
                old(self)@.lemma_with_connection_wf(gene@);
            }
        }
    }

    /// The number of neuron genes.
    pub fn neuron_count(&self) -> (n: usize)
        ensures
            n == self@.neurons.len(),
    {
        self.neurons.len()
    }

    /// The number of connection genes.
    pub fn connection_count(&self) -> (n: usize)
        ensures
            n == self@.connections.len(),
    {
        self.connections.len()
    }

    /// Flips the enabled flag of the connection at position `index`; does
    /// nothing where there is no such position.
    pub fn toggle_connection_at(&mut self, index: usize)
        requires
            old(self).wf(),
        ensures
            final(self).wf(),
            final(self)@ == if index < old(self)@.connections.len() {
                old(self)@.toggled(index as int)
            } else {
                old(self)@
            },
    {
        match self.connections.get_index_mut(index) {
            Some(gene) => {
                gene.0.toggle_enabled();
            },
            None => {},
        }
        proof {
            assert(self@.neurons =~= old(self)@.neurons);
            if index < old(self)@.connections.len() {
                assert(self@.connections =~= old(self)@.toggled(index as int).connections);
            } else {
                assert(self@.connections =~= old(self)@.connections);
            }
            assert(self@.connection_markings() =~= old(self)@.connection_markings());
            assert(self@.neuron_markings() =~= old(self)@.neuron_markings());
            assert forall|i: int| 0 <= i < self@.connections.len() implies self@.has_neuron(
                (#[trigger] self@.connections[i]).neuron_in,
            ) && self@.has_neuron(self@.connections[i].neuron_out) by {
                let c = old(self)@.connections[i];
                assert(old(self)@.has_neuron(c.neuron_in));
            }
        }
    }

    /// Gives the connection at position `index` the weight `weight`; does
    /// nothing where there is no such position.
    pub fn set_weight_at(&mut self, index: usize, weight: u64)
        requires
            old(self).wf(),
        ensures
            final(self).wf(),
            final(self)@ == if index < old(self)@.connections.len() {
                old(self)@.with_weight(index as int, weight)
            } else {
                old(self)@
            },
    {
        match self.connections.get_index_mut(index) {
            Some(gene) => {
                gene.0.set_weight(weight);
            },
            None => {},
        }
        proof {
            assert(self@.neurons =~= old(self)@.neurons);
            if index < old(self)@.connections.len() {
                assert(self@.connections =~= old(self)@.with_weight(
                    index as int,
                    weight,
                ).connections);
            } else {
                assert(self@.connections =~= old(self)@.connections);
            }
            assert(self@.connection_markings() =~= old(self)@.connection_markings());
            assert(self@.neuron_markings() =~= old(self)@.neuron_markings());
            assert forall|i: int| 0 <= i < self@.connections.len() implies self@.has_neuron(
                (#[trigger] self@.connections[i]).neuron_in,
            ) && self@.has_neuron(self@.connections[i].neuron_out) by {
                let c = old(self)@.connections[i];
                assert(old(self)@.has_neuron(c.neuron_in));
            }
        }
    }

    /// The class of the neuron with the marking `marking`.
    fn class_of(&self, marking: u32) -> (class: u32)
        requires
            self.wf(),
            self@.has_neuron(marking),
        ensures
            class == self@.neuron(marking).class,
    {
        proof {
            assert(self@.neuron_markings() =~= self.neurons.keys());
        }
        match self.neurons.get(marking) {
            Some(gene) => gene.0.get_class(),
            None => 0,
        }
    }

    /// The class halfway between `a` and `b`, rounded down.
    fn class_between(a: u32, b: u32) -> (class: u32)
        ensures
            class == midpoint(a, b),
    {
        let sum: u64 = a as u64 + b as u64;
        (sum / 2) as u32
    }

    /// Splits the connection at position `index` by a new hidden neuron.
    /// Does nothing, and asks the authority nothing, where there is no such
    /// position or the authority has fewer than the three markings left
    /// that a split may take.
    ///
    /// The enabled flag of the connection is flipped, which disables an
    /// enabled connection. The new neuron takes a fresh marking and the
    /// class halfway between the two neurons that the connection joins. Two
    /// connections lead through it: one from the source of the split
    /// connection, with weight 1.0, and one to its target, with the weight
    /// of the split connection.
    pub fn create_neuron_at(&mut self, counter: &mut InnovationCounter, index: usize)
        requires
            old(self).wf(),
            old(counter)@.wf(),
        ensures
            final(self).wf(),
            final(counter)@.wf(),
            index < old(self)@.connections.len() && old(counter)@.has_room(3) ==> {
                &&& final(self)@ == old(self)@.split(old(counter)@, index as int)
                &&& final(counter)@ == old(self)@.counter_after_split(old(counter)@, index as int)
            },
            index >= old(self)@.connections.len() || !old(counter)@.has_room(3) ==> {
                &&& final(self)@ == old(self)@
                &&& final(counter)@ == old(counter)@
            },
    {
        if !counter.has_room(3) {
            return ;
        }
        let (neuron_in, neuron_out, weight) = match self.connections.get_index(index) {
            Some(gene) => (gene.0.get_neuron_in(), gene.0.get_neuron_out(), gene.0.get_weight()),
            None => {
                return ;
            },
        };
        proof {
            let c = self@.connections[index as int];
            assert(self@.has_neuron(c.neuron_in) && self@.has_neuron(c.neuron_out));
        }
        let class = Self::class_between(self.class_of(neuron_in), self.class_of(neuron_out));
        self.toggle_connection_at(index);
        let marking = counter.get_neuron_innovation();
        let inlet = counter.get_connection_innovation(neuron_in, marking);
        let outlet = counter.get_connection_innovation(marking, neuron_out);
        let neuron = NeuronGene::new(marking, class);
        proof {
            self@.lemma_with_neuron_keeps(neuron@, neuron_in);
            self@.lemma_with_neuron_keeps(neuron@, neuron_out);
        }
        self.add_neuron(neuron);
        self.add_connection(ConnectionGene::new(inlet, neuron_in, marking, UNIT_WEIGHT));
        self.add_connection(ConnectionGene::new(outlet, marking, neuron_out, weight));
    }

    /// The ordered pair of markings (source, target) of a connection
    /// between the neurons at positions `first` and `second`: from the one
    /// of lower class to the one of higher class. None where the two are
    /// of one class, or where either is no position.
    pub fn orient(&self, first: usize, second: usize) -> (pair: Option<(u32, u32)>)
        ensures
            pair == self@.oriented(first as int, second as int),
    {
        let a = match self.neurons.get_index(first) {
            Some(gene) => (gene.0.get_innovation_number(), gene.0.get_class()),
            None => {
                return None;
            },
        };
        let b = match self.neurons.get_index(second) {
            Some(gene) => (gene.0.get_innovation_number(), gene.0.get_class()),
            None => {
                return None;
            },
        };
        if a.1 < b.1 {
            Some((a.0, b.0))
        } else if a.1 > b.1 {
            Some((b.0, a.0))
        } else {
            None
        }
    }

    /// Whether the genome has a neuron with the marking `marking`.
    pub fn has_neuron(&self, marking: u32) -> (r: bool)
        requires
            self.wf(),
        ensures
            r == self@.has_neuron(marking),
    {
        proof {
            assert(self@.neuron_markings() =~= self.neurons.keys());
        }
        self.neurons.contains(marking)
    }

    /// Connects the neuron `source` to the neuron `target` by an enabled
    /// connection with the weight `weight`, under the marking that the
    /// authority gives to that ordered pair. A genome that has a connection
    /// with that marking already keeps it as it is. Does nothing, and asks
    /// the authority nothing, where `source` or `target` is no neuron of
    /// the genome, or the authority has neither a marking for the pair nor
    /// one left to give. Returns whether the request went through.
    pub fn connect(
        &mut self,
        counter: &mut InnovationCounter,
        source: u32,
        target: u32,
        weight: u64,
    ) -> (done: bool)
        requires
            old(self).wf(),
            old(counter)@.wf(),
        ensures
            final(self).wf(),
            final(counter)@.wf(),
            done == (old(self)@.has_neuron(source) && old(self)@.has_neuron(target) && old(
                counter,
            )@.can_connect(source, target)),
            final(self)@ == old(self)@.connected(old(counter)@, source, target, weight),
            final(counter)@ == old(self)@.counter_after_connected(old(counter)@, source, target),
    {
        if !self.has_neuron(source) || !self.has_neuron(target) || !counter.can_connect(
            source,
            target,
        ) {
            return false;
        }
        let marking = counter.get_connection_innovation(source, target);
        self.add_connection(ConnectionGene::new(marking, source, target, weight));
        true
    }

    /// The toggle-connection operator: flips the enabled flag of one
    /// connection chosen at random. Does nothing to a genome without
    /// connections.
    pub fn mutate_toggle_connection(&mut self, rng: &mut ThreadRng)
        requires
            old(self).wf(),
        ensures
            final(self).wf(),
            old(self)@.toggle_step(final(self)@),
    {
        match pick_one(rng, self.connections.len()) {
            Some(index) => {
                self.toggle_connection_at(index);
            },
            None => {},
        }
    }

    /// The set-weight operator: gives one connection chosen at random a
    /// weight from the configuration. Does nothing to a genome without
    /// connections, and draws no weight then.
    pub fn mutate_set_weight<F: Fn() -> u64>(
        &mut self,
        config: &GenomeConfig,
        rng: &mut ThreadRng,
        sample: &F,
    )
        requires
            old(self).wf(),
            config@.weight_is_random ==> call_requires(*sample, ()),
        ensures
            final(self).wf(),
            old(self)@.set_weight_step(final(self)@, config@, *sample),
    {
        match pick_one(rng, self.connections.len()) {
            Some(index) => {
                let weight = config.get_weight(sample);
                self.set_weight_at(index, weight);
            },
            None => {},
        }
    }

    /// The update-weight operator: gives one connection chosen at random
    /// the weight that `perturb` makes of the one it has. Does nothing to
    /// a genome without connections.
    pub fn mutate_update_weight<P: Fn(u64) -> u64>(&mut self, rng: &mut ThreadRng, perturb: &P)
        requires
            old(self).wf(),
            forall|weight: u64| call_requires(*perturb, (weight,)),
        ensures
            final(self).wf(),
            old(self)@.update_weight_step(final(self)@, *perturb),
    {
        match pick_one(rng, self.connections.len()) {
            Some(index) => {
                let weight = match self.connections.get_index(index) {
                    Some(gene) => gene.0.get_weight(),
                    None => 0,
                };
                let weight = perturb(weight);
                self.set_weight_at(index, weight);
            },
            None => {},
        }
    }

    /// The create-neuron operator: splits one connection chosen at random
    /// by a new hidden neuron, as `create_neuron_at` does. Does nothing to
    /// a genome without connections, nor where the authority has fewer
    /// than three markings left.
    pub fn mutate_create_neuron(&mut self, counter: &mut InnovationCounter, rng: &mut ThreadRng)
        requires
            old(self).wf(),
            old(counter)@.wf(),
        ensures
            final(self).wf(),
            final(counter)@.wf(),
            old(self)@.create_neuron_step(old(counter)@, final(self)@, final(counter)@),
    {
        match pick_one(rng, self.connections.len()) {
            Some(index) => {
                self.create_neuron_at(counter, index);
            },
            None => {},
        }
    }

    /// The create-connection operator: up to a hundred times, chooses two
    /// different neurons at random; the first two that are of different
    /// classes are connected, from the lower class to the higher, with a
    /// weight from the configuration, and the operator is done. Where no
    /// attempt finds such a pair, and in a genome with fewer than two
    /// neurons, nothing changes; nor does anything change where the
    /// authority has neither a marking for the pair found nor one left to
    /// give.
    pub fn mutate_create_connection<F: Fn() -> u64>(
        &mut self,
        counter: &mut InnovationCounter,
        config: &GenomeConfig,
        rng: &mut ThreadRng,
        sample: &F,
    )
        requires
            old(self).wf(),
            old(counter)@.wf(),
            config@.weight_is_random ==> call_requires(*sample, ()),
        ensures
            final(self).wf(),
            final(counter)@.wf(),
            old(self)@.create_connection_step(
                old(counter)@,
                final(self)@,
                final(counter)@,
                config@,
                *sample,
            ),
    {
        let mut attempt: u32 = 0;
        while attempt < MAX_CONNECTION_ATTEMPTS
            invariant
                self.wf(),
                counter@.wf(),
                self@ == old(self)@,
                counter@ == old(counter)@,
                config@.weight_is_random ==> call_requires(*sample, ()),
                attempt > 0 ==> !self@.any_two_join(),
            decreases MAX_CONNECTION_ATTEMPTS - attempt,
        {
            let (first, second) = match pick_two(rng, self.neurons.len()) {
                Some(pair) => pair,
                None => {
                    return ;
                },
            };
            match self.orient(first, second) {
                Some((source, target)) => {
                    if !counter.can_connect(source, target) {
                        return ;
                    }
                    let weight = config.get_weight(sample);
                    proof {
                        self@.lemma_oriented(first as int, second as int, source, target);
                    }
                    self.connect(counter, source, target, weight);
                    proof {
                        assert(old(self)@.joins(
                            old(counter)@,
                            self@,
                            counter@,
                            first as int,
                            second as int,
                            weight,
                        ));
                    }
                    return ;
                },
                None => {
                    assert(self@.oriented(first as int, second as int) is None);
                },
            }
            attempt += 1;
        }
    }

    /// A genome as the configuration describes it.
    ///
    /// It has `n_sensor` sensor neurons under the markings from 0 on, then
    /// `n_output` output neurons under the markings that follow. Where the
    /// configuration asks for initial connectivity, every sensor is
    /// connected to every output, sensor by sensor and output by output,
    /// each connection under the marking that the authority gives to its
    /// pair and with a weight from the configuration.
    pub fn new<F: Fn() -> u64>(
        counter: &mut InnovationCounter,
        config: &GenomeConfig,
        sample: &F,
    ) -> (genome: Genome)
        requires
            old(counter)@.wf(),
            config@.n_sensor + config@.n_output <= u32::MAX,
            config@.is_connected ==> old(counter)@.has_room(
                config@.n_sensor * config@.n_output,
            ),
            config@.is_connected && config@.weight_is_random ==> call_requires(*sample, ()),
        ensures
            genome.wf(),
            final(counter)@.wf(),
            genome@.neurons == initial_neurons(config@.n_sensor, config@.n_output),
            !config@.is_connected ==> {
                &&& genome@.connections.len() == 0
                &&& final(counter)@ == old(counter)@
            },
            config@.is_connected ==> {
                &&& genome@.connections.len() == config@.n_sensor * config@.n_output
                &&& genome@.wired(final(counter)@, config@, *sample, config@.n_sensor as int, 0)
                &&& final(counter)@ == after_rows(
                    old(counter)@,
                    config@.n_sensor,
                    config@.n_output,
                    config@.n_sensor as nat,
                )
            },
            config@.n_sensor + config@.n_output <= old(counter)@.next ==> genome@.tracked_by(
                final(counter)@,
            ),
    {
        let n_sensor = config.get_n_sensor();
        let n_output = config.get_n_output();
        let total = n_sensor + n_output;
        let ghost start = initial_neurons(n_sensor, n_output);
        let mut genome = Genome { connections: HashVec::new(), neurons: HashVec::new() };
        assert(genome@.neurons =~= start.take(0));
        let mut i: u32 = 0;
        while i < total
            invariant
                i <= total,
                total == n_sensor + n_output,
                start == initial_neurons(n_sensor, n_output),
                genome.wf(),
                genome@.connections.len() == 0,
                genome@.neurons == start.take(i as int),
            decreases total - i,
        {
            let class = if i < n_sensor {
                SENSOR
            } else {
                OUTPUT
            };
            let neuron = NeuronGene::new(i, class);
            proof {
                let markings = genome@.neuron_markings();
                if genome@.has_neuron(i) {
                    let j = markings.index_of(i);
                    assert(markings[j] == i);
                    assert(start.take(i as int)[j].innovation == j);
                }
                lemma_slot(markings, i, i as int);
                assert(start.take(i as int).insert(i as int, neuron@) =~= start.take(i + 1));
            }
            genome.add_neuron(neuron);
            i += 1;
        }
        assert(start.take(total as int) =~= start);
        if config.is_connected() {
            let ghost c0 = counter@;
            let mut source: u32 = 0;
            while source < n_sensor
                invariant
                    source <= n_sensor,
                    total == n_sensor + n_output,
                    n_sensor == config@.n_sensor,
                    n_output == config@.n_output,
                    config@.weight_is_random ==> call_requires(*sample, ()),
                    genome.wf(),
                    counter@.wf(),
                    genome@.neurons == initial_neurons(n_sensor, n_output),
                    c0.has_room(n_sensor * n_output),
                    c0.next <= counter@.next <= c0.next + source * n_output,
                    counter@ == after_rows(c0, n_sensor, n_output, source as nat),
                    genome@.connections.len() == source * n_output,
                    genome@.wired(counter@, config@, *sample, source as int, 0),
                decreases n_sensor - source,
            {
                let mut target: u32 = n_sensor;
                let ghost row_start = counter@;
                while target < total
                    invariant
                        source < n_sensor,
                        n_sensor <= target <= total,
                        total == n_sensor + n_output,
                        n_sensor == config@.n_sensor,
                        n_output == config@.n_output,
                        config@.weight_is_random ==> call_requires(*sample, ()),
                        genome.wf(),
                        counter@.wf(),
                        genome@.neurons == initial_neurons(n_sensor, n_output),
                        c0.has_room(n_sensor * n_output),
                        c0.next <= counter@.next <= c0.next + source * n_output + (target
                            - n_sensor),
                        counter@ == after_row(
                            row_start,
                            source,
                            n_sensor,
                            (target - n_sensor) as nat,
                        ),
                        genome@.connections.len() == source * n_output + (target - n_sensor),
                        genome@.wired(
                            counter@,
                            config@,
                            *sample,
                            source as int,
                            target - n_sensor,
                        ),
                    decreases total - target,
                {
                    let weight = config.get_weight(sample);
                    proof {
                        assert(source * n_output + n_output <= n_sensor * n_output)
                            by (nonlinear_arith)
                            requires
                                source < n_sensor,
                                n_output >= 0,
                        ;
                        genome@.lemma_wire(
                            counter@,
                            config@,
                            *sample,
                            source as int,
                            target - n_sensor,
                            weight,
                        );
                        let markings = genome@.neuron_markings();
                        assert(markings[source as int] == source);
                        assert(markings[target as int] == target);
                    }
                    genome.connect(counter, source, target, weight);
                    target += 1;
                }
                proof {
                    assert(source * n_output + n_output == (source + 1) * n_output)
                        by (nonlinear_arith);
                    let g = genome@;
                    assert forall|a: u32, b: u32| #[trigger]
                        wired_before(config@, source + 1, 0, a, b) implies wired_before(
                        config@,
                        source as int,
                        n_output as int,
                        a,
                        b,
                    ) by {}
                    assert(g.wired(counter@, config@, *sample, source + 1, 0));
                }
                source += 1;
            }
        }
        genome
    }

    /// One mutation of the genome.
    ///
    /// `exceeds` is asked once for each of the five thresholds of the
    /// configuration whether the value drawn for this mutation exceeds it.
    /// The operators whose thresholds are exceeded then run in a fixed
    /// order: create-connection, create-neuron, update-weight, set-weight,
    /// toggle-connection. `sample` is the source of sampled weights and
    /// `perturb` makes the new weight of the update-weight operator from
    /// the old one.
    pub fn mutate<E: Fn(u64) -> bool, F: Fn() -> u64, P: Fn(u64) -> u64>(
        &mut self,
        counter: &mut InnovationCounter,
        config: &GenomeConfig,
        exceeds: &E,
        sample: &F,
        perturb: &P,
    )
        requires
            old(self).wf(),
            old(counter)@.wf(),
            forall|threshold: u64| call_requires(*exceeds, (threshold,)),
            config@.weight_is_random ==> call_requires(*sample, ()),
            forall|weight: u64| call_requires(*perturb, (weight,)),
        ensures
            final(self).wf(),
            final(counter)@.wf(),
            old(self)@.mutation_step(
                old(counter)@,
                final(self)@,
                final(counter)@,
                config@,
                *exceeds,
                *sample,
                *perturb,
            ),
    {
        let mut rng = thread_rng();
        let create_connection = exceeds(config.get_mutate_create_connection());
        let create_neuron = exceeds(config.get_mutate_create_neuron());
        let update_weight = exceeds(config.get_mutate_update_weight());
        let set_weight = exceeds(config.get_mutate_set_weight());
        let toggle_connection = exceeds(config.get_mutate_toggle_connection());
        if create_connection {
            self.mutate_create_connection(counter, config, &mut rng, sample);
        }
        let ghost connected = self@;
        let ghost counter_connected = counter@;
        if create_neuron {
            self.mutate_create_neuron(counter, &mut rng);
        }
        let ghost split = self@;
        if update_weight {
            self.mutate_update_weight(&mut rng, perturb);
        }
        let ghost updated = self@;
        if set_weight {
            self.mutate_set_weight(config, &mut rng, sample);
        }
        let ghost set = self@;
        if toggle_connection {
            self.mutate_toggle_connection(&mut rng);
        }
        proof {
            let on = Triggers {
                create_connection,
                create_neuron,
                update_weight,
                set_weight,
                toggle_connection,
            };
            let stages = Stages { connected, counter_connected, split, updated, set };
            assert(GenomeView::decided(config@, *exceeds, on));
            assert(old(self)@.mutation_path(
                old(counter)@,
                self@,
                counter@,
                config@,
                *sample,
                *perturb,
                on,
                stages,
            ));
        }
    }

    /// A traversal of the connection genes in the order of their markings.
    pub fn iter_connections(&self) -> (r: std::slice::Iter<
        '_,
        ComparableGeneInterface<ConnectionGene>,
    >)
        ensures
            into_iter_elts(r).len() == self@.connections.len(),
            forall|i: int|
                0 <= i < self@.connections.len() ==> (#[trigger] into_iter_elts(r)[i]).0@
                    == self@.connections[i],
    {
        self.connections.iter()
    }

    /// A traversal of the neuron genes in the order of their markings.
    pub fn iter_neurons(&self) -> (r: std::slice::Iter<'_, ComparableGeneInterface<NeuronGene>>)
        ensures
            into_iter_elts(r).len() == self@.neurons.len(),
            forall|i: int|
                0 <= i < self@.neurons.len() ==> (#[trigger] into_iter_elts(r)[i]).0@
                    == self@.neurons[i],
    {
        self.neurons.iter()
    }
}

} // verus!
