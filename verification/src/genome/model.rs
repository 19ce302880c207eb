//! What a genome is, apart from how it is stored: its neuron genes and its
//! connection genes, each in the order of their historical markings.

use super::connection_gene::ConnectionGeneView;
use super::genome_config::GenomeConfigView;
use super::neuron_gene::{NeuronGeneView, OUTPUT, SENSOR};
use crate::CounterView;
use vstd::prelude::*;

verus! {

/// The bit pattern of the weight 1.0.
pub const UNIT_WEIGHT: u64 = 0x3FF0_0000_0000_0000;

/// The class halfway between two classes, rounded down.
pub open spec fn midpoint(a: u32, b: u32) -> u32 {
    ((a + b) / 2) as u32
}

/// Each marking is smaller than every later one.
pub open spec fn increasing(markings: Seq<u32>) -> bool {
    forall|i: int, j: int| 0 <= i < j < markings.len() ==> markings[i] < markings[j]
}

/// Where the marking `m` belongs among `markings`: at the start of the
/// longest run of markings at the end that are not below it.
pub open spec fn slot(markings: Seq<u32>, m: u32) -> int
    decreases markings.len(),
{
    if markings.len() == 0 || markings.last() < m {
        markings.len() as int
    } else {
        slot(markings.drop_last(), m)
    }
}

/// A genome: its neuron genes and its connection genes.
pub ghost struct GenomeView {
    pub neurons: Seq<NeuronGeneView>,
    pub connections: Seq<ConnectionGeneView>,
}

/// The neurons a genome starts with: `n_sensor` sensors under the markings
/// from 0 on, then `n_output` outputs under the markings that follow.
pub open spec fn initial_neurons(n_sensor: u32, n_output: u32) -> Seq<NeuronGeneView> {
    Seq::new(
        (n_sensor + n_output) as nat,
        |i: int|
            NeuronGeneView {
                innovation: i as u32,
                class: if i < n_sensor {
                    SENSOR
                } else {
                    OUTPUT
                },
            },
    )
}

/// The state of the authority after the connections from `source` to the
/// `count` neurons from `first` on have been asked for, in that order.
pub open spec fn after_row(c: CounterView, source: u32, first: u32, count: nat) -> CounterView
    decreases count,
{
    if count == 0 {
        c
    } else {
        after_row(c, source, first, (count - 1) as nat).after_connection(
            source,
            (first + count - 1) as u32,
        )
    }
}

/// The state of the authority after the connections from each of the first
/// `rows` sensors to every output have been asked for: sensor by sensor,
/// and for each sensor output by output.
pub open spec fn after_rows(c: CounterView, n_sensor: u32, n_output: u32, rows: nat)
    -> CounterView
    decreases rows,
{
    if rows == 0 {
        c
    } else {
        after_row(
            after_rows(c, n_sensor, n_output, (rows - 1) as nat),
            (rows - 1) as u32,
            n_sensor,
            n_output as nat,
        )
    }
}

/// `gene` is a connection that a genome starts with: an enabled one from a
/// sensor to an output, under the marking that the authority in state `c`
/// holds for that pair, with a weight that `config` gives.
pub open spec fn initial_connection<F: Fn() -> u64>(
    gene: ConnectionGeneView,
    c: CounterView,
    config: GenomeConfigView,
    sample: F,
) -> bool {
    &&& gene.neuron_in < config.n_sensor
    &&& config.n_sensor <= gene.neuron_out < config.n_sensor + config.n_output
    &&& c.issued.contains_key((gene.neuron_in, gene.neuron_out))
    &&& gene.innovation == c.issued[(gene.neuron_in, gene.neuron_out)]
    &&& gene.enabled
    &&& config.gives_weight(sample, gene.weight)
}

/// Whether the pair (`source`, `target`) is among the pairs of a sensor and
/// an output that come before the one in row `rows` and column `cols`, the
/// pairs being taken sensor by sensor and output by output.
pub open spec fn wired_before(
    config: GenomeConfigView,
    rows: int,
    cols: int,
    source: u32,
    target: u32,
) -> bool {
    &&& config.n_sensor <= target < config.n_sensor + config.n_output
    &&& source < rows || (source == rows && target < config.n_sensor + cols)
}

/// Which of the five operators a mutation runs, in the order in which it
/// runs them.
pub ghost struct Triggers {
    pub create_connection: bool,
    pub create_neuron: bool,
    pub update_weight: bool,
    pub set_weight: bool,
    pub toggle_connection: bool,
}

/// The genomes between the operators of one mutation, and the state of the
/// authority between the two operators that ask it.
pub ghost struct Stages {
    pub connected: GenomeView,
    pub counter_connected: CounterView,
    pub split: GenomeView,
    pub updated: GenomeView,
    pub set: GenomeView,
}

/// None of the pairs from `source` to the `count` neurons from `first` on
/// has a marking in `c`.
pub open spec fn row_is_new(c: CounterView, source: u32, first: u32, count: nat) -> bool {
    forall|k: nat| k < count ==> !c.issued.contains_key((source, #[trigger] (first + k) as u32))
}

/// None of the pairs from one of the first `rows` sensors to an output has
/// a marking in `c`.
pub open spec fn rows_are_new(c: CounterView, n_sensor: u32, n_output: u32, rows: nat) -> bool {
    forall|source: u32, target: u32|
        source < rows && n_sensor <= target < n_sensor + n_output ==> !#[trigger] c.issued.contains_key(
            (source, target),
        )
}

/// The place in the order of the wiring of the pair of the sensor `source`
/// and the output in column `column`: sensor by sensor, and for each
/// sensor output by output.
pub open spec fn wiring_position(config: GenomeConfigView, source: int, column: int) -> int {
    source * config.n_output + column
}

impl GenomeView {
    /// The markings of the neurons, in order.
    pub open spec fn neuron_markings(self) -> Seq<u32> {
        Seq::new(self.neurons.len(), |i: int| self.neurons[i].innovation)
    }

    /// The markings of the connections, in order.
    pub open spec fn connection_markings(self) -> Seq<u32> {
        Seq::new(self.connections.len(), |i: int| self.connections[i].innovation)
    }

    /// Whether the genome has a neuron with the marking `m`.
    pub open spec fn has_neuron(self, m: u32) -> bool {
        self.neuron_markings().contains(m)
    }

    /// Whether the genome has a connection with the marking `m`.
    pub open spec fn has_connection(self, m: u32) -> bool {
        self.connection_markings().contains(m)
    }

    /// The neuron with the marking `m` (meaningful when `has_neuron(m)`).
    pub open spec fn neuron(self, m: u32) -> NeuronGeneView {
        self.neurons[self.neuron_markings().index_of(m)]
    }

    /// Well-formedness: neurons and connections stand in strictly
    /// increasing order of their markings, so no marking occurs twice among
    /// either, and every connection joins two neurons of the genome.
    pub open spec fn wf(self) -> bool {
        &&& increasing(self.neuron_markings())
        &&& increasing(self.connection_markings())
        &&& forall|i: int|
            0 <= i < self.connections.len() ==> self.has_neuron(
                (#[trigger] self.connections[i]).neuron_in,
            ) && self.has_neuron(self.connections[i].neuron_out)
    }

    /// The authority in state `c` accounts for the genome: every neuron
    /// marking lies below its counter, and every connection has the marking
    /// that the authority holds for its pair.
    pub open spec fn tracked_by(self, c: CounterView) -> bool {
        &&& forall|i: int|
            0 <= i < self.neurons.len() ==> (#[trigger] self.neurons[i]).innovation < c.next
        &&& forall|j: int|
            0 <= j < self.connections.len() ==> c.issued.contains_key(
                ((#[trigger] self.connections[j]).neuron_in, self.connections[j].neuron_out),
            ) && c.issued[(self.connections[j].neuron_in, self.connections[j].neuron_out)]
                == self.connections[j].innovation
    }

    /// The genome with `gene` among its neurons, at the place its marking
    /// gives it; the genome as it is where that marking is taken.
    pub open spec fn with_neuron(self, gene: NeuronGeneView) -> GenomeView {
        if self.has_neuron(gene.innovation) {
            self
        } else {
            GenomeView {
                neurons: self.neurons.insert(slot(self.neuron_markings(), gene.innovation), gene),
                connections: self.connections,
            }
        }
    }

    /// The genome with `gene` among its connections, at the place its
    /// marking gives it; the genome as it is where that marking is taken.
    pub open spec fn with_connection(self, gene: ConnectionGeneView) -> GenomeView {
        if self.has_connection(gene.innovation) {
            self
        } else {
            GenomeView {
                neurons: self.neurons,
                connections: self.connections.insert(
                    slot(self.connection_markings(), gene.innovation),
                    gene,
                ),
            }
        }
    }

    /// The genome with the enabled flag of the connection at position `i`
    /// flipped.
    pub open spec fn toggled(self, i: int) -> GenomeView {
        GenomeView {
            neurons: self.neurons,
            connections: self.connections.update(
                i,
                ConnectionGeneView { enabled: !self.connections[i].enabled, ..self.connections[i] },
            ),
        }
    }

    /// The genome with `weight` as the weight of the connection at position
    /// `i`.
    pub open spec fn with_weight(self, i: int, weight: u64) -> GenomeView {
        GenomeView {
            neurons: self.neurons,
            connections: self.connections.update(
                i,
                ConnectionGeneView { weight, ..self.connections[i] },
            ),
        }
    }

    /// The neuron that splits the connection at position `i`, the authority
    /// being in state `c`: it takes the next marking, and its class lies
    /// halfway between those of the two neurons that the connection joins.
    pub open spec fn splitting_neuron(self, c: CounterView, i: int) -> NeuronGeneView {
        NeuronGeneView {
            innovation: c.next,
            class: midpoint(
                self.neuron(self.connections[i].neuron_in).class,
                self.neuron(self.connections[i].neuron_out).class,
            ),
        }
    }

    /// The connection from the source of the connection at position `i` to
    /// the neuron that splits it. Its weight is 1.0.
    pub open spec fn splitting_inlet(self, c: CounterView, i: int) -> ConnectionGeneView {
        ConnectionGeneView {
            innovation: c.after_neuron().connection(self.connections[i].neuron_in, c.next),
            neuron_in: self.connections[i].neuron_in,
            neuron_out: c.next,
            weight: UNIT_WEIGHT,
            enabled: true,
        }
    }

    /// The connection from the neuron that splits the connection at
    /// position `i` to the target of that connection, whose weight it
    /// takes.
    pub open spec fn splitting_outlet(self, c: CounterView, i: int) -> ConnectionGeneView {
        ConnectionGeneView {
            innovation: c.after_neuron().after_connection(
                self.connections[i].neuron_in,
                c.next,
            ).connection(c.next, self.connections[i].neuron_out),
            neuron_in: c.next,
            neuron_out: self.connections[i].neuron_out,
            weight: self.connections[i].weight,
            enabled: true,
        }
    }

    /// The genome after a new neuron has split the connection at position
    /// `i`, the authority being in state `c`: the enabled flag of that
    /// connection is flipped, and the new neuron and the two connections
    /// through it have joined the genome.
    pub open spec fn split(self, c: CounterView, i: int) -> GenomeView {
        self.toggled(i).with_neuron(self.splitting_neuron(c, i)).with_connection(
            self.splitting_inlet(c, i),
        ).with_connection(self.splitting_outlet(c, i))
    }

    /// The state of the authority after the split of the connection at
    /// position `i`: one neuron marking and the markings of two connections
    /// have been asked for.
    pub open spec fn counter_after_split(self, c: CounterView, i: int) -> CounterView {
        c.after_neuron().after_connection(self.connections[i].neuron_in, c.next).after_connection(
            c.next,
            self.connections[i].neuron_out,
        )
    }

    /// The ordered pair of markings (source, target) of a connection
    /// between the neurons at positions `a` and `b`: from the one of lower
    /// class to the one of higher class. None where the two are of one
    /// class, or where `a` or `b` is no position.
    pub open spec fn oriented(self, a: int, b: int) -> Option<(u32, u32)> {
        if 0 <= a < self.neurons.len() && 0 <= b < self.neurons.len() {
            if self.neurons[a].class < self.neurons[b].class {
                Some((self.neurons[a].innovation, self.neurons[b].innovation))
            } else if self.neurons[a].class > self.neurons[b].class {
                Some((self.neurons[b].innovation, self.neurons[a].innovation))
            } else {
                None
            }
        } else {
            None
        }
    }

    /// The enabled connection `source` -> `target` with the weight
    /// `weight`, under the marking that the authority in state `c` gives
    /// to that pair.
    pub open spec fn joining(c: CounterView, source: u32, target: u32, weight: u64)
        -> ConnectionGeneView {
        ConnectionGeneView {
            innovation: c.connection(source, target),
            neuron_in: source,
            neuron_out: target,
            weight,
            enabled: true,
        }
    }

    /// The genome after `source` has been connected to `target`, the
    /// authority being in state `c`. Where `source` or `target` is no
    /// neuron of the genome, or the authority cannot answer for the pair,
    /// it is as before.
    pub open spec fn connected(self, c: CounterView, source: u32, target: u32, weight: u64)
        -> GenomeView {
        if self.has_neuron(source) && self.has_neuron(target) && c.can_connect(source, target) {
            self.with_connection(Self::joining(c, source, target, weight))
        } else {
            self
        }
    }

    /// The state of the authority after `source` has been connected to
    /// `target`.
    pub open spec fn counter_after_connected(self, c: CounterView, source: u32, target: u32)
        -> CounterView {
        if self.has_neuron(source) && self.has_neuron(target) && c.can_connect(source, target) {
            c.after_connection(source, target)
        } else {
            c
        }
    }

    /// The toggle-connection operator takes the genome to `after`: one
    /// connection has its enabled flag flipped; a genome without
    /// connections stays as it is.
    pub open spec fn toggle_step(self, after: GenomeView) -> bool {
        if self.connections.len() == 0 {
            after == self
        } else {
            exists|i: int| 0 <= i < self.connections.len() && after == #[trigger] self.toggled(i)
        }
    }

    /// The set-weight operator takes the genome to `after`: one connection
    /// has a weight that `config` gives; a genome without connections stays
    /// as it is.
    pub open spec fn set_weight_step<F: Fn() -> u64>(
        self,
        after: GenomeView,
        config: GenomeConfigView,
        sample: F,
    ) -> bool {
        if self.connections.len() == 0 {
            after == self
        } else {
            exists|i: int, weight: u64|
                0 <= i < self.connections.len() && config.gives_weight(sample, weight) && after
                    == #[trigger] self.with_weight(i, weight)
        }
    }

    /// The update-weight operator takes the genome to `after`: one
    /// connection has the weight that `perturb` made of its old one; a
    /// genome without connections stays as it is.
    pub open spec fn update_weight_step<P: Fn(u64) -> u64>(
        self,
        after: GenomeView,
        perturb: P,
    ) -> bool {
        if self.connections.len() == 0 {
            after == self
        } else {
            exists|i: int, weight: u64|
                0 <= i < self.connections.len() && call_ensures(
                    perturb,
                    (self.connections[i].weight,),
                    weight,
                ) && after == #[trigger] self.with_weight(i, weight)
        }
    }

    /// The create-neuron operator takes the genome and the authority from
    /// (`self`, `c`) to (`after`, `c_after`): one connection is split. A
    /// genome without connections stays as it is and asks the authority
    /// nothing, and so does any genome where the authority has fewer than
    /// the three markings left that a split may take.
    pub open spec fn create_neuron_step(
        self,
        c: CounterView,
        after: GenomeView,
        c_after: CounterView,
    ) -> bool {
        if self.connections.len() == 0 || !c.has_room(3) {
            after == self && c_after == c
        } else {
            exists|i: int|
                0 <= i < self.connections.len() && after == #[trigger] self.split(c, i) && c_after
                    == self.counter_after_split(c, i)
        }
    }

    /// The neurons at the positions `a` and `b` are joined, from `source`
    /// to `target` and with the weight `weight`, on the way from (`self`,
    /// `c`) to (`after`, `c_after`).
    pub open spec fn joins(
        self,
        c: CounterView,
        after: GenomeView,
        c_after: CounterView,
        a: int,
        b: int,
        weight: u64,
    ) -> bool {
        match self.oriented(a, b) {
            Some((source, target)) => {
                &&& c.can_connect(source, target)
                &&& after == self.connected(c, source, target, weight)
                &&& c_after == c.after_connection(source, target)
            },
            None => false,
        }
    }

    /// Any two different neurons of the genome are of different classes,
    /// and there are two at least: whichever two are drawn can be joined.
    pub open spec fn any_two_join(self) -> bool {
        &&& self.neurons.len() >= 2
        &&& forall|a: int, b: int|
            0 <= a < self.neurons.len() && 0 <= b < self.neurons.len() && a != b
                ==> #[trigger] self.oriented(a, b) is Some
    }

    /// The create-connection operator takes the genome and the authority
    /// from (`self`, `c`) to (`after`, `c_after`): either two neurons of
    /// different classes are joined from the lower class to the higher with
    /// a weight that `config` gives, or nothing has changed. A genome with
    /// fewer than two neurons stays as it is; in a genome in which any two
    /// neurons can be joined, two are, if the authority has a marking left.
    pub open spec fn create_connection_step<F: Fn() -> u64>(
        self,
        c: CounterView,
        after: GenomeView,
        c_after: CounterView,
        config: GenomeConfigView,
        sample: F,
    ) -> bool {
        ||| after == self && c_after == c && !(self.any_two_join() && c.has_room(1))
        ||| self.neurons.len() >= 2 && exists|a: int, b: int, weight: u64|
            config.gives_weight(sample, weight) && #[trigger] self.joins(
                c,
                after,
                c_after,
                a,
                b,
                weight,
            )
    }

    /// The connections of the genome are those of the pairs before row
    /// `rows` and column `cols`, one for each: every connection is an
    /// initial connection of such a pair, and every such pair has its
    /// marking among the connections.
    pub open spec fn wired<F: Fn() -> u64>(
        self,
        c: CounterView,
        config: GenomeConfigView,
        sample: F,
        rows: int,
        cols: int,
    ) -> bool {
        &&& forall|j: int|
            0 <= j < self.connections.len() ==> initial_connection(
                #[trigger] self.connections[j],
                c,
                config,
                sample,
            ) && wired_before(
                config,
                rows,
                cols,
                self.connections[j].neuron_in,
                self.connections[j].neuron_out,
            )
        &&& forall|source: u32, target: u32| #[trigger]
            wired_before(config, rows, cols, source, target) ==> c.issued.contains_key(
                (source, target),
            ) && self.has_connection(c.issued[(source, target)])
    }

    /// `exceeds` has decided on each threshold of `config` as `on` says.
    pub open spec fn decided<E: Fn(u64) -> bool>(
        config: GenomeConfigView,
        exceeds: E,
        on: Triggers,
    ) -> bool {
        &&& call_ensures(exceeds, (config.mutate_create_connection,), on.create_connection)
        &&& call_ensures(exceeds, (config.mutate_create_neuron,), on.create_neuron)
        &&& call_ensures(exceeds, (config.mutate_update_weight,), on.update_weight)
        &&& call_ensures(exceeds, (config.mutate_set_weight,), on.set_weight)
        &&& call_ensures(exceeds, (config.mutate_toggle_connection,), on.toggle_connection)
    }

    /// One mutation takes the genome and the authority from (`self`, `c`)
    /// to (`after`, `c_after`) by way of `stages`, running the operators
    /// that `on` names: create-connection, create-neuron, update-weight,
    /// set-weight and toggle-connection, in this order, each from where the
    /// one before it left off. An operator that does not run changes
    /// nothing.
    pub open spec fn mutation_path<F: Fn() -> u64, P: Fn(u64) -> u64>(
        self,
        c: CounterView,
        after: GenomeView,
        c_after: CounterView,
        config: GenomeConfigView,
        sample: F,
        perturb: P,
        on: Triggers,
        stages: Stages,
    ) -> bool {
        &&& if on.create_connection {
            self.create_connection_step(
                c,
                stages.connected,
                stages.counter_connected,
                config,
                sample,
            )
        } else {
            stages.connected == self && stages.counter_connected == c
        }
        &&& if on.create_neuron {
            stages.connected.create_neuron_step(stages.counter_connected, stages.split, c_after)
        } else {
            stages.split == stages.connected && c_after == stages.counter_connected
        }
        &&& if on.update_weight {
            stages.split.update_weight_step(stages.updated, perturb)
        } else {
            stages.updated == stages.split
        }
        &&& if on.set_weight {
            stages.updated.set_weight_step(stages.set, config, sample)
        } else {
            stages.set == stages.updated
        }
        &&& if on.toggle_connection {
            stages.set.toggle_step(after)
        } else {
            after == stages.set
        }
    }

    /// One mutation takes the genome and the authority from (`self`, `c`)
    /// to (`after`, `c_after`): `exceeds` decides on each of the five
    /// thresholds of `config` whether its operator runs, and the operators
    /// that run do so in their fixed order.
    pub open spec fn mutation_step<E: Fn(u64) -> bool, F: Fn() -> u64, P: Fn(u64) -> u64>(
        self,
        c: CounterView,
        after: GenomeView,
        c_after: CounterView,
        config: GenomeConfigView,
        exceeds: E,
        sample: F,
        perturb: P,
    ) -> bool {
        exists|on: Triggers, stages: Stages|
            Self::decided(config, exceeds, on) && #[trigger] self.mutation_path(
                c,
                after,
                c_after,
                config,
                sample,
                perturb,
                on,
                stages,
            )
    }
}

} // verus!
