//! What holds of genomes: the lemmas behind the operators, and the laws of
//! the operators themselves.

use super::connection_gene::ConnectionGeneView;
use super::genome_config::GenomeConfigView;
use super::model::{
    after_row, after_rows, increasing, initial_connection, row_is_new, rows_are_new, slot,
    wired_before, wiring_position, GenomeView, Stages, Triggers, UNIT_WEIGHT,
};
use super::neuron_gene::NeuronGeneView;
use crate::CounterView;
use vstd::prelude::*;

verus! {

/// The position that has only smaller markings before it and none after it
/// is the slot.
pub proof fn lemma_slot(markings: Seq<u32>, m: u32, i: int)
    requires
        0 <= i <= markings.len(),
        forall|j: int| 0 <= j < i ==> markings[j] < m,
        forall|j: int| i <= j < markings.len() ==> markings[j] >= m,
    ensures
        slot(markings, m) == i,
    decreases markings.len(),
{
    if markings.len() == 0 || markings.last() < m {
    } else {
        lemma_slot(markings.drop_last(), m, i);
    }
}

/// The slot is a position of `markings` or its end; among increasing
/// markings, those before it are smaller than `m` and those from it on are
/// not.
pub proof fn lemma_slot_parts(markings: Seq<u32>, m: u32)
    requires
        increasing(markings),
    ensures
        0 <= slot(markings, m) <= markings.len(),
        forall|j: int| 0 <= j < slot(markings, m) ==> markings[j] < m,
        forall|j: int| slot(markings, m) <= j < markings.len() ==> markings[j] >= m,
    decreases markings.len(),
{
    if markings.len() == 0 {
    } else if markings.last() < m {
        assert forall|j: int| 0 <= j < markings.len() implies markings[j] < m by {
            if j < markings.len() - 1 {
                assert(markings[j] < markings[markings.len() - 1]);
            }
        }
    } else {
        let d = markings.drop_last();
        assert forall|i: int, j: int| 0 <= i < j < d.len() implies d[i] < d[j] by {
            assert(markings[i] < markings[j]);
        }
        lemma_slot_parts(d, m);
        assert forall|j: int| 0 <= j < slot(markings, m) implies markings[j] < m by {
            assert(d[j] < m);
        }
        assert forall|j: int| slot(markings, m) <= j < markings.len() implies markings[j]
            >= m by {
            if j < d.len() {
                assert(d[j] >= m);
            }
        }
    }
}

/// Markings stay increasing when a marking that is not among them enters at
/// its slot.
pub proof fn lemma_slot_keeps_increasing(markings: Seq<u32>, m: u32)
    requires
        increasing(markings),
        !markings.contains(m),
    ensures
        increasing(markings.insert(slot(markings, m), m)),
{
    lemma_slot_parts(markings, m);
    let p = slot(markings, m);
    let after = markings.insert(p, m);
    assert forall|i: int, j: int| 0 <= i < j < after.len() implies after[i] < after[j] by {
        let a = if i < p { i } else { i - 1 };
        let b = if j < p { j } else { j - 1 };
        if i == p {
            assert(markings[b] >= m);
            assert(markings.contains(markings[b]));
        } else if j == p {
            assert(markings[a] < m);
        } else {
            assert(markings[a] < markings[b]);
        }
    }
}

// What the building blocks of the operators keep.
impl GenomeView {
    /// In a well-formed genome the neuron found under a marking is the one
    /// that holds it.
    pub proof fn lemma_neuron(self, i: int)
        requires
            self.wf(),
            0 <= i < self.neurons.len(),
        ensures
            self.has_neuron(self.neurons[i].innovation),
            self.neuron(self.neurons[i].innovation) == self.neurons[i],
    {
        let m = self.neurons[i].innovation;
        let marks = self.neuron_markings();
        assert(marks[i] == m);
        let j = marks.index_of(m);
        assert(marks[j] == m);
        if j < i {
            assert(marks[j] < marks[i]);
        } else if i < j {
            assert(marks[i] < marks[j]);
        }
    }

    /// A genome keeps its neurons when a neuron joins it, and has the
    /// marking of that neuron afterwards.
    pub proof fn lemma_with_neuron_keeps(self, gene: NeuronGeneView, m: u32)
        requires
            self.wf(),
        ensures
            self.with_neuron(gene).has_neuron(gene.innovation),
            self.has_neuron(m) ==> self.with_neuron(gene).has_neuron(m),
            self.has_neuron(m) ==> self.with_neuron(gene).neuron(m) == self.neuron(m),
    {
        let after = self.with_neuron(gene);
        if !self.has_neuron(gene.innovation) {
            lemma_slot_parts(self.neuron_markings(), gene.innovation);
            let p = slot(self.neuron_markings(), gene.innovation);
            assert(after.neuron_markings()[p] == gene.innovation);
            if self.has_neuron(m) {
                let a = self.neuron_markings().index_of(m);
                let b = if a < p { a } else { a + 1 };
                assert(self.neuron_markings()[a] == m);
                assert(after.neuron_markings()[b] == m);
                let d = after.neuron_markings().index_of(m);
                assert(after.neuron_markings()[d] == m);
                if d != b {
                    let e = if d < p { d } else { d - 1 };
                    if d == p {
                        assert(self.neuron_markings().contains(m));
                    } else {
                        assert(self.neuron_markings()[e] == m);
                        if e < a {
                            assert(self.neuron_markings()[e] < self.neuron_markings()[a]);
                        } else if a < e {
                            assert(self.neuron_markings()[a] < self.neuron_markings()[e]);
                        }
                    }
                }
            }
        }
    }

    /// A well-formed genome stays well formed when a neuron joins it.
    pub proof fn lemma_with_neuron_wf(self, gene: NeuronGeneView)
        requires
            self.wf(),
        ensures
            self.with_neuron(gene).wf(),
            self.with_neuron(gene).connections == self.connections,
            !self.has_neuron(gene.innovation) ==> self.with_neuron(gene).neurons.len()
                == self.neurons.len() + 1,
    {
        let after = self.with_neuron(gene);
        if !self.has_neuron(gene.innovation) {
            let markings = self.neuron_markings();
            lemma_slot_parts(markings, gene.innovation);
            lemma_slot_keeps_increasing(markings, gene.innovation);
            assert(after.neuron_markings() =~= markings.insert(
                slot(markings, gene.innovation),
                gene.innovation,
            ));
            assert forall|i: int| 0 <= i < after.connections.len() implies after.has_neuron(
                (#[trigger] after.connections[i]).neuron_in,
            ) && after.has_neuron(after.connections[i].neuron_out) by {
                let c = self.connections[i];
                assert(self.has_neuron(c.neuron_in) && self.has_neuron(c.neuron_out));
                self.lemma_with_neuron_keeps(gene, c.neuron_in);
                self.lemma_with_neuron_keeps(gene, c.neuron_out);
            }
        }
    }

    /// A neuron of a genome is still among its neurons when another has
    /// joined it, and every neuron it then has is the one that joined or
    /// one that it had.
    pub proof fn lemma_with_neuron(self, gene: NeuronGeneView)
        requires
            self.wf(),
        ensures
            forall|j: int|
                0 <= j < self.neurons.len() ==> self.with_neuron(gene).neurons.contains(
                    #[trigger] self.neurons[j],
                ),
            forall|k: int|
                0 <= k < self.with_neuron(gene).neurons.len() ==> {
                    ||| #[trigger] self.with_neuron(gene).neurons[k] == gene
                    ||| self.neurons.contains(self.with_neuron(gene).neurons[k])
                },
    {
        let after = self.with_neuron(gene);
        if !self.has_neuron(gene.innovation) {
            lemma_slot_parts(self.neuron_markings(), gene.innovation);
            let p = slot(self.neuron_markings(), gene.innovation);
            assert forall|j: int| 0 <= j < self.neurons.len() implies after.neurons.contains(
                #[trigger] self.neurons[j],
            ) by {
                assert(after.neurons[if j < p { j } else { j + 1 }] == self.neurons[j]);
            }
            assert forall|k: int| 0 <= k < after.neurons.len() implies {
                ||| #[trigger] after.neurons[k] == gene
                ||| self.neurons.contains(after.neurons[k])
            } by {
                if k != p {
                    assert(self.neurons[if k < p { k } else { k - 1 }] == after.neurons[k]);
                }
            }
        } else {
            assert forall|k: int| 0 <= k < after.neurons.len() implies {
                ||| #[trigger] after.neurons[k] == gene
                ||| self.neurons.contains(after.neurons[k])
            } by {
                assert(self.neurons[k] == after.neurons[k]);
            }
        }
    }

    /// A genome keeps its connections when a connection joins it, and has
    /// the marking of that connection afterwards. Every connection it then
    /// has is the one that joined or one that it had.
    pub proof fn lemma_with_connection(self, gene: ConnectionGeneView)
        requires
            self.wf(),
        ensures
            self.with_connection(gene).neurons == self.neurons,
            self.with_connection(gene).has_connection(gene.innovation),
            forall|m: u32| self.has_connection(m) ==> self.with_connection(gene).has_connection(m),
            forall|j: int|
                0 <= j < self.with_connection(gene).connections.len() ==> {
                    ||| #[trigger] self.with_connection(gene).connections[j] == gene
                    ||| self.connections.contains(self.with_connection(gene).connections[j])
                },
            !self.has_connection(gene.innovation) ==> {
                &&& self.with_connection(gene).connections.len() == self.connections.len() + 1
                &&& self.with_connection(gene).connections.contains(gene)
            },
    {
        let after = self.with_connection(gene);
        if !self.has_connection(gene.innovation) {
            lemma_slot_parts(self.connection_markings(), gene.innovation);
            let p = slot(self.connection_markings(), gene.innovation);
            assert(after.connections[p] == gene);
            assert(after.connection_markings()[p] == gene.innovation);
            assert forall|m: u32| self.has_connection(m) implies after.has_connection(m) by {
                let a = self.connection_markings().index_of(m);
                assert(self.connection_markings()[a] == m);
                assert(after.connection_markings()[if a < p { a } else { a + 1 }] == m);
            }
            assert forall|j: int| 0 <= j < after.connections.len() implies {
                ||| #[trigger] after.connections[j] == gene
                ||| self.connections.contains(after.connections[j])
            } by {
                if j != p {
                    let a = if j < p { j } else { j - 1 };
                    assert(self.connections[a] == after.connections[j]);
                }
            }
        } else {
            assert forall|j: int| 0 <= j < after.connections.len() implies {
                ||| #[trigger] after.connections[j] == gene
                ||| self.connections.contains(after.connections[j])
            } by {
                assert(self.connections[j] == after.connections[j]);
            }
        }
    }

    /// A connection of a genome is still among its connections when
    /// another has joined it.
    pub proof fn lemma_kept(self, gene: ConnectionGeneView, j: int)
        requires
            self.wf(),
            0 <= j < self.connections.len(),
        ensures
            self.with_connection(gene).connections.contains(self.connections[j]),
    {
        let after = self.with_connection(gene);
        if !self.has_connection(gene.innovation) {
            lemma_slot_parts(self.connection_markings(), gene.innovation);
            let p = slot(self.connection_markings(), gene.innovation);
            assert(after.connections[if j < p { j } else { j + 1 }] == self.connections[j]);
        }
    }

    /// A well-formed genome stays well formed when a connection between
    /// two of its neurons joins it.
    pub proof fn lemma_with_connection_wf(self, gene: ConnectionGeneView)
        requires
            self.wf(),
            self.has_neuron(gene.neuron_in),
            self.has_neuron(gene.neuron_out),
        ensures
            self.with_connection(gene).wf(),
    {
        let after = self.with_connection(gene);
        if !self.has_connection(gene.innovation) {
            let markings = self.connection_markings();
            lemma_slot_parts(markings, gene.innovation);
            lemma_slot_keeps_increasing(markings, gene.innovation);
            assert(after.connection_markings() =~= markings.insert(
                slot(markings, gene.innovation),
                gene.innovation,
            ));
            self.lemma_with_connection(gene);
            assert forall|i: int| 0 <= i < after.connections.len() implies after.has_neuron(
                (#[trigger] after.connections[i]).neuron_in,
            ) && after.has_neuron(after.connections[i].neuron_out) by {
                let g = after.connections[i];
                if g != gene {
                    let a = choose|a: int|
                        0 <= a < self.connections.len() && self.connections[a] == g;
                    assert(self.has_neuron(self.connections[a].neuron_in));
                }
            }
        }
    }

    /// A toggled connection leaves a well-formed genome well formed, and an
    /// authority that accounted for the genome still does.
    pub proof fn lemma_toggled_keeps(self, c: CounterView, i: int)
        requires
            self.wf(),
            0 <= i < self.connections.len(),
        ensures
            self.toggled(i).wf(),
            self.tracked_by(c) ==> self.toggled(i).tracked_by(c),
    {
        let after = self.toggled(i);
        assert(after.neuron_markings() =~= self.neuron_markings());
        assert(after.connection_markings() =~= self.connection_markings());
        assert forall|j: int| 0 <= j < after.connections.len() implies after.has_neuron(
            (#[trigger] after.connections[j]).neuron_in,
        ) && after.has_neuron(after.connections[j].neuron_out) by {
            assert(self.has_neuron(self.connections[j].neuron_in));
        }
        if self.tracked_by(c) {
            assert forall|j: int| 0 <= j < after.connections.len() implies c.issued.contains_key(
                ((#[trigger] after.connections[j]).neuron_in, after.connections[j].neuron_out),
            ) && c.issued[(after.connections[j].neuron_in, after.connections[j].neuron_out)]
                == after.connections[j].innovation by {
                assert(c.issued.contains_key(
                    (self.connections[j].neuron_in, self.connections[j].neuron_out),
                ));
            }
        }
    }

    /// A new weight leaves a well-formed genome well formed, and an
    /// authority that accounted for the genome still does.
    pub proof fn lemma_with_weight_keeps(self, c: CounterView, i: int, weight: u64)
        requires
            self.wf(),
            0 <= i < self.connections.len(),
        ensures
            self.with_weight(i, weight).wf(),
            self.tracked_by(c) ==> self.with_weight(i, weight).tracked_by(c),
    {
        let after = self.with_weight(i, weight);
        assert(after.neuron_markings() =~= self.neuron_markings());
        assert(after.connection_markings() =~= self.connection_markings());
        assert forall|j: int| 0 <= j < after.connections.len() implies after.has_neuron(
            (#[trigger] after.connections[j]).neuron_in,
        ) && after.has_neuron(after.connections[j].neuron_out) by {
            assert(self.has_neuron(self.connections[j].neuron_in));
        }
        if self.tracked_by(c) {
            assert forall|j: int| 0 <= j < after.connections.len() implies c.issued.contains_key(
                ((#[trigger] after.connections[j]).neuron_in, after.connections[j].neuron_out),
            ) && c.issued[(after.connections[j].neuron_in, after.connections[j].neuron_out)]
                == after.connections[j].innovation by {
                assert(c.issued.contains_key(
                    (self.connections[j].neuron_in, self.connections[j].neuron_out),
                ));
            }
        }
    }

    /// A genome that the authority accounts for gets a connection of its
    /// own when two of its neurons are connected that were not: under a
    /// marking that none of its connections had. The authority accounts for
    /// the genome afterwards too.
    pub proof fn lemma_connected(self, c: CounterView, source: u32, target: u32, weight: u64)
        requires
            self.wf(),
            c.wf(),
            c.can_connect(source, target),
            self.tracked_by(c),
            self.has_neuron(source),
            self.has_neuron(target),
        ensures
            self.connected(c, source, target, weight).wf(),
            c.after_connection(source, target).wf(),
            self.connected(c, source, target, weight).tracked_by(
                c.after_connection(source, target),
            ),
            (forall|j: int|
                0 <= j < self.connections.len() ==> ((#[trigger] self.connections[j]).neuron_in,
                    self.connections[j].neuron_out) != (source, target)) ==> {
                &&& !self.has_connection(c.connection(source, target))
                &&& self.connected(c, source, target, weight).connections.len()
                    == self.connections.len() + 1
            },
    {
        let gene = Self::joining(c, source, target, weight);
        let after = self.with_connection(gene);
        let c2 = c.after_connection(source, target);
        self.lemma_with_connection_wf(gene);
        self.lemma_with_connection(gene);
        assert forall|j: int| 0 <= j < after.connections.len() implies c2.issued.contains_key(
            ((#[trigger] after.connections[j]).neuron_in, after.connections[j].neuron_out),
        ) && c2.issued[(after.connections[j].neuron_in, after.connections[j].neuron_out)]
            == after.connections[j].innovation by {
            let g = after.connections[j];
            if self.connections.contains(g) {
                let a = choose|a: int| 0 <= a < self.connections.len() && self.connections[a] == g;
                assert(c.issued.contains_key(
                    (self.connections[a].neuron_in, self.connections[a].neuron_out),
                ));
            }
        }
        if forall|j: int|
            0 <= j < self.connections.len() ==> ((#[trigger] self.connections[j]).neuron_in,
                self.connections[j].neuron_out) != (source, target) {
            if self.has_connection(gene.innovation) {
                let j = self.connection_markings().index_of(gene.innovation);
                assert(self.connection_markings()[j] == gene.innovation);
                let held = self.connections[j];
                assert(c.issued.contains_key((held.neuron_in, held.neuron_out)));
                assert((held.neuron_in, held.neuron_out) != (source, target));
                assert(false);
            }
        }
    }

    /// Wiring one more pair keeps a wired genome wired: the pair in row
    /// `rows` and column `cols` gets a connection of its own, under a
    /// marking that no connection of the genome had.
    pub proof fn lemma_wire<F: Fn() -> u64>(
        self,
        c: CounterView,
        config: GenomeConfigView,
        sample: F,
        rows: int,
        cols: int,
        weight: u64,
    )
        requires
            self.wf(),
            c.wf(),
            c.has_room(1),
            0 <= rows < config.n_sensor,
            0 <= cols < config.n_output,
            config.n_sensor + config.n_output <= u32::MAX,
            self.wired(c, config, sample, rows, cols),
            config.gives_weight(sample, weight),
        ensures
            ({
                let source = rows as u32;
                let target = (config.n_sensor + cols) as u32;
                let gene = Self::joining(c, source, target, weight);
                let after = self.with_connection(gene);
                &&& !self.has_connection(gene.innovation)
                &&& after.connections.len() == self.connections.len() + 1
                &&& after.wired(c.after_connection(source, target), config, sample, rows, cols + 1)
            }),
    {
        let source = rows as u32;
        let target = (config.n_sensor + cols) as u32;
        let gene = Self::joining(c, source, target, weight);
        let after = self.with_connection(gene);
        let c2 = c.after_connection(source, target);
        if self.has_connection(gene.innovation) {
            let j = self.connection_markings().index_of(gene.innovation);
            assert(self.connection_markings()[j] == gene.innovation);
            let old_gene = self.connections[j];
            assert(initial_connection(old_gene, c, config, sample));
            assert(wired_before(config, rows, cols, old_gene.neuron_in, old_gene.neuron_out));
            assert((old_gene.neuron_in, old_gene.neuron_out) != (source, target));
            assert(false);
        }
        self.lemma_with_connection(gene);
        assert forall|j: int| 0 <= j < after.connections.len() implies initial_connection(
            #[trigger] after.connections[j],
            c2,
            config,
            sample,
        ) && wired_before(
            config,
            rows,
            cols + 1,
            after.connections[j].neuron_in,
            after.connections[j].neuron_out,
        ) by {
            let g = after.connections[j];
            if g != gene {
                assert(self.connections.contains(g));
                let a = choose|a: int| 0 <= a < self.connections.len() && self.connections[a] == g;
                assert(initial_connection(self.connections[a], c, config, sample));
            }
        }
        assert forall|s: u32, t: u32| #[trigger]
            wired_before(config, rows, cols + 1, s, t) implies c2.issued.contains_key((s, t))
            && after.has_connection(c2.issued[(s, t)]) by {
            if (s, t) != (source, target) {
                assert(wired_before(config, rows, cols, s, t));
                assert(self.has_connection(c.issued[(s, t)]));
            }
        }
    }
}

// What the operators do.
impl GenomeView {
    /// To toggle a connection twice is to leave the genome as it was.
    pub proof fn lemma_toggled_twice(self, i: int)
        requires
            0 <= i < self.connections.len(),
        ensures
            self.toggled(i).toggled(i) == self,
    {
        assert(self.toggled(i).toggled(i).connections =~= self.connections);
    }

    /// A new weight for a connection changes that weight and nothing else:
    /// the genome keeps its neurons, the number of its connections,
    /// every other connection, and all else of the connection itself.
    pub proof fn lemma_with_weight(self, i: int, weight: u64)
        requires
            0 <= i < self.connections.len(),
        ensures
            self.with_weight(i, weight).neurons == self.neurons,
            self.with_weight(i, weight).connections.len() == self.connections.len(),
            self.with_weight(i, weight).connections[i] == (ConnectionGeneView {
                weight,
                ..self.connections[i]
            }),
            forall|j: int|
                0 <= j < self.connections.len() && j != i ==> self.with_weight(
                    i,
                    weight,
                ).connections[j] == self.connections[j],
    {
    }

    /// On a genome without connections the four operators that choose a
    /// connection do nothing, and ask the authority nothing; on a genome
    /// with fewer than two neurons the create-connection operator does
    /// nothing, and asks the authority nothing. Nor does the create-neuron
    /// operator do or ask anything where the authority has fewer than three
    /// markings left.
    pub proof fn lemma_idle<F: Fn() -> u64, P: Fn(u64) -> u64>(
        self,
        c: CounterView,
        after: GenomeView,
        c_after: CounterView,
        config: GenomeConfigView,
        sample: F,
        perturb: P,
    )
        ensures
            self.connections.len() == 0 && self.toggle_step(after) ==> after == self,
            self.connections.len() == 0 && self.set_weight_step(after, config, sample) ==> after
                == self,
            self.connections.len() == 0 && self.update_weight_step(after, perturb) ==> after
                == self,
            self.connections.len() == 0 && self.create_neuron_step(c, after, c_after) ==> after
                == self && c_after == c,
            !c.has_room(3) && self.create_neuron_step(c, after, c_after) ==> after == self
                && c_after == c,
            self.neurons.len() < 2 && self.create_connection_step(
                c,
                after,
                c_after,
                config,
                sample,
            ) ==> after == self && c_after == c,
    {
    }

    /// An oriented pair joins two neurons of the genome, the first of a
    /// strictly lower class than the second: no connection is oriented
    /// between two neurons of one class.
    pub proof fn lemma_oriented(self, a: int, b: int, source: u32, target: u32)
        requires
            self.wf(),
            self.oriented(a, b) == Some((source, target)),
        ensures
            self.has_neuron(source),
            self.has_neuron(target),
            self.neuron(source).class < self.neuron(target).class,
            a != b,
    {
        self.lemma_neuron(a);
        self.lemma_neuron(b);
    }

    /// The create-connection operator joins no two neurons of one class:
    /// where it joins the neurons at the positions `a` and `b`, the
    /// connection leads from a neuron of strictly lower class to one of
    /// higher class, both of the genome, and every connection that the
    /// genome did not have before is that one.
    pub proof fn lemma_joins(
        self,
        c: CounterView,
        after: GenomeView,
        c_after: CounterView,
        a: int,
        b: int,
        weight: u64,
    )
        requires
            self.wf(),
            self.joins(c, after, c_after, a, b, weight),
        ensures
            a != b,
            0 <= a < self.neurons.len(),
            0 <= b < self.neurons.len(),
            self.neurons[a].class != self.neurons[b].class,
            after.neurons == self.neurons,
            forall|j: int|
                0 <= j < after.connections.len() && !self.connections.contains(
                    #[trigger] after.connections[j],
                ) ==> {
                    &&& after.connections[j] == Self::joining(
                        c,
                        after.connections[j].neuron_in,
                        after.connections[j].neuron_out,
                        weight,
                    )
                    &&& self.has_neuron(after.connections[j].neuron_in)
                    &&& self.has_neuron(after.connections[j].neuron_out)
                    &&& self.neuron(after.connections[j].neuron_in).class < self.neuron(
                        after.connections[j].neuron_out,
                    ).class
                },
    {
        let pair = self.oriented(a, b)->0;
        self.lemma_oriented(a, b, pair.0, pair.1);
        self.lemma_with_connection(Self::joining(c, pair.0, pair.1, weight));
    }

    /// The create-connection operator wires no two neurons of one class:
    /// every connection that the genome has after it under a marking that
    /// it did not have before leads from a neuron of the genome to one of
    /// strictly higher class. The neurons are as they were.
    pub proof fn lemma_create_connection_step_classes<F: Fn() -> u64>(
        self,
        c: CounterView,
        after: GenomeView,
        c_after: CounterView,
        config: GenomeConfigView,
        sample: F,
    )
        requires
            self.wf(),
            self.create_connection_step(c, after, c_after, config, sample),
        ensures
            after.neurons == self.neurons,
            forall|j: int|
                0 <= j < after.connections.len() && !self.has_connection(
                    (#[trigger] after.connections[j]).innovation,
                ) ==> {
                    &&& self.has_neuron(after.connections[j].neuron_in)
                    &&& self.has_neuron(after.connections[j].neuron_out)
                    &&& self.neuron(after.connections[j].neuron_in).class < self.neuron(
                        after.connections[j].neuron_out,
                    ).class
                },
    {
        if !(after == self && c_after == c && !(self.any_two_join() && c.has_room(1))) {
            let (a, b, weight) = choose|a: int, b: int, weight: u64|
                config.gives_weight(sample, weight) && #[trigger] self.joins(
                    c,
                    after,
                    c_after,
                    a,
                    b,
                    weight,
                );
            self.lemma_joins(c, after, c_after, a, b, weight);
        }
        assert forall|j: int|
            0 <= j < after.connections.len() && !self.has_connection(
                (#[trigger] after.connections[j]).innovation,
            ) implies !self.connections.contains(after.connections[j]) by {
            if self.connections.contains(after.connections[j]) {
                let k = choose|k: int|
                    0 <= k < self.connections.len() && self.connections[k] == after.connections[j];
                assert(self.connection_markings()[k] == after.connections[j].innovation);
            }
        }
    }

    /// What the splitting of a connection keeps and what it adds, in any
    /// well-formed genome and whatever the authority holds.
    ///
    /// Of the connections that the genome had, the split one has its
    /// enabled flag flipped, so that an enabled connection is disabled, and
    /// keeps all else; every other one is there as it was. Whatever
    /// connection the genome has besides is one of two: the one from the
    /// source of the split connection into the new neuron, enabled and
    /// with the weight 1.0, or the one from the new neuron to the target of
    /// the split connection, enabled and with its weight. Every neuron that
    /// the genome had is there as it was, and whatever neuron it has
    /// besides is the new one, under the next marking of the authority.
    pub proof fn lemma_split_keeps(self, c: CounterView, i: int)
        requires
            self.wf(),
            0 <= i < self.connections.len(),
        ensures
            self.split(c, i).wf(),
            self.toggled(i).connections[i] == (ConnectionGeneView {
                enabled: !self.connections[i].enabled,
                ..self.connections[i]
            }),
            self.split(c, i).connections.contains(self.toggled(i).connections[i]),
            forall|j: int|
                0 <= j < self.connections.len() && j != i ==> self.split(
                    c,
                    i,
                ).connections.contains(#[trigger] self.connections[j]),
            forall|k: int|
                0 <= k < self.split(c, i).connections.len() ==> {
                    ||| #[trigger] self.split(c, i).connections[k] == self.splitting_inlet(c, i)
                    ||| self.split(c, i).connections[k] == self.splitting_outlet(c, i)
                    ||| self.toggled(i).connections.contains(self.split(c, i).connections[k])
                },
            self.splitting_inlet(c, i) == (ConnectionGeneView {
                innovation: self.splitting_inlet(c, i).innovation,
                neuron_in: self.connections[i].neuron_in,
                neuron_out: c.next,
                weight: UNIT_WEIGHT,
                enabled: true,
            }),
            self.splitting_outlet(c, i) == (ConnectionGeneView {
                innovation: self.splitting_outlet(c, i).innovation,
                neuron_in: c.next,
                neuron_out: self.connections[i].neuron_out,
                weight: self.connections[i].weight,
                enabled: true,
            }),
            forall|j: int|
                0 <= j < self.neurons.len() ==> self.split(c, i).neurons.contains(
                    #[trigger] self.neurons[j],
                ),
            forall|k: int|
                0 <= k < self.split(c, i).neurons.len() ==> {
                    ||| #[trigger] self.split(c, i).neurons[k] == self.splitting_neuron(c, i)
                    ||| self.neurons.contains(self.split(c, i).neurons[k])
                },
            self.splitting_neuron(c, i).innovation == c.next,
    {
        let held = self.connections[i];
        let neuron = self.splitting_neuron(c, i);
        let inlet = self.splitting_inlet(c, i);
        let outlet = self.splitting_outlet(c, i);
        let g1 = self.toggled(i);
        self.lemma_toggled_keeps(c, i);
        assert(g1.neuron_markings() =~= self.neuron_markings());
        let g2 = g1.with_neuron(neuron);
        g1.lemma_with_neuron_wf(neuron);
        g1.lemma_with_neuron(neuron);
        assert(self.has_neuron(held.neuron_in) && self.has_neuron(held.neuron_out));
        g1.lemma_with_neuron_keeps(neuron, held.neuron_in);
        g1.lemma_with_neuron_keeps(neuron, held.neuron_out);
        g1.lemma_with_neuron_keeps(neuron, neuron.innovation);
        let g3 = g2.with_connection(inlet);
        g2.lemma_with_connection_wf(inlet);
        g2.lemma_with_connection(inlet);
        let g4 = g3.with_connection(outlet);
        g3.lemma_with_connection_wf(outlet);
        g3.lemma_with_connection(outlet);
        assert(g4 == self.split(c, i));
        assert(g2.connections =~= g1.connections);
        assert forall|j: int| 0 <= j < g1.connections.len() implies g4.connections.contains(
            #[trigger] g1.connections[j],
        ) by {
            g2.lemma_kept(inlet, j);
            let a = choose|a: int|
                0 <= a < g3.connections.len() && g3.connections[a] == g1.connections[j];
            g3.lemma_kept(outlet, a);
        }
        assert(g4.connections.contains(g1.connections[i]));
        assert forall|j: int| 0 <= j < self.connections.len() && j != i implies g4.connections.contains(
            #[trigger] self.connections[j],
        ) by {
            assert(g1.connections[j] == self.connections[j]);
        }
        assert forall|k: int| 0 <= k < g4.connections.len() implies {
            ||| #[trigger] g4.connections[k] == inlet
            ||| g4.connections[k] == outlet
            ||| g1.connections.contains(g4.connections[k])
        } by {
            let g = g4.connections[k];
            if g != outlet {
                assert(g3.connections.contains(g));
                let a = choose|a: int| 0 <= a < g3.connections.len() && g3.connections[a] == g;
                if g != inlet {
                    assert(g2.connections.contains(g3.connections[a]));
                }
            }
        }
        assert(g4.neurons == g2.neurons);
        assert forall|j: int| 0 <= j < self.neurons.len() implies g4.neurons.contains(
            #[trigger] self.neurons[j],
        ) by {
            assert(g1.neurons[j] == self.neurons[j]);
        }
    }

    /// What the splitting of a connection adds to a genome that the
    /// authority accounts for, where the authority has three markings left.
    ///
    /// The genome gains exactly one neuron, under a marking that it did not
    /// have, and exactly two connections, under two markings that it did
    /// not have: the one into the new neuron and the one out of it. The
    /// authority accounts for the genome afterwards too. (What the split
    /// keeps, and what the two connections hold, is said of every genome
    /// by `lemma_split_keeps`.)
    pub proof fn lemma_split(self, c: CounterView, i: int)
        requires
            self.wf(),
            c.wf(),
            c.has_room(3),
            self.tracked_by(c),
            0 <= i < self.connections.len(),
        ensures
            self.split(c, i).wf(),
            self.counter_after_split(c, i).wf(),
            self.split(c, i).tracked_by(self.counter_after_split(c, i)),
            self.split(c, i).neurons.len() == self.neurons.len() + 1,
            !self.has_neuron(c.next),
            self.split(c, i).has_neuron(c.next),
            self.split(c, i).connections.len() == self.connections.len() + 2,
            !self.has_connection(self.splitting_inlet(c, i).innovation),
            !self.has_connection(self.splitting_outlet(c, i).innovation),
            self.splitting_inlet(c, i).innovation != self.splitting_outlet(c, i).innovation,
            self.split(c, i).connections.contains(self.splitting_inlet(c, i)),
            self.split(c, i).connections.contains(self.splitting_outlet(c, i)),
    {
        let old_gene = self.connections[i];
        let m = c.next;
        let g1 = self.toggled(i);
        let neuron = self.splitting_neuron(c, i);
        let inlet = self.splitting_inlet(c, i);
        let outlet = self.splitting_outlet(c, i);
        let c1 = c.after_neuron();
        let c2 = c1.after_connection(old_gene.neuron_in, m);
        let c3 = c2.after_connection(m, old_gene.neuron_out);
        // the toggled genome
        self.lemma_toggled_keeps(c, i);
        assert(g1.neuron_markings() =~= self.neuron_markings());
        assert(g1.connection_markings() =~= self.connection_markings());
        // the neuron
        if g1.has_neuron(m) {
            let a = g1.neuron_markings().index_of(m);
            assert(g1.neuron_markings()[a] == m);
            assert(g1.neurons[a].innovation < c.next);
        }
        let g2 = g1.with_neuron(neuron);
        g1.lemma_with_neuron_wf(neuron);
        assert(self.has_neuron(old_gene.neuron_in) && self.has_neuron(old_gene.neuron_out));
        g1.lemma_with_neuron_keeps(neuron, old_gene.neuron_in);
        g1.lemma_with_neuron_keeps(neuron, old_gene.neuron_out);
        lemma_slot_parts(g1.neuron_markings(), m);
        assert forall|a: int| 0 <= a < g2.neurons.len() implies (#[trigger] g2.neurons[a]).innovation
            < c1.next by {
            let p = slot(g1.neuron_markings(), m);
            if a != p {
                let b = if a < p { a } else { a - 1 };
                assert(g2.neurons[a] == g1.neurons[b]);
            }
        }
        assert(g2.tracked_by(c1));
        // no connection of the genome touches the new neuron
        assert forall|j: int| 0 <= j < g2.connections.len() implies (
        #[trigger] g2.connections[j]).neuron_in != m && g2.connections[j].neuron_out != m by {
            let g = self.connections[j];
            assert(self.has_neuron(g.neuron_in) && self.has_neuron(g.neuron_out));
        }
        // the two connections
        c.lemma_requests_precede(c1, old_gene.neuron_in, m);
        g2.lemma_connected(c1, old_gene.neuron_in, m, UNIT_WEIGHT);
        let g3 = g2.connected(c1, old_gene.neuron_in, m, UNIT_WEIGHT);
        assert(g3 == g2.with_connection(inlet));
        g2.lemma_with_connection(inlet);
        assert forall|j: int| 0 <= j < g3.connections.len() implies ((
        #[trigger] g3.connections[j]).neuron_in, g3.connections[j].neuron_out) != (
            m,
            old_gene.neuron_out,
        ) by {
            let g = g3.connections[j];
            if g != inlet {
                let a = choose|a: int| 0 <= a < g2.connections.len() && g2.connections[a] == g;
                assert(g2.connections[a].neuron_in != m);
            }
        }
        g3.lemma_connected(c2, m, old_gene.neuron_out, old_gene.weight);
        let g4 = g3.connected(c2, m, old_gene.neuron_out, old_gene.weight);
        assert(g4 == g3.with_connection(outlet));
        assert(g4 == self.split(c, i));
        g3.lemma_with_connection(outlet);
        assert(g3.has_connection(inlet.innovation));
        assert(g2.connections =~= g1.connections);
        assert(g2.connection_markings() =~= self.connection_markings());
        let b = choose|b: int| 0 <= b < g3.connections.len() && g3.connections[b] == inlet;
        g3.lemma_kept(outlet, b);
        // the outlet is new to the genome itself
        if self.has_connection(outlet.innovation) {
            let k = self.connection_markings().index_of(outlet.innovation);
            assert(self.connection_markings()[k] == outlet.innovation);
            assert(g2.connection_markings()[k] == outlet.innovation);
            assert(g2.has_connection(outlet.innovation));
            assert(g3.has_connection(outlet.innovation));
        }
    }

    /// The toggle-connection operator keeps a genome well formed and
    /// accounted for.
    pub proof fn lemma_toggle_step_keeps(self, c: CounterView, after: GenomeView)
        requires
            self.wf(),
            self.tracked_by(c),
            self.toggle_step(after),
        ensures
            after.wf(),
            after.tracked_by(c),
    {
        if self.connections.len() > 0 {
            let i = choose|i: int|
                0 <= i < self.connections.len() && after == #[trigger] self.toggled(i);
            self.lemma_toggled_keeps(c, i);
        }
    }

    /// The set-weight operator keeps a genome well formed and accounted
    /// for.
    pub proof fn lemma_set_weight_step_keeps<F: Fn() -> u64>(
        self,
        c: CounterView,
        after: GenomeView,
        config: GenomeConfigView,
        sample: F,
    )
        requires
            self.wf(),
            self.tracked_by(c),
            self.set_weight_step(after, config, sample),
        ensures
            after.wf(),
            after.tracked_by(c),
    {
        if self.connections.len() > 0 {
            let (i, weight) = choose|i: int, weight: u64|
                0 <= i < self.connections.len() && config.gives_weight(sample, weight) && after
                    == #[trigger] self.with_weight(i, weight);
            self.lemma_with_weight_keeps(c, i, weight);
        }
    }

    /// The update-weight operator keeps a genome well formed and accounted
    /// for.
    pub proof fn lemma_update_weight_step_keeps<P: Fn(u64) -> u64>(
        self,
        c: CounterView,
        after: GenomeView,
        perturb: P,
    )
        requires
            self.wf(),
            self.tracked_by(c),
            self.update_weight_step(after, perturb),
        ensures
            after.wf(),
            after.tracked_by(c),
    {
        if self.connections.len() > 0 {
            let (i, weight) = choose|i: int, weight: u64|
                0 <= i < self.connections.len() && call_ensures(
                    perturb,
                    (self.connections[i].weight,),
                    weight,
                ) && after == #[trigger] self.with_weight(i, weight);
            self.lemma_with_weight_keeps(c, i, weight);
        }
    }

    /// The create-neuron operator keeps a genome and the authority well
    /// formed and the genome accounted for; the counter moves on by three
    /// at most.
    pub proof fn lemma_create_neuron_step_keeps(
        self,
        c: CounterView,
        after: GenomeView,
        c_after: CounterView,
    )
        requires
            self.wf(),
            c.wf(),
            self.tracked_by(c),
            self.create_neuron_step(c, after, c_after),
        ensures
            after.wf(),
            c_after.wf(),
            after.tracked_by(c_after),
            c.next <= c_after.next <= c.next + 3,
    {
        if self.connections.len() > 0 && c.has_room(3) {
            let i = choose|i: int|
                0 <= i < self.connections.len() && after == #[trigger] self.split(c, i) && c_after
                    == self.counter_after_split(c, i);
            self.lemma_split(c, i);
        }
    }

    /// The create-connection operator keeps a genome and the authority well
    /// formed and the genome accounted for; the counter moves on by one at
    /// most.
    pub proof fn lemma_create_connection_step_keeps<F: Fn() -> u64>(
        self,
        c: CounterView,
        after: GenomeView,
        c_after: CounterView,
        config: GenomeConfigView,
        sample: F,
    )
        requires
            self.wf(),
            c.wf(),
            self.tracked_by(c),
            self.create_connection_step(c, after, c_after, config, sample),
        ensures
            after.wf(),
            c_after.wf(),
            after.tracked_by(c_after),
            c.next <= c_after.next <= c.next + 1,
    {
        if !(after == self && c_after == c && !(self.any_two_join() && c.has_room(1))) {
            let (a, b, weight) = choose|a: int, b: int, weight: u64|
                config.gives_weight(sample, weight) && #[trigger] self.joins(
                    c,
                    after,
                    c_after,
                    a,
                    b,
                    weight,
                );
            let pair = self.oriented(a, b)->0;
            self.lemma_oriented(a, b, pair.0, pair.1);
            self.lemma_connected(c, pair.0, pair.1, weight);
        }
    }

    /// A mutation of a well-formed genome that the authority accounts for
    /// leaves both well formed and the genome accounted for; the counter of
    /// the authority has moved on by four at most.
    pub proof fn lemma_mutation_keeps_tracked<
        E: Fn(u64) -> bool,
        F: Fn() -> u64,
        P: Fn(u64) -> u64,
    >(
        self,
        c: CounterView,
        after: GenomeView,
        c_after: CounterView,
        config: GenomeConfigView,
        exceeds: E,
        sample: F,
        perturb: P,
    )
        requires
            self.wf(),
            c.wf(),
            self.tracked_by(c),
            self.mutation_step(c, after, c_after, config, exceeds, sample, perturb),
        ensures
            after.wf(),
            c_after.wf(),
            after.tracked_by(c_after),
            c.next <= c_after.next <= c.next + 4,
    {
        let (on, stages) = choose|on: Triggers, stages: Stages|
            Self::decided(config, exceeds, on) && #[trigger] self.mutation_path(
                c,
                after,
                c_after,
                config,
                sample,
                perturb,
                on,
                stages,
            );
        if on.create_connection {
            self.lemma_create_connection_step_keeps(
                c,
                stages.connected,
                stages.counter_connected,
                config,
                sample,
            );
        }
        if on.create_neuron {
            stages.connected.lemma_create_neuron_step_keeps(
                stages.counter_connected,
                stages.split,
                c_after,
            );
        }
        if on.update_weight {
            stages.split.lemma_update_weight_step_keeps(c_after, stages.updated, perturb);
        }
        if on.set_weight {
            stages.updated.lemma_set_weight_step_keeps(c_after, stages.set, config, sample);
        }
        if on.toggle_connection {
            stages.set.lemma_toggle_step_keeps(c_after, after);
        }
    }
}

/// Asking for the markings of a row of pairs that have none yet gives them
/// the next markings in order, and leaves every other pair as it was.
pub proof fn lemma_after_row_new(c: CounterView, source: u32, first: u32, count: nat)
    requires
        first + count <= u32::MAX + 1,
        c.has_room(count as int),
        row_is_new(c, source, first, count),
    ensures
        after_row(c, source, first, count).next == c.next + count,
        forall|k: nat|
            k < count ==> after_row(c, source, first, count).issued.contains_key(
                (source, #[trigger] (first + k) as u32),
            ) && after_row(c, source, first, count).issued[(source, (first + k) as u32)] == c.next
                + k,
        forall|p: (u32, u32)|
            #[trigger] after_row(c, source, first, count).issued.contains_key(p) ==> {
                ||| c.issued.contains_key(p) && after_row(c, source, first, count).issued[p]
                    == c.issued[p]
                ||| p.0 == source && first <= p.1 < first + count
            },
        forall|p: (u32, u32)| #[trigger]
            c.issued.contains_key(p) ==> after_row(c, source, first, count).issued.contains_key(p),
    decreases count,
{
    if count > 0 {
        let before = after_row(c, source, first, (count - 1) as nat);
        let last = (first + count - 1) as u32;
        assert(row_is_new(c, source, first, (count - 1) as nat)) by {
            assert forall|k: nat| k < count - 1 implies !c.issued.contains_key(
                (source, #[trigger] (first + k) as u32),
            ) by {}
        }
        lemma_after_row_new(c, source, first, (count - 1) as nat);
        assert(!c.issued.contains_key((source, (first + (count - 1) as nat) as u32)));
        assert(!before.issued.contains_key((source, last)));
        let after = before.after_connection(source, last);
        assert(after == after_row(c, source, first, count));
        assert forall|k: nat| k < count implies after.issued.contains_key(
            (source, #[trigger] (first + k) as u32),
        ) && after.issued[(source, (first + k) as u32)] == c.next + k by {
            if k < count - 1 {
                assert(before.issued.contains_key((source, (first + k) as u32)));
            }
        }
    }
}

/// Wiring sensors to outputs that no marking connects yet gives the pairs
/// the next markings of the authority in the order of the wiring: the
/// pair of sensor `source` and output `target` gets the marking
/// `c.next + source * n_output + (target - n_sensor)`.
pub proof fn lemma_after_rows_new(c: CounterView, n_sensor: u32, n_output: u32, rows: nat)
    requires
        rows <= n_sensor,
        n_sensor + n_output <= u32::MAX,
        c.has_room(rows * n_output),
        rows_are_new(c, n_sensor, n_output, rows),
    ensures
        after_rows(c, n_sensor, n_output, rows).next == c.next + rows * n_output,
        forall|source: u32, target: u32|
            source < rows && n_sensor <= target < n_sensor + n_output ==> #[trigger] after_rows(
                c,
                n_sensor,
                n_output,
                rows,
            ).issued.contains_key((source, target)) && after_rows(
                c,
                n_sensor,
                n_output,
                rows,
            ).issued[(source, target)] == c.next + source * n_output + (target - n_sensor),
        forall|p: (u32, u32)|
            #[trigger] after_rows(c, n_sensor, n_output, rows).issued.contains_key(p) ==> {
                ||| c.issued.contains_key(p)
                ||| p.0 < rows && n_sensor <= p.1 < n_sensor + n_output
            },
    decreases rows,
{
    if rows > 0 {
        let done = (rows - 1) as nat;
        let source = done as u32;
        let before = after_rows(c, n_sensor, n_output, done);
        assert(done * n_output + n_output == rows * n_output) by (nonlinear_arith)
            requires
                done + 1 == rows,
        ;
        assert(done * n_output >= 0) by (nonlinear_arith)
            requires
                done >= 0,
                n_output >= 0,
        ;
        assert(rows_are_new(c, n_sensor, n_output, done));
        lemma_after_rows_new(c, n_sensor, n_output, done);
        assert(before.next == c.next + done * n_output);
        assert(row_is_new(before, source, n_sensor, n_output as nat)) by {
            assert forall|k: nat| k < n_output implies !before.issued.contains_key(
                (source, #[trigger] (n_sensor + k) as u32),
            ) by {
                let p = (source, (n_sensor + k) as u32);
                assert(!c.issued.contains_key(p));
            }
        }
        lemma_after_row_new(before, source, n_sensor, n_output as nat);
        let after = after_row(before, source, n_sensor, n_output as nat);
        assert(after == after_rows(c, n_sensor, n_output, rows));
        assert(after.next == c.next + rows * n_output);
        assert forall|s: u32, t: u32|
            s < rows && n_sensor <= t < n_sensor + n_output implies #[trigger] after.issued.contains_key(
            (s, t),
        ) && after.issued[(s, t)] == c.next + s * n_output + (t - n_sensor) by {
            if s < done {
                assert(before.issued.contains_key((s, t)));
                assert(after.issued.contains_key((s, t)));
            } else {
                let k = (t - n_sensor) as nat;
                assert((n_sensor + k) as u32 == t);
                assert(after.issued.contains_key((source, (n_sensor + k) as u32)));
            }
        }
    } else {
        assert(rows * n_output == 0) by (nonlinear_arith)
            requires
                rows == 0,
        ;
    }
}

/// Among increasing markings, two markings are at least as far apart as
/// their positions are.
pub proof fn lemma_increasing_gap(markings: Seq<u32>, i: int, j: int)
    requires
        increasing(markings),
        0 <= i <= j < markings.len(),
    ensures
        markings[j] - markings[i] >= j - i,
    decreases j - i,
{
    if i < j {
        lemma_increasing_gap(markings, i, j - 1);
        assert(markings[j - 1] < markings[j]);
    }
}

impl GenomeView {
    /// A genome that an authority has wired which held no marking for any
    /// pair of a sensor and an output: its connections stand in the order
    /// of the wiring, sensor by sensor and output by output, under the
    /// markings that follow one another from the first that the authority
    /// had to give.
    pub proof fn lemma_wired_new<F: Fn() -> u64>(
        self,
        c: CounterView,
        after: CounterView,
        config: GenomeConfigView,
        sample: F,
    )
        requires
            self.wf(),
            after.wf(),
            config.n_sensor + config.n_output <= u32::MAX,
            c.has_room(config.n_sensor * config.n_output),
            rows_are_new(c, config.n_sensor, config.n_output, config.n_sensor as nat),
            after == after_rows(c, config.n_sensor, config.n_output, config.n_sensor as nat),
            self.connections.len() == config.n_sensor * config.n_output,
            self.wired(after, config, sample, config.n_sensor as int, 0),
        ensures
            after.next == c.next + config.n_sensor * config.n_output,
            forall|j: int|
                0 <= j < self.connections.len() ==> (#[trigger] self.connections[j]).innovation
                    == c.next + j,
            forall|source: int, column: int|
                0 <= source < config.n_sensor && 0 <= column < config.n_output ==> {
                    let j = #[trigger] wiring_position(config, source, column);
                    &&& 0 <= j < self.connections.len()
                    &&& self.connections[j].neuron_in == source
                    &&& self.connections[j].neuron_out == config.n_sensor + column
                },
    {
        let n_sensor = config.n_sensor;
        let n_output = config.n_output;
        let markings = self.connection_markings();
        let n = self.connections.len() as int;
        lemma_after_rows_new(c, n_sensor, n_output, n_sensor as nat);
        assert forall|j: int| 0 <= j < n implies c.next <= #[trigger] markings[j] < c.next + n by {
            let gene = self.connections[j];
            assert(initial_connection(gene, after, config, sample));
            assert(after.issued.contains_key((gene.neuron_in, gene.neuron_out)));
            let column = gene.neuron_out - n_sensor;
            assert(gene.neuron_in * n_output + column < n_sensor * n_output
                && gene.neuron_in * n_output >= 0) by (nonlinear_arith)
                requires
                    0 <= gene.neuron_in < n_sensor,
                    0 <= column < n_output,
            ;
        }
        assert forall|j: int| 0 <= j < n implies (#[trigger] self.connections[j]).innovation
            == c.next + j by {
            lemma_increasing_gap(markings, 0, j);
            lemma_increasing_gap(markings, j, n - 1);
            assert(markings[j] == self.connections[j].innovation);
        }
        assert forall|source: int, column: int|
            0 <= source < n_sensor && 0 <= column < n_output implies {
            let j = #[trigger] wiring_position(config, source, column);
            &&& 0 <= j < n
            &&& self.connections[j].neuron_in == source
            &&& self.connections[j].neuron_out == n_sensor + column
        } by {
            assert(source * n_output + column < n_sensor * n_output && source * n_output >= 0)
                by (nonlinear_arith)
                requires
                    0 <= source < n_sensor,
                    0 <= column < n_output,
            ;
            let j = source * n_output + column;
            let gene = self.connections[j];
            assert(initial_connection(gene, after, config, sample));
            let s = source as u32;
            let t = (n_sensor + column) as u32;
            assert(after.issued.contains_key((s, t)));
            assert(after.issued[(s, t)] == c.next + j);
            assert(after.issued[(gene.neuron_in, gene.neuron_out)] == gene.innovation);
        }
    }
}

} // verus!
