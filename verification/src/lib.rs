//! Genetic encoding for neuro-evolution of augmenting topologies: gene
//! registries kept in historical-marking order, the authority that issues
//! the markings, and the structural mutation operators of a genome.
//!
//! The logic here is verified. Two calls into the `rand` crate are not:
//! what `genome::sampling` says of them is believed, on the strength of
//! that crate's source. Three things are left to the caller, who hands
//! them in as plain values and functions:
//!
//! - Real numbers. Weights and thresholds are double-precision numbers
//!   carried by their IEEE-754 bit patterns (`f64::to_bits`). The library
//!   stores and moves them and never computes with them: a caller's
//!   function samples a weight, perturbs one, or compares the value drawn
//!   for a mutation with a threshold.
//! - Sharing. A genome does not hold the authority or the configuration;
//!   its operations borrow them, the authority exclusively.
//! - Chance. Positions are drawn from the thread-local generator of the
//!   `rand` crate; a contract says of a random choice what holds whichever
//!   position was drawn, and the operation on a given position is a
//!   function of its own with an exact contract.

pub mod utils;

pub mod genome;

use std::collections::HashMap;
use vstd::prelude::*;

verus! {

/// The number under which the ordered pair (`source`, `target`) is cached:
/// `source` in the upper half of the word, `target` in the lower.
pub open spec fn pair_key(source: u32, target: u32) -> u64 {
    (source * 0x1_0000_0000 + target) as u64
}

/// Different ordered pairs have different keys.
pub proof fn lemma_pair_key_injective(a: (u32, u32), b: (u32, u32))
    ensures
        pair_key(a.0, a.1) == pair_key(b.0, b.1) <==> a == b,
{
}

/// The state of an authority: the next marking it will issue, and the
/// connection markings issued so far, by ordered (source, target) pair.
pub ghost struct CounterView {
    pub next: u32,
    pub issued: Map<(u32, u32), u32>,
}

impl CounterView {
    /// Well-formedness: every marking issued to a connection lies below the
    /// counter, and no two pairs share one.
    pub open spec fn wf(self) -> bool {
        &&& forall|p: (u32, u32)| #[trigger]
            self.issued.contains_key(p) ==> self.issued[p] < self.next
        &&& forall|p: (u32, u32), q: (u32, u32)|
            #[trigger] self.issued.contains_key(p) && #[trigger] self.issued.contains_key(q) && p
                != q ==> self.issued[p] != self.issued[q]
    }

    /// At least `n` more markings can be issued.
    pub open spec fn has_room(self, n: int) -> bool {
        self.next + n <= u32::MAX
    }

    /// The authority can answer a request for the marking of the
    /// connection `source` -> `target`: it holds one for the pair, or has
    /// one left to give.
    pub open spec fn can_connect(self, source: u32, target: u32) -> bool {
        self.issued.contains_key((source, target)) || self.has_room(1)
    }

    /// `later` is a state the authority may be in after further requests:
    /// the counter has not gone back and every cached marking is still the
    /// same.
    pub open spec fn precedes(self, later: CounterView) -> bool {
        &&& self.next <= later.next
        &&& self.issued.submap_of(later.issued)
    }

    /// The marking that a request for the connection `source` -> `target`
    /// returns: the cached one, or else the next of the counter.
    pub open spec fn connection(self, source: u32, target: u32) -> u32 {
        if self.issued.contains_key((source, target)) {
            self.issued[(source, target)]
        } else {
            self.next
        }
    }

    /// The state after a request for the connection `source` -> `target`:
    /// unchanged where the pair is cached, else with the pair cached and
    /// the counter moved on.
    pub open spec fn after_connection(self, source: u32, target: u32) -> CounterView {
        if self.issued.contains_key((source, target)) {
            self
        } else {
            CounterView {
                next: (self.next + 1) as u32,
                issued: self.issued.insert((source, target), self.next),
            }
        }
    }

    /// The state after a request for a neuron marking, which returns
    /// `self.next`.
    pub open spec fn after_neuron(self) -> CounterView {
        CounterView { next: (self.next + 1) as u32, issued: self.issued }
    }

    /// Whatever is asked in between, a pair that was given a marking is
    /// given that marking again, and asking again changes nothing.
    pub proof fn lemma_same_pair_same_marking(self, later: CounterView, source: u32, target: u32)
        requires
            self.after_connection(source, target).precedes(later),
        ensures
            later.connection(source, target) == self.connection(source, target),
            later.after_connection(source, target) == later,
    {
        let after = self.after_connection(source, target);
        assert(after.issued.dom().contains((source, target)));
        assert(after.issued[(source, target)] == self.connection(source, target));
    }

    /// A neuron marking is strictly greater than every marking that an
    /// earlier request returned, whether for a connection or a neuron.
    pub proof fn lemma_neuron_marking_is_fresh(self, later: CounterView, source: u32, target: u32)
        requires
            self.wf(),
            self.has_room(1),
        ensures
            self.after_connection(source, target).precedes(later) ==> self.connection(
                source,
                target,
            ) < later.next,
            self.after_neuron().precedes(later) ==> self.next < later.next,
    {
    }

    /// A request leaves the authority well formed, in a state that the one
    /// before precedes; and `precedes` is transitive.
    pub proof fn lemma_requests_precede(self, later: CounterView, source: u32, target: u32)
        requires
            self.wf(),
            self.has_room(1),
        ensures
            self.after_connection(source, target).wf(),
            self.after_neuron().wf(),
            self.precedes(self.after_connection(source, target)),
            self.precedes(self.after_neuron()),
            self.after_connection(source, target).precedes(later) ==> self.precedes(later),
            self.after_neuron().precedes(later) ==> self.precedes(later),
    {
        let after = self.after_connection(source, target);
        if after.precedes(later) {
            assert forall|p: (u32, u32)| #[trigger]
                self.issued.dom().contains(p) implies later.issued.dom().contains(p)
                && later.issued[p] == self.issued[p] by {
                assert(after.issued.dom().contains(p));
                assert(after.issued[p] == self.issued[p]);
                assert(later.issued.dom().contains(p));
            }
        }
    }
}

/// The authority that issues historical markings for a whole population.
///
/// Markings come from one counter. A neuron always gets a fresh one; a
/// connection gets a fresh one the first time its ordered (source, target)
/// pair is asked for, and that same one ever after.
pub struct InnovationCounter {
    counter: u32,
    connections_innovation_map: HashMap<u64, u32>,
}

impl View for InnovationCounter {
    type V = CounterView;

    closed spec fn view(&self) -> CounterView {
        CounterView {
            next: self.counter,
            issued: Map::new(
                |p: (u32, u32)| self.connections_innovation_map@.contains_key(pair_key(p.0, p.1)),
                |p: (u32, u32)| self.connections_innovation_map@[pair_key(p.0, p.1)],
            ),
        }
    }
}

impl InnovationCounter {
    /// An authority whose first marking will be `n_neurons`: the markings
    /// below it are taken to belong to neurons that exist already.
    pub fn new(n_neurons: u32) -> (counter: InnovationCounter)
        ensures
            counter@.wf(),
            counter@ == (CounterView { next: n_neurons, issued: Map::empty() }),
    {
        let counter = InnovationCounter {
            counter: n_neurons,
            connections_innovation_map: HashMap::new(),
        };
        assert(counter@.issued =~= Map::<(u32, u32), u32>::empty());
        counter
    }

    /// The marking that will be issued next, which stays where it is.
    pub fn next_marking(&self) -> (marking: u32)
        ensures
            marking == self@.next,
    {
        self.counter
    }

    /// Whether `n` more markings can be issued.
    pub fn has_room(&self, n: u32) -> (r: bool)
        ensures
            r == self@.has_room(n as int),
    {
        u32::MAX - self.counter >= n
    }

    /// Whether a request for the marking of the connection `neuron_in` ->
    /// `neuron_out` can be answered: the pair has a marking, or there is
    /// one left to give.
    pub fn can_connect(&self, neuron_in: u32, neuron_out: u32) -> (r: bool)
        ensures
            r == self@.can_connect(neuron_in, neuron_out),
    {
        let key = Self::key_of(neuron_in, neuron_out);
        self.counter < u32::MAX || self.connections_innovation_map.contains_key(&key)
    }

    /// The key of an ordered pair in the cache.
    fn key_of(neuron_in: u32, neuron_out: u32) -> (key: u64)
        ensures
            key == pair_key(neuron_in, neuron_out),
    {
        let upper: u64 = neuron_in as u64;
        let lower: u64 = neuron_out as u64;
        upper * 0x1_0000_0000 + lower
    }

    /// The marking of the connection `neuron_in` -> `neuron_out`: the one
    /// issued before for this ordered pair, or else the next of the
    /// counter, which then moves on and remembers the pair.
    pub fn get_connection_innovation(&mut self, neuron_in: u32, neuron_out: u32) -> (innovation:
        u32)
        requires
            old(self)@.wf(),
            old(self)@.can_connect(neuron_in, neuron_out),
        ensures
            final(self)@.wf(),
            innovation == old(self)@.connection(neuron_in, neuron_out),
            final(self)@ == old(self)@.after_connection(neuron_in, neuron_out),
    {
        let key = Self::key_of(neuron_in, neuron_out);
        match self.connections_innovation_map.get(&key) {
            Some(innovation) => *innovation,
            None => {
                let innovation = self.counter;
                self.connections_innovation_map.insert(key, innovation);
                self.counter += 1;
                proof {
                    assert forall|p: (u32, u32)|
                        p != (neuron_in, neuron_out) implies pair_key(p.0, p.1) != key by {
                        lemma_pair_key_injective(p, (neuron_in, neuron_out));
                    }
                    assert(self@.issued =~= old(self)@.issued.insert(
                        (neuron_in, neuron_out),
                        innovation,
                    ));
                }
                innovation
            },
        }
    }

    /// A fresh marking for a neuron: the next of the counter, which then
    /// moves on.
    pub fn get_neuron_innovation(&mut self) -> (innovation: u32)
        requires
            old(self)@.has_room(1),
        ensures
            innovation == old(self)@.next,
            final(self)@ == old(self)@.after_neuron(),
            old(self)@.wf() ==> final(self)@.wf(),
    {
        let innovation = self.counter;
        self.counter += 1;
        assert(self@.issued =~= old(self)@.issued);
        innovation
    }
}

} // verus!
