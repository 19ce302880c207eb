use neat::genome::connection_gene::ConnectionGene;
use neat::genome::genome_config::GenomeConfig;
use neat::genome::model::UNIT_WEIGHT;
use neat::genome::neuron_gene::{NeuronGene, OUTPUT, SENSOR};
use neat::genome::sampling::{pick_one, pick_two};
use neat::genome::{ComparableGeneInterface, Gene, Genome};
use neat::InnovationCounter;

#[derive(Clone, Copy)]
struct Dummy(u32);

impl Gene for Dummy {
    fn innovation(&self) -> u32 {
        self.0
    }

    fn get_innovation_number(&self) -> u32 {
        self.0
    }
}

#[test]
fn test_comparable_gene_interface() {
    let a = Dummy(2);
    let b = Dummy(3);

    assert!(ComparableGeneInterface(a) < ComparableGeneInterface(b));
    assert!(ComparableGeneInterface(a) == ComparableGeneInterface(a));
    assert!(ComparableGeneInterface(a) <= ComparableGeneInterface(a));
    assert!(ComparableGeneInterface(a) <= ComparableGeneInterface(b));
}

#[test]
fn test_genome_new() {
    let mut config = GenomeConfig::new(2, 2);
    let mut counter = InnovationCounter::new(4);
    let sample = || 0u64;
    let genome = Genome::new(&mut counter, &config, &sample);

    let control = &[0, 1, 2, 3];

    for (neuron, neuron_control) in genome.iter_neurons().zip(control.iter()) {
        assert!(neuron.get_innovation_number().eq(neuron_control))
    }

    assert_eq!(genome.iter_neurons().count(), 4);

    let control = &[4, 5, 6, 7];

    for (connection, connection_control) in genome.iter_connections().zip(control.iter()) {
        assert!(connection.get_innovation_number().eq(connection_control));
    }

    assert_eq!(genome.iter_connections().count(), 0);

    {
        config.set_is_connected(true);
    }

    let genome = Genome::new(&mut counter, &config, &sample);

    assert_eq!(genome.iter_connections().count(), 4);
}

fn neuron_markings(genome: &Genome) -> Vec<u32> {
    genome.iter_neurons().map(|gene| gene.get_innovation_number()).collect()
}

fn neuron_classes(genome: &Genome) -> Vec<u32> {
    genome.iter_neurons().map(|gene| gene.get_class()).collect()
}

fn connection_markings(genome: &Genome) -> Vec<u32> {
    genome.iter_connections().map(|gene| gene.get_innovation_number()).collect()
}

fn connection_ends(genome: &Genome) -> Vec<(u32, u32)> {
    genome.iter_connections().map(|gene| (gene.get_neuron_in(), gene.get_neuron_out())).collect()
}

fn connection_weights(genome: &Genome) -> Vec<u64> {
    genome.iter_connections().map(|gene| gene.get_weight()).collect()
}

fn connection_flags(genome: &Genome) -> Vec<bool> {
    genome.iter_connections().map(|gene| gene.is_enabled()).collect()
}

fn connected_genome(counter: &mut InnovationCounter, weight: f64) -> Genome {
    let mut config = GenomeConfig::new(2, 2);
    config.set_is_connected(true);
    let sample = move || weight.to_bits();
    Genome::new(counter, &config, &sample)
}

#[test]
fn a_new_genome_has_sensors_then_outputs() {
    let config = GenomeConfig::new(2, 3);
    let mut counter = InnovationCounter::new(5);
    let genome = Genome::new(&mut counter, &config, &|| 0u64);
    assert_eq!(neuron_markings(&genome), vec![0, 1, 2, 3, 4]);
    assert_eq!(neuron_classes(&genome), vec![SENSOR, SENSOR, OUTPUT, OUTPUT, OUTPUT]);
    assert_eq!(genome.neuron_count(), 5);
    assert_eq!(genome.connection_count(), 0);
    assert_eq!(counter.get_neuron_innovation(), 5);
}

#[test]
fn a_connected_genome_wires_every_sensor_to_every_output() {
    let mut counter = InnovationCounter::new(4);
    let genome = connected_genome(&mut counter, 0.5);
    assert_eq!(neuron_markings(&genome), vec![0, 1, 2, 3]);
    assert_eq!(connection_markings(&genome), vec![4, 5, 6, 7]);
    assert_eq!(connection_ends(&genome), vec![(0, 2), (0, 3), (1, 2), (1, 3)]);
    assert_eq!(connection_flags(&genome), vec![true; 4]);
    assert_eq!(connection_weights(&genome), vec![0.5f64.to_bits(); 4]);
    assert_eq!(counter.get_neuron_innovation(), 8);
}

#[test]
fn genomes_of_one_authority_share_their_connection_markings() {
    let mut counter = InnovationCounter::new(4);
    let first = connected_genome(&mut counter, 0.5);
    let second = connected_genome(&mut counter, 0.25);
    assert_eq!(connection_markings(&first), vec![4, 5, 6, 7]);
    assert_eq!(connection_markings(&second), vec![4, 5, 6, 7]);
    assert_eq!(connection_ends(&second), connection_ends(&first));
    assert_eq!(counter.get_neuron_innovation(), 8);
}

#[test]
fn a_genome_is_sorted_by_marking_whatever_the_authority_holds() {
    let mut counter = InnovationCounter::new(4);
    // the pairs are known to the authority in another order
    assert_eq!(counter.get_connection_innovation(1, 3), 4);
    assert_eq!(counter.get_connection_innovation(0, 3), 5);
    let genome = connected_genome(&mut counter, 0.5);
    assert_eq!(connection_markings(&genome), vec![4, 5, 6, 7]);
    assert_eq!(connection_ends(&genome), vec![(1, 3), (0, 3), (0, 2), (1, 2)]);
}

#[test]
fn default_weights_are_used_where_weights_are_not_sampled() {
    let mut config = GenomeConfig::new(1, 1);
    config.set_is_connected(true);
    config.set_weight_is_random(false);
    config.set_default_weight(2.5f64.to_bits());
    let mut counter = InnovationCounter::new(2);
    let genome = Genome::new(&mut counter, &config, &|| 7.0f64.to_bits());
    assert_eq!(connection_weights(&genome), vec![2.5f64.to_bits()]);
    assert_eq!(config.get_weight(&|| 7.0f64.to_bits()), 2.5f64.to_bits());
    config.set_weight_is_random(true);
    assert_eq!(config.get_weight(&|| 7.0f64.to_bits()), 7.0f64.to_bits());
}

#[test]
fn the_default_configuration() {
    let config = GenomeConfig::new(3, 2);
    assert_eq!(config.get_n_sensor(), 3);
    assert_eq!(config.get_n_output(), 2);
    assert!(!config.is_connected());
    assert!(config.is_weight_random());
    assert_eq!(f64::from_bits(config.get_default_weight()), 0.0);
    assert_eq!(f64::from_bits(config.get_weight_deviation()), 3.0);
    assert_eq!(f64::from_bits(config.get_mutate_create_connection()), 0.05);
    assert_eq!(f64::from_bits(config.get_mutate_create_neuron()), 0.03);
    assert_eq!(f64::from_bits(config.get_mutate_set_weight()), 0.15);
    assert_eq!(f64::from_bits(config.get_mutate_update_weight()), 0.2);
    assert_eq!(f64::from_bits(config.get_mutate_toggle_connection()), 0.1);
    assert_eq!(f64::from_bits(UNIT_WEIGHT), 1.0);
}

#[test]
fn each_setter_sets_its_own_parameter() {
    let mut config = GenomeConfig::new(1, 1);
    config.set_mutate_create_connection(0.5f64.to_bits());
    config.set_mutate_create_neuron(0.6f64.to_bits());
    config.set_mutate_set_weight(0.7f64.to_bits());
    config.set_mutate_update_weight(0.8f64.to_bits());
    config.set_mutate_toggle_connection(0.9f64.to_bits());
    config.set_weight_deviation(1.5f64.to_bits());
    config.set_default_weight((-1.0f64).to_bits());
    config.set_is_connected(true);
    config.set_weight_is_random(false);
    assert_eq!(f64::from_bits(config.get_mutate_create_connection()), 0.5);
    assert_eq!(f64::from_bits(config.get_mutate_create_neuron()), 0.6);
    assert_eq!(f64::from_bits(config.get_mutate_set_weight()), 0.7);
    assert_eq!(f64::from_bits(config.get_mutate_update_weight()), 0.8);
    assert_eq!(f64::from_bits(config.get_mutate_toggle_connection()), 0.9);
    assert_eq!(f64::from_bits(config.get_weight_deviation()), 1.5);
    assert_eq!(f64::from_bits(config.get_default_weight()), -1.0);
    assert!(config.is_connected());
    assert!(!config.is_weight_random());
    assert_eq!(config.get_n_sensor(), 1);
    assert_eq!(config.get_n_output(), 1);
}

#[test]
fn genes_hold_what_they_were_made_of() {
    let neuron = NeuronGene::new(7, 9);
    assert_eq!(neuron.get_innovation_number(), 7);
    assert_eq!(neuron.get_class(), 9);
    let mut connection = ConnectionGene::new(3, 1, 2, 0.5f64.to_bits());
    assert_eq!(connection.get_innovation_number(), 3);
    assert_eq!(connection.get_neuron_in(), 1);
    assert_eq!(connection.get_neuron_out(), 2);
    assert_eq!(f64::from_bits(connection.get_weight()), 0.5);
    assert!(connection.is_enabled());
    connection.set_weight(0.75f64.to_bits());
    assert_eq!(f64::from_bits(connection.get_weight()), 0.75);
    connection.toggle_enabled();
    assert!(!connection.is_enabled());
    connection.toggle_enabled();
    assert!(connection.is_enabled());
    assert_eq!(connection.get_innovation_number(), 3);
    assert_eq!(connection.get_neuron_in(), 1);
    assert_eq!(connection.get_neuron_out(), 2);
}

#[test]
fn genes_compare_by_marking_alone() {
    let low = ComparableGeneInterface(NeuronGene::new(1, OUTPUT));
    let high = ComparableGeneInterface(NeuronGene::new(2, SENSOR));
    let twin = ComparableGeneInterface(NeuronGene::new(2, OUTPUT));
    assert!(low < high);
    assert!(high > low);
    assert!(high == twin);
    assert!(low != twin);
    assert!(high >= twin && high <= twin);
    assert_eq!(low.get_class(), OUTPUT);
}

#[test]
fn toggling_twice_restores_the_flag() {
    let mut counter = InnovationCounter::new(4);
    let mut genome = connected_genome(&mut counter, 0.5);
    genome.toggle_connection_at(2);
    assert_eq!(connection_flags(&genome), vec![true, true, false, true]);
    genome.toggle_connection_at(2);
    assert_eq!(connection_flags(&genome), vec![true; 4]);
    assert_eq!(connection_markings(&genome), vec![4, 5, 6, 7]);
    assert_eq!(connection_weights(&genome), vec![0.5f64.to_bits(); 4]);
    // no such position: nothing happens
    genome.toggle_connection_at(4);
    assert_eq!(connection_flags(&genome), vec![true; 4]);
}

#[test]
fn a_weight_is_set_at_one_position_only() {
    let mut counter = InnovationCounter::new(4);
    let mut genome = connected_genome(&mut counter, 0.5);
    genome.set_weight_at(1, 2.0f64.to_bits());
    let half = 0.5f64.to_bits();
    assert_eq!(connection_weights(&genome), vec![half, 2.0f64.to_bits(), half, half]);
    assert_eq!(connection_flags(&genome), vec![true; 4]);
    assert_eq!(connection_ends(&genome), vec![(0, 2), (0, 3), (1, 2), (1, 3)]);
    genome.set_weight_at(9, 3.0f64.to_bits());
    assert_eq!(connection_weights(&genome), vec![half, 2.0f64.to_bits(), half, half]);
}

#[test]
fn splitting_a_connection() {
    let mut counter = InnovationCounter::new(4);
    let mut genome = connected_genome(&mut counter, 0.5);
    genome.set_weight_at(1, 2.0f64.to_bits());
    genome.create_neuron_at(&mut counter, 1);
    // one neuron more, halfway between a sensor and an output
    assert_eq!(neuron_markings(&genome), vec![0, 1, 2, 3, 8]);
    assert_eq!(neuron_classes(&genome), vec![SENSOR, SENSOR, OUTPUT, OUTPUT, 0x7FFF_FFFF]);
    // two connections more, through the new neuron
    assert_eq!(connection_markings(&genome), vec![4, 5, 6, 7, 9, 10]);
    assert_eq!(
        connection_ends(&genome),
        vec![(0, 2), (0, 3), (1, 2), (1, 3), (0, 8), (8, 3)]
    );
    let half = 0.5f64.to_bits();
    assert_eq!(
        connection_weights(&genome),
        vec![half, 2.0f64.to_bits(), half, half, 1.0f64.to_bits(), 2.0f64.to_bits()]
    );
    // the split connection, and no other, is disabled
    assert_eq!(connection_flags(&genome), vec![true, false, true, true, true, true]);
    assert_eq!(counter.get_neuron_innovation(), 11);
}

#[test]
fn splitting_twice_in_one_place_toggles_back() {
    let mut counter = InnovationCounter::new(4);
    let mut genome = connected_genome(&mut counter, 0.5);
    genome.create_neuron_at(&mut counter, 0);
    genome.create_neuron_at(&mut counter, 0);
    assert_eq!(neuron_markings(&genome), vec![0, 1, 2, 3, 8, 11]);
    assert_eq!(genome.connection_count(), 8);
    assert_eq!(connection_flags(&genome)[0], true);
    // where there is no such position nothing happens
    genome.create_neuron_at(&mut counter, 8);
    assert_eq!(genome.neuron_count(), 6);
    assert_eq!(genome.connection_count(), 8);
    assert_eq!(counter.get_neuron_innovation(), 14);
}

#[test]
fn the_class_of_a_hidden_neuron_is_a_midpoint() {
    let mut counter = InnovationCounter::new(4);
    let mut genome = connected_genome(&mut counter, 0.5);
    genome.create_neuron_at(&mut counter, 0);
    // the connection from the new neuron (class 0x7FFF_FFFF) to the output
    let position = connection_ends(&genome).iter().position(|ends| *ends == (8, 2)).unwrap();
    genome.create_neuron_at(&mut counter, position);
    let classes = neuron_classes(&genome);
    assert_eq!(*classes.last().unwrap(), 0xBFFF_FFFF);
}

#[test]
fn orientation_goes_from_the_lower_class_to_the_higher() {
    let config = GenomeConfig::new(2, 2);
    let mut counter = InnovationCounter::new(4);
    let genome = Genome::new(&mut counter, &config, &|| 0u64);
    assert_eq!(genome.orient(0, 2), Some((0, 2)));
    assert_eq!(genome.orient(2, 0), Some((0, 2)));
    assert_eq!(genome.orient(3, 1), Some((1, 3)));
    assert_eq!(genome.orient(0, 1), None);
    assert_eq!(genome.orient(2, 3), None);
    assert_eq!(genome.orient(1, 1), None);
    assert_eq!(genome.orient(0, 4), None);
    assert_eq!(genome.orient(4, 0), None);
}

#[test]
fn connecting_two_neurons() {
    let config = GenomeConfig::new(2, 2);
    let mut counter = InnovationCounter::new(4);
    let mut genome = Genome::new(&mut counter, &config, &|| 0u64);
    assert!(genome.has_neuron(1));
    assert!(!genome.has_neuron(4));
    assert!(genome.connect(&mut counter, 1, 2, 0.25f64.to_bits()));
    assert_eq!(connection_markings(&genome), vec![4]);
    assert_eq!(connection_ends(&genome), vec![(1, 2)]);
    assert_eq!(connection_weights(&genome), vec![0.25f64.to_bits()]);
    assert_eq!(connection_flags(&genome), vec![true]);
    // the same pair again: the marking is taken, nothing changes
    assert!(genome.connect(&mut counter, 1, 2, 0.75f64.to_bits()));
    assert_eq!(connection_markings(&genome), vec![4]);
    assert_eq!(connection_weights(&genome), vec![0.25f64.to_bits()]);
    // no such neuron: nothing changes and no marking is used up
    assert!(!genome.connect(&mut counter, 1, 9, 0.5f64.to_bits()));
    assert!(!genome.connect(&mut counter, 9, 1, 0.5f64.to_bits()));
    assert_eq!(genome.connection_count(), 1);
    assert!(genome.connect(&mut counter, 0, 3, 0.5f64.to_bits()));
    assert_eq!(connection_markings(&genome), vec![4, 5]);
    assert_eq!(connection_ends(&genome), vec![(1, 2), (0, 3)]);
}

#[test]
fn operators_do_nothing_where_there_is_nothing_to_choose() {
    let config = GenomeConfig::new(1, 0);
    let mut counter = InnovationCounter::new(1);
    let mut genome = Genome::new(&mut counter, &config, &|| 0u64);
    let mut rng = rand::thread_rng();
    let sample = || 1.0f64.to_bits();
    let perturb = |weight: u64| weight + 1;
    genome.mutate_toggle_connection(&mut rng);
    genome.mutate_set_weight(&config, &mut rng, &sample);
    genome.mutate_update_weight(&mut rng, &perturb);
    genome.mutate_create_neuron(&mut counter, &mut rng);
    genome.mutate_create_connection(&mut counter, &config, &mut rng, &sample);
    assert_eq!(neuron_markings(&genome), vec![0]);
    assert_eq!(genome.connection_count(), 0);
    assert_eq!(counter.get_neuron_innovation(), 1);

    let empty = GenomeConfig::new(0, 0);
    let mut counter = InnovationCounter::new(0);
    let mut genome = Genome::new(&mut counter, &empty, &sample);
    genome.mutate_create_connection(&mut counter, &empty, &mut rng, &sample);
    genome.mutate_create_neuron(&mut counter, &mut rng);
    genome.mutate(&mut counter, &empty, &|_| true, &sample, &perturb);
    assert_eq!(genome.neuron_count(), 0);
    assert_eq!(genome.connection_count(), 0);
    assert_eq!(counter.get_neuron_innovation(), 0);
}

#[test]
fn create_connection_finds_no_pair_among_neurons_of_one_class() {
    let config = GenomeConfig::new(4, 0);
    let mut counter = InnovationCounter::new(4);
    let mut genome = Genome::new(&mut counter, &config, &|| 0u64);
    let mut rng = rand::thread_rng();
    genome.mutate_create_connection(&mut counter, &config, &mut rng, &|| 0u64);
    assert_eq!(genome.connection_count(), 0);
    assert_eq!(counter.get_neuron_innovation(), 4);
}

#[test]
fn create_connection_joins_a_sensor_to_an_output() {
    let config = GenomeConfig::new(1, 1);
    let mut counter = InnovationCounter::new(2);
    let mut genome = Genome::new(&mut counter, &config, &|| 0u64);
    let mut rng = rand::thread_rng();
    // two neurons of different classes: the first attempt succeeds
    genome.mutate_create_connection(&mut counter, &config, &mut rng, &|| 0.5f64.to_bits());
    assert_eq!(connection_markings(&genome), vec![2]);
    assert_eq!(connection_ends(&genome), vec![(0, 1)]);
    assert_eq!(connection_weights(&genome), vec![0.5f64.to_bits()]);
    assert_eq!(connection_flags(&genome), vec![true]);
    // the pair is taken: the operator changes nothing more
    genome.mutate_create_connection(&mut counter, &config, &mut rng, &|| 0.75f64.to_bits());
    assert_eq!(connection_markings(&genome), vec![2]);
    assert_eq!(connection_weights(&genome), vec![0.5f64.to_bits()]);
    assert_eq!(counter.get_neuron_innovation(), 3);
}

#[test]
fn create_connection_never_joins_neurons_of_one_class() {
    for _ in 0..50 {
        let config = GenomeConfig::new(3, 3);
        let mut counter = InnovationCounter::new(6);
        let mut genome = Genome::new(&mut counter, &config, &|| 0u64);
        let mut rng = rand::thread_rng();
        for _ in 0..4 {
            genome.mutate_create_connection(&mut counter, &config, &mut rng, &|| 0u64);
        }
        assert!(genome.connection_count() <= 4);
        for (source, target) in connection_ends(&genome) {
            assert!(source < 3);
            assert!(target >= 3 && target < 6);
        }
    }
}

#[test]
fn the_random_operators_change_one_connection() {
    for _ in 0..20 {
        let mut counter = InnovationCounter::new(4);
        let mut genome = connected_genome(&mut counter, 0.5);
        let mut rng = rand::thread_rng();
        let half = 0.5f64.to_bits();

        genome.mutate_toggle_connection(&mut rng);
        assert_eq!(connection_flags(&genome).iter().filter(|flag| !**flag).count(), 1);

        let mut config = GenomeConfig::new(2, 2);
        genome.mutate_set_weight(&config, &mut rng, &|| 2.0f64.to_bits());
        let weights = connection_weights(&genome);
        assert_eq!(weights.iter().filter(|weight| **weight == 2.0f64.to_bits()).count(), 1);
        assert_eq!(weights.iter().filter(|weight| **weight == half).count(), 3);

        config.set_weight_is_random(false);
        config.set_default_weight(3.0f64.to_bits());
        genome.mutate_set_weight(&config, &mut rng, &|| 2.0f64.to_bits());
        let weights = connection_weights(&genome);
        assert_eq!(weights.iter().filter(|weight| **weight == 3.0f64.to_bits()).count(), 1);

        let mut counter = InnovationCounter::new(4);
        let mut genome = connected_genome(&mut counter, 0.5);
        let perturb = |weight: u64| (f64::from_bits(weight) * 4.0).to_bits();
        genome.mutate_update_weight(&mut rng, &perturb);
        let weights = connection_weights(&genome);
        assert_eq!(weights.iter().filter(|weight| **weight == 2.0f64.to_bits()).count(), 1);
        assert_eq!(weights.iter().filter(|weight| **weight == half).count(), 3);
        assert_eq!(connection_markings(&genome), vec![4, 5, 6, 7]);
    }
}

#[test]
fn create_neuron_splits_one_connection() {
    for _ in 0..20 {
        let mut counter = InnovationCounter::new(4);
        let mut genome = connected_genome(&mut counter, 0.5);
        let mut rng = rand::thread_rng();
        genome.mutate_create_neuron(&mut counter, &mut rng);
        assert_eq!(neuron_markings(&genome), vec![0, 1, 2, 3, 8]);
        assert_eq!(connection_markings(&genome), vec![4, 5, 6, 7, 9, 10]);
        let flags = connection_flags(&genome);
        assert_eq!(flags.iter().filter(|flag| !**flag).count(), 1);
        let split = flags.iter().position(|flag| !*flag).unwrap();
        let ends = connection_ends(&genome);
        assert_eq!(ends[4], (ends[split].0, 8));
        assert_eq!(ends[5], (8, ends[split].1));
        let weights = connection_weights(&genome);
        assert_eq!(f64::from_bits(weights[4]), 1.0);
        assert_eq!(weights[5], weights[split]);
    }
}

#[test]
fn a_mutation_runs_the_operators_whose_thresholds_are_exceeded() {
    let mut config = GenomeConfig::new(2, 2);
    config.set_mutate_create_connection(0.1f64.to_bits());
    config.set_mutate_create_neuron(0.2f64.to_bits());
    config.set_mutate_update_weight(0.3f64.to_bits());
    config.set_mutate_set_weight(0.4f64.to_bits());
    config.set_mutate_toggle_connection(0.5f64.to_bits());
    let sample = || 2.0f64.to_bits();
    let perturb = |weight: u64| (f64::from_bits(weight) + 8.0).to_bits();

    // nothing exceeds: nothing happens
    let mut counter = InnovationCounter::new(4);
    let mut genome = connected_genome(&mut counter, 0.5);
    genome.mutate(&mut counter, &config, &|_| false, &sample, &perturb);
    assert_eq!(connection_markings(&genome), vec![4, 5, 6, 7]);
    assert_eq!(connection_flags(&genome), vec![true; 4]);
    assert_eq!(connection_weights(&genome), vec![0.5f64.to_bits(); 4]);
    assert_eq!(genome.neuron_count(), 4);

    // only the threshold of toggle-connection is exceeded
    let drawn = 0.45;
    let exceeds = move |threshold: u64| drawn > f64::from_bits(threshold);
    let only_toggle = |threshold: u64| !exceeds(threshold);
    genome.mutate(&mut counter, &config, &only_toggle, &sample, &perturb);
    assert_eq!(connection_flags(&genome).iter().filter(|flag| !**flag).count(), 1);
    assert_eq!(connection_weights(&genome), vec![0.5f64.to_bits(); 4]);
    assert_eq!(genome.neuron_count(), 4);

    // only the threshold of create-neuron is exceeded
    let mut counter = InnovationCounter::new(4);
    let mut genome = connected_genome(&mut counter, 0.5);
    let only_split = |threshold: u64| threshold == 0.2f64.to_bits();
    genome.mutate(&mut counter, &config, &only_split, &sample, &perturb);
    assert_eq!(neuron_markings(&genome), vec![0, 1, 2, 3, 8]);
    assert_eq!(connection_markings(&genome), vec![4, 5, 6, 7, 9, 10]);
    assert_eq!(connection_flags(&genome).iter().filter(|flag| !**flag).count(), 1);

    // only the thresholds of the two weight operators are exceeded
    let mut counter = InnovationCounter::new(4);
    let mut genome = connected_genome(&mut counter, 0.5);
    let only_update = |threshold: u64| threshold == 0.3f64.to_bits();
    genome.mutate(&mut counter, &config, &only_update, &sample, &perturb);
    let weights = connection_weights(&genome);
    assert_eq!(weights.iter().filter(|weight| **weight == 8.5f64.to_bits()).count(), 1);
    assert_eq!(weights.iter().filter(|weight| **weight == 0.5f64.to_bits()).count(), 3);
    let only_set = |threshold: u64| threshold == 0.4f64.to_bits();
    let mut genome = connected_genome(&mut counter, 0.5);
    genome.mutate(&mut counter, &config, &only_set, &sample, &perturb);
    let weights = connection_weights(&genome);
    assert_eq!(weights.iter().filter(|weight| **weight == 2.0f64.to_bits()).count(), 1);
    assert_eq!(weights.iter().filter(|weight| **weight == 0.5f64.to_bits()).count(), 3);

    // only the threshold of create-connection is exceeded
    let bare = GenomeConfig::new(1, 1);
    let mut counter = InnovationCounter::new(2);
    let mut genome = Genome::new(&mut counter, &bare, &sample);
    let only_connect = |threshold: u64| threshold == 0.1f64.to_bits();
    genome.mutate(&mut counter, &config, &only_connect, &sample, &perturb);
    assert_eq!(connection_ends(&genome), vec![(0, 1)]);
    assert_eq!(connection_weights(&genome), vec![2.0f64.to_bits()]);
    assert_eq!(genome.neuron_count(), 2);
}

#[test]
fn a_full_mutation_keeps_the_genome_in_marking_order() {
    for _ in 0..20 {
        let config = GenomeConfig::new(2, 2);
        let mut counter = InnovationCounter::new(4);
        let mut genome = connected_genome(&mut counter, 0.5);
        let sample = || 2.0f64.to_bits();
        let perturb = |weight: u64| weight;
        for _ in 0..5 {
            genome.mutate(&mut counter, &config, &|_| true, &sample, &perturb);
        }
        assert_eq!(genome.neuron_count(), 9);
        let neurons = neuron_markings(&genome);
        assert!(neurons.windows(2).all(|pair| pair[0] < pair[1]));
        let connections = connection_markings(&genome);
        assert!(connections.windows(2).all(|pair| pair[0] < pair[1]));
        let classes: Vec<(u32, u32)> =
            genome.iter_neurons().map(|gene| (gene.get_innovation_number(), gene.get_class())).collect();
        for (source, target) in connection_ends(&genome) {
            let low = classes.iter().find(|entry| entry.0 == source).unwrap().1;
            let high = classes.iter().find(|entry| entry.0 == target).unwrap().1;
            assert!(low <= high);
        }
    }
}

#[test]
fn random_positions_are_positions() {
    let mut rng = rand::thread_rng();
    assert_eq!(pick_one(&mut rng, 0), None);
    assert_eq!(pick_one(&mut rng, 1), Some(0));
    assert_eq!(pick_two(&mut rng, 0), None);
    assert_eq!(pick_two(&mut rng, 1), None);
    let mut seen = [false; 3];
    for _ in 0..200 {
        let one = pick_one(&mut rng, 7).unwrap();
        assert!(one < 7);
        let (first, second) = pick_two(&mut rng, 3).unwrap();
        assert!(first < 3 && second < 3);
        assert_ne!(first, second);
        seen[first] = true;
    }
    assert_eq!(seen, [true; 3]);
    let (first, second) = pick_two(&mut rng, 2).unwrap();
    assert_eq!(first + second, 1);
}

#[test]
fn structural_operators_do_nothing_without_markings() {
    let config = GenomeConfig::new(1, 1);
    let sample = || 2.0f64.to_bits();
    let perturb = |weight: u64| weight;
    let mut rng = rand::thread_rng();

    // no marking left: nothing can be connected
    let mut counter = InnovationCounter::new(u32::MAX);
    let mut genome = Genome::new(&mut counter, &config, &sample);
    assert!(!genome.connect(&mut counter, 0, 1, 0));
    genome.mutate_create_connection(&mut counter, &config, &mut rng, &sample);
    genome.mutate(&mut counter, &config, &|_| true, &sample, &perturb);
    assert_eq!(genome.connection_count(), 0);
    assert_eq!(genome.neuron_count(), 2);
    assert_eq!(counter.next_marking(), u32::MAX);

    // one marking left: a connection, but no split of it
    let mut counter = InnovationCounter::new(u32::MAX - 1);
    let mut genome = Genome::new(&mut counter, &config, &sample);
    genome.mutate_create_connection(&mut counter, &config, &mut rng, &sample);
    assert_eq!(connection_markings(&genome), vec![u32::MAX - 1]);
    assert_eq!(counter.next_marking(), u32::MAX);
    genome.create_neuron_at(&mut counter, 0);
    genome.mutate_create_neuron(&mut counter, &mut rng);
    assert_eq!(genome.neuron_count(), 2);
    assert_eq!(connection_markings(&genome), vec![u32::MAX - 1]);
    assert_eq!(connection_flags(&genome), vec![true]);
    assert_eq!(counter.next_marking(), u32::MAX);
    // a second genome can still take the connection that has its marking
    let mut twin = Genome::new(&mut counter, &config, &sample);
    assert!(twin.connect(&mut counter, 0, 1, 0));
    assert_eq!(connection_markings(&twin), vec![u32::MAX - 1]);
    assert!(!twin.connect(&mut counter, 1, 0, 0));
    // the other operators go on as ever
    genome.mutate(&mut counter, &config, &|_| true, &sample, &perturb);
    assert_eq!(genome.neuron_count(), 2);
    assert_eq!(connection_markings(&genome), vec![u32::MAX - 1]);
    assert_eq!(connection_weights(&genome), vec![2.0f64.to_bits()]);
    assert_eq!(connection_flags(&genome), vec![false]);

    // three markings left: the split goes through and uses them up
    let mut counter = InnovationCounter::new(u32::MAX - 4);
    let mut genome = Genome::new(&mut counter, &config, &sample);
    assert!(genome.connect(&mut counter, 0, 1, 0));
    genome.create_neuron_at(&mut counter, 0);
    assert_eq!(neuron_markings(&genome), vec![0, 1, u32::MAX - 3]);
    assert_eq!(
        connection_markings(&genome),
        vec![u32::MAX - 4, u32::MAX - 2, u32::MAX - 1]
    );
    assert_eq!(counter.next_marking(), u32::MAX);
}
