//! The parameters of a genome: its initial shape, how new weights are
//! chosen, and the threshold of each mutation operator.
//!
//! Real-valued parameters are double-precision numbers carried by their
//! IEEE-754 bit patterns, as weights are.

use vstd::prelude::*;

verus! {

/// The bit pattern of 0.0.
pub const DEFAULT_WEIGHT: u64 = 0;

/// The bit pattern of 3.0.
pub const DEFAULT_WEIGHT_DEVIATION: u64 = 0x4008_0000_0000_0000;

/// The bit pattern of 0.05.
pub const DEFAULT_MUTATE_CREATE_CONNECTION: u64 = 0x3FA9_9999_9999_999A;

/// The bit pattern of 0.03.
pub const DEFAULT_MUTATE_CREATE_NEURON: u64 = 0x3F9E_B851_EB85_1EB8;

/// The bit pattern of 0.15.
pub const DEFAULT_MUTATE_SET_WEIGHT: u64 = 0x3FC3_3333_3333_3333;

/// The bit pattern of 0.2.
pub const DEFAULT_MUTATE_UPDATE_WEIGHT: u64 = 0x3FC9_9999_9999_999A;

/// The bit pattern of 0.1.
pub const DEFAULT_MUTATE_TOGGLE_CONNECTION: u64 = 0x3FB9_9999_9999_999A;

/// What a configuration holds.
pub ghost struct GenomeConfigView {
    /// The number of sensor neurons a genome starts with.
    pub n_sensor: u32,
    /// The number of output neurons a genome starts with.
    pub n_output: u32,
    /// Whether a genome starts with every sensor wired to every output.
    pub is_connected: bool,
    /// The weight of a connection where weights are not sampled, and the centre of the sampling interval where they are.
    pub default_weight: u64,
    /// Whether new weights are sampled.
    pub weight_is_random: bool,
    /// The half-width of the sampling interval.
    pub weight_deviation: u64,
    /// The threshold of the create-connection operator.
    pub mutate_create_connection: u64,
    /// The threshold of the create-neuron operator.
    pub mutate_create_neuron: u64,
    /// The threshold of the set-weight operator.
    pub mutate_set_weight: u64,
    /// The threshold of the update-weight operator.
    pub mutate_update_weight: u64,
    /// The threshold of the toggle-connection operator.
    pub mutate_toggle_connection: u64,
}

/// The parameters of a genome.
pub struct GenomeConfig {
    n_sensor: u32,
    n_output: u32,
    is_connected: bool,
    default_weight: u64,
    weight_is_random: bool,
    weight_deviation: u64,
    mutate_create_connection: u64,
    mutate_create_neuron: u64,
    mutate_set_weight: u64,
    mutate_update_weight: u64,
    mutate_toggle_connection: u64,
}

impl View for GenomeConfig {
    type V = GenomeConfigView;

    closed spec fn view(&self) -> GenomeConfigView {
        GenomeConfigView {
            n_sensor: self.n_sensor,
            n_output: self.n_output,
            is_connected: self.is_connected,
            default_weight: self.default_weight,
            weight_is_random: self.weight_is_random,
            weight_deviation: self.weight_deviation,
            mutate_create_connection: self.mutate_create_connection,
            mutate_create_neuron: self.mutate_create_neuron,
            mutate_set_weight: self.mutate_set_weight,
            mutate_update_weight: self.mutate_update_weight,
            mutate_toggle_connection: self.mutate_toggle_connection,
        }
    }
}

impl GenomeConfig {
    /// The configuration of a genome with `n_sensor` sensors and `n_output`
    /// outputs, unconnected, with sampled weights around 0.0 and the
    /// default thresholds.
    pub fn new(n_sensor: u32, n_output: u32) -> (config: GenomeConfig)
        ensures
            config@ == (GenomeConfigView {
                n_sensor,
                n_output,
                is_connected: false,
                default_weight: DEFAULT_WEIGHT,
                weight_is_random: true,
                weight_deviation: DEFAULT_WEIGHT_DEVIATION,
                mutate_create_connection: DEFAULT_MUTATE_CREATE_CONNECTION,
                mutate_create_neuron: DEFAULT_MUTATE_CREATE_NEURON,
                mutate_set_weight: DEFAULT_MUTATE_SET_WEIGHT,
                mutate_update_weight: DEFAULT_MUTATE_UPDATE_WEIGHT,
                mutate_toggle_connection: DEFAULT_MUTATE_TOGGLE_CONNECTION,
            }),
    {
        GenomeConfig {
            n_sensor,
            n_output,
            is_connected: false,
            default_weight: DEFAULT_WEIGHT,
            weight_is_random: true,
            weight_deviation: DEFAULT_WEIGHT_DEVIATION,
            mutate_create_connection: DEFAULT_MUTATE_CREATE_CONNECTION,
            mutate_create_neuron: DEFAULT_MUTATE_CREATE_NEURON,
            mutate_set_weight: DEFAULT_MUTATE_SET_WEIGHT,
            mutate_update_weight: DEFAULT_MUTATE_UPDATE_WEIGHT,
            mutate_toggle_connection: DEFAULT_MUTATE_TOGGLE_CONNECTION,
        }
    }

    /// Sets the threshold of the toggle-connection operator.
    pub fn set_mutate_toggle_connection(&mut self, value: u64)
        ensures
            final(self)@ == (GenomeConfigView { mutate_toggle_connection: value, ..old(self)@ }),
    {
        self.mutate_toggle_connection = value;
    }

    /// Sets the threshold of the update-weight operator.
    pub fn set_mutate_update_weight(&mut self, value: u64)
        ensures
            final(self)@ == (GenomeConfigView { mutate_update_weight: value, ..old(self)@ }),
    {
        self.mutate_update_weight = value;
    }

    /// Sets the threshold of the set-weight operator.
    pub fn set_mutate_set_weight(&mut self, value: u64)
        ensures
            final(self)@ == (GenomeConfigView { mutate_set_weight: value, ..old(self)@ }),
    {
        self.mutate_set_weight = value;
    }

    /// Sets the threshold of the create-neuron operator.
    pub fn set_mutate_create_neuron(&mut self, value: u64)
        ensures
            final(self)@ == (GenomeConfigView { mutate_create_neuron: value, ..old(self)@ }),
    {
        self.mutate_create_neuron = value;
    }

    /// Sets the threshold of the create-connection operator.
    pub fn set_mutate_create_connection(&mut self, value: u64)
        ensures
            final(self)@ == (GenomeConfigView { mutate_create_connection: value, ..old(self)@ }),
    {
        self.mutate_create_connection = value;
    }

    /// The threshold of the toggle-connection operator.
    pub fn get_mutate_toggle_connection(&self) -> (value: u64)
        ensures
            value == self@.mutate_toggle_connection,
    {
        self.mutate_toggle_connection
    }

    /// The threshold of the update-weight operator.
    pub fn get_mutate_update_weight(&self) -> (value: u64)
        ensures
            value == self@.mutate_update_weight,
    {
        self.mutate_update_weight
    }

    /// The threshold of the set-weight operator.
    pub fn get_mutate_set_weight(&self) -> (value: u64)
        ensures
            value == self@.mutate_set_weight,
    {
        self.mutate_set_weight
    }

    /// The threshold of the create-neuron operator.
    pub fn get_mutate_create_neuron(&self) -> (value: u64)
        ensures
            value == self@.mutate_create_neuron,
    {
        self.mutate_create_neuron
    }

    /// The threshold of the create-connection operator.
    pub fn get_mutate_create_connection(&self) -> (value: u64)
        ensures
            value == self@.mutate_create_connection,
    {
        self.mutate_create_connection
    }

    /// Sets whether a genome starts fully connected.
    pub fn set_is_connected(&mut self, is_connected: bool)
        ensures
            final(self)@ == (GenomeConfigView { is_connected: is_connected, ..old(self)@ }),
    {
        self.is_connected = is_connected;
    }

    /// Sets the default weight.
    pub fn set_default_weight(&mut self, default_weight: u64)
        ensures
            final(self)@ == (GenomeConfigView { default_weight: default_weight, ..old(self)@ }),
    {
        self.default_weight = default_weight;
    }

    /// Sets whether new weights are sampled.
    pub fn set_weight_is_random(&mut self, weight_is_random: bool)
        ensures
            final(self)@ == (GenomeConfigView { weight_is_random: weight_is_random, ..old(self)@ }),
    {
        self.weight_is_random = weight_is_random;
    }

    /// Sets the half-width of the sampling interval.
    pub fn set_weight_deviation(&mut self, weight_deviation: u64)
        ensures
            final(self)@ == (GenomeConfigView { weight_deviation: weight_deviation, ..old(self)@ }),
    {
        self.weight_deviation = weight_deviation;
    }

    /// The number of sensor neurons a genome starts with.
    pub fn get_n_sensor(&self) -> (value: u32)
        ensures
            value == self@.n_sensor,
    {
        self.n_sensor
    }

    /// The number of output neurons a genome starts with.
    pub fn get_n_output(&self) -> (value: u32)
        ensures
            value == self@.n_output,
    {
        self.n_output
    }

    /// Whether a genome starts fully connected.
    pub fn is_connected(&self) -> (value: bool)
        ensures
            value == self@.is_connected,
    {
        self.is_connected
    }

    /// Whether new weights are sampled.
    pub fn is_weight_random(&self) -> (value: bool)
        ensures
            value == self@.weight_is_random,
    {
        self.weight_is_random
    }

    /// The half-width of the sampling interval.
    pub fn get_weight_deviation(&self) -> (value: u64)
        ensures
            value == self@.weight_deviation,
    {
        self.weight_deviation
    }

    /// The default weight.
    pub fn get_default_weight(&self) -> (value: u64)
        ensures
            value == self@.default_weight,
    {
        self.default_weight
    }

}

impl GenomeConfigView {
    /// Whether `weight` is a weight this configuration may give to a new
    /// connection, `sample` being the source of sampled weights: what
    /// `sample` returned where weights are sampled, the default weight
    /// where they are not.
    pub open spec fn gives_weight<F: Fn() -> u64>(self, sample: F, weight: u64) -> bool {
        if self.weight_is_random {
            call_ensures(sample, (), weight)
        } else {
            weight == self.default_weight
        }
    }
}

impl GenomeConfig {
    /// The weight of a new connection: drawn from `sample` where weights
    /// are sampled, the default weight where they are not. `sample` is
    /// called only in the first case, and then once.
    pub fn get_weight<F: Fn() -> u64>(&self, sample: &F) -> (weight: u64)
        requires
            self@.weight_is_random ==> call_requires(*sample, ()),
        ensures
            self@.gives_weight(*sample, weight),
    {
        if self.weight_is_random {
            sample()
        } else {
            self.default_weight
        }
    }
}

} // verus!
