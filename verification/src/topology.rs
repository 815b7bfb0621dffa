//! The sizes that shape a network, and the mathematical content of a
//! network.

use crate::neuron::{map_well_formed, SetView};
use vstd::prelude::*;

verus! {

/// The sizes that fix a network's shape.
pub ghost struct Topology {
    pub num_inputs: nat,
    pub num_outputs: nat,
    pub layer_sizes: Seq<nat>,
}

impl Topology {
    /// Number of connection maps: one more than the hidden layers.
    pub open spec fn layers(self) -> nat {
        self.layer_sizes.len() + 1
    }

    /// Number of inputs read by each neuron of map `i`.
    pub open spec fn in_width(self, i: int) -> nat {
        if i == 0 {
            self.num_inputs
        } else {
            self.layer_sizes[i - 1]
        }
    }

    /// Number of neurons of map `i`.
    pub open spec fn out_width(self, i: int) -> nat {
        if i == self.layer_sizes.len() {
            self.num_outputs
        } else {
            self.layer_sizes[i]
        }
    }

    /// Number of connections in the first `n` maps.
    pub open spec fn connections(self, n: nat) -> nat
        decreases n,
    {
        if n == 0 {
            0
        } else {
            self.connections((n - 1) as nat) + self.in_width(n - 1) * self.out_width(n - 1)
        }
    }

    /// Number of neurons in the first `n` maps.
    pub open spec fn neurons(self, n: nat) -> nat
        decreases n,
    {
        if n == 0 {
            0
        } else {
            self.neurons((n - 1) as nat) + self.out_width(n - 1)
        }
    }

    /// Bytes taken by the first `n` maps.
    pub open spec fn body_size(self, n: nat) -> nat {
        8 * (6 * self.connections(n) + 2 * self.neurons(n))
    }

    /// Bytes taken by the whole body.
    pub open spec fn body_len(self) -> nat {
        self.body_size(self.layers())
    }

    /// Bytes taken by the header.
    pub open spec fn header_len(self) -> nat {
        8 * (3 + self.layer_sizes.len())
    }

    /// Byte offset at which map `i` starts.
    pub open spec fn map_start(self, i: nat) -> nat {
        self.header_len() + self.body_size(i)
    }
}

/// The mathematical content of a network.
pub ghost struct NetworkView {
    pub maps: Seq<Seq<SetView>>,
    pub layer_sizes: Seq<nat>,
    pub num_inputs: nat,
    pub num_outputs: nat,
}

impl NetworkView {
    /// The sizes of the network.
    pub open spec fn topology(self) -> Topology {
        Topology {
            num_inputs: self.num_inputs,
            num_outputs: self.num_outputs,
            layer_sizes: self.layer_sizes,
        }
    }

    /// Every map has the shape that the sizes give it.
    pub open spec fn well_shaped(self) -> bool {
        let t = self.topology();
        &&& self.maps.len() == t.layers()
        &&& forall|m: int|
            0 <= m < self.maps.len() ==> (#[trigger] self.maps[m]).len() == t.out_width(m)
        &&& forall|m: int, s: int|
            0 <= m < self.maps.len() && 0 <= s < self.maps[m].len() ==> (
            #[trigger] self.maps[m][s]).conns.len() == t.in_width(m)
    }

    /// The network is what it is meant to be: every map has the shape that
    /// the sizes give it, every chance is a probability, and no mutation
    /// amount is below zero.
    pub open spec fn well_formed(self) -> bool {
        &&& self.well_shaped()
        &&& forall|m: int| 0 <= m < self.maps.len() ==> map_well_formed(#[trigger] self.maps[m])
    }
}

} // verus!
