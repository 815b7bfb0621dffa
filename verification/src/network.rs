//! The network: an ordered sequence of connection maps with the sizes that
//! shape them.

use crate::codec::{read_map, write_map};
use crate::error::NetworkError;
use crate::format::{
    addressable, body_bytes, has_header, header_bytes, header_end, header_ends_at,
    lemma_body_monotonic, lemma_body_step, lemma_header_end_unique, map_at, model_bytes,
    network_at, parse, sentinel_at, set_len, sizes_bytes, topology_of, SENTINEL,
};
use crate::arith::{is_amount, is_chance};
use crate::double::Double;
use crate::neuron::{
    drawn_map, layer_output, lemma_drawn_well_formed, lemma_map_trade_conserves,
    lemma_mutated_well_formed, lemma_traded_well_formed, map_connections, map_covered, mutated_map,
    map_well_formed, permitted_rows, rectangular, rows, table_valid, tables, traded_map,
    ConnectionDraw, MutationDraw, NeuronConnectionMap, SetView,
};
use crate::topology::{NetworkView, Topology};
use crate::wire::{push_word, read_word, word_at};
use vstd::prelude::*;

verus! {

/// A feed-forward network of threshold neurons.
#[derive(Debug, Clone, PartialEq, Eq)]
pub struct Network {
    pub maps: Vec<NeuronConnectionMap>,
    pub layer_sizes: Vec<usize>,
    pub num_inputs: usize,
    pub num_outputs: usize,
}

impl View for Network {
    type V = NetworkView;

    open spec fn view(&self) -> NetworkView {
        NetworkView {
            maps: self.maps@.map_values(|m: NeuronConnectionMap| m@),
            layer_sizes: sizes_view(self.layer_sizes@),
            num_inputs: self.num_inputs as nat,
            num_outputs: self.num_outputs as nat,
        }
    }
}

/// A list of sizes as natural numbers.
pub open spec fn sizes_view(sizes: Seq<usize>) -> Seq<nat> {
    sizes.map_values(|n: usize| n as nat)
}

/// The topology given by machine-sized numbers.
pub open spec fn topology_from(layer_sizes: Seq<usize>, num_inputs: usize, num_outputs: usize)
    -> Topology {
    Topology {
        num_inputs: num_inputs as nat,
        num_outputs: num_outputs as nat,
        layer_sizes: sizes_view(layer_sizes),
    }
}

// ---------------------------------------------------------------------
// Construction from draws
// ---------------------------------------------------------------------
/// The draws cover a network of topology `t`: one table for each map, with a
/// row for each neuron and an entry for each of its connections.
pub open spec fn covers(draws: Seq<Seq<Seq<ConnectionDraw>>>, t: Topology) -> bool {
    &&& draws.len() == t.layers()
    &&& forall|m: int|
        0 <= m < draws.len() ==> rectangular(#[trigger] draws[m], t.out_width(m), t.in_width(m))
}

/// Every draw of every table is valid.
pub open spec fn stack_valid(draws: Seq<Seq<Seq<ConnectionDraw>>>) -> bool {
    forall|m: int| 0 <= m < draws.len() ==> table_valid(#[trigger] draws[m])
}

/// The maps with one map for each table of draws, in order.
pub open spec fn drawn_maps(
    draws: Seq<Seq<Seq<ConnectionDraw>>>,
    activation_thresh: Double,
    trait_swap_chance: Double,
    weight_mutate_chance: Double,
    weight_mutate_amount: Double,
    offset_mutate_chance: Double,
    offset_mutate_amount: Double,
) -> Seq<Seq<SetView>> {
    Seq::new(
        draws.len(),
        |m: int|
            drawn_map(
                draws[m],
                activation_thresh,
                trait_swap_chance,
                weight_mutate_chance,
                weight_mutate_amount,
                offset_mutate_chance,
                offset_mutate_amount,
            ),
    )
}

// ---------------------------------------------------------------------
// The forward pass
// ---------------------------------------------------------------------
/// The packed vector that leaves the first `n` maps when `input` enters the
/// first: each map's output is the next map's input.
pub open spec fn forward(maps: Seq<Seq<SetView>>, input: Seq<u8>, n: nat) -> Seq<u8>
    decreases n,
{
    if n == 0 {
        input
    } else {
        layer_output(maps[n - 1], forward(maps, input, (n - 1) as nat))
    }
}

/// Each of the first `n` maps finds, in the vector that reaches it, a bit for
/// every connection of every neuron.
pub open spec fn runs(maps: Seq<Seq<SetView>>, input: Seq<u8>, n: nat) -> bool {
    forall|i: int|
        0 <= i < n ==> map_covered(#[trigger] maps[i], forward(maps, input, i as nat).len())
}

/// A well-shaped network whose hidden layer sizes are multiples of eight
/// runs on every input that has a bit for each of its inputs.
pub proof fn lemma_runs_when_aligned(n: NetworkView, input: Seq<u8>)
    requires
        n.well_shaped(),
        n.num_inputs <= 8 * input.len(),
        forall|i: int| 0 <= i < n.layer_sizes.len() ==> (#[trigger] n.layer_sizes[i]) % 8 == 0,
    ensures
        runs(n.maps, input, n.maps.len()),
{
    let t = n.topology();
    assert forall|i: int| 0 <= i < n.maps.len() implies map_covered(
        #[trigger] n.maps[i],
        forward(n.maps, input, i as nat).len(),
    ) by {
        if i > 0 {
            assert(forward(n.maps, input, i as nat).len() == n.maps[i - 1].len() / 8);
            assert(n.maps[i - 1].len() == n.layer_sizes[i - 1]);
        }
        assert forall|s: int| 0 <= s < n.maps[i].len() implies (#[trigger] n.maps[i][s]).conns.len()
            <= 8 * forward(n.maps, input, i as nat).len() by {
            assert(n.maps[i][s].conns.len() == t.in_width(i));
        }
    }
}

// ---------------------------------------------------------------------
// Crossover and mutation
// ---------------------------------------------------------------------
/// The swaps that the neurons of a network permit, each by its own swap
/// chance. Tables beyond the network, which no map uses, stay as they are.
pub open spec fn permitted_tables(swaps: Seq<Seq<Seq<bool>>>, maps: Seq<Seq<SetView>>) -> Seq<
    Seq<Seq<bool>>,
> {
    Seq::new(
        swaps.len(),
        |m: int|
            if m < maps.len() {
                permitted_rows(swaps[m], maps[m])
            } else {
                swaps[m]
            },
    )
}

/// The maps of a network after a crossover with another: each map that the
/// other network and `swaps` cover is traded with the map at its index.
pub open spec fn traded_maps(
    mine: Seq<Seq<SetView>>,
    theirs: Seq<Seq<SetView>>,
    swaps: Seq<Seq<Seq<bool>>>,
) -> Seq<Seq<SetView>> {
    Seq::new(
        mine.len(),
        |m: int|
            if m < theirs.len() && m < swaps.len() {
                traded_map(mine[m], theirs[m], swaps[m])
            } else {
                mine[m]
            },
    )
}

/// The maps of a network after mutation: each map that has a table of draws
/// is mutated by it.
pub open spec fn mutated_maps(maps: Seq<Seq<SetView>>, draws: Seq<Seq<Seq<MutationDraw>>>) -> Seq<
    Seq<SetView>,
> {
    Seq::new(
        maps.len(),
        |m: int|
            if m < draws.len() {
                mutated_map(maps[m], draws[m])
            } else {
                maps[m]
            },
    )
}

/// Two lists of maps have the same shape: as many maps, as many neurons in
/// each, as many connections in each of those.
pub open spec fn same_shape(a: Seq<Seq<SetView>>, b: Seq<Seq<SetView>>) -> bool {
    &&& a.len() == b.len()
    &&& forall|m: int| 0 <= m < a.len() ==> (#[trigger] a[m]).len() == b[m].len()
    &&& forall|m: int, s: int|
        0 <= m < a.len() && 0 <= s < a[m].len() ==> (#[trigger] a[m][s]).conns.len()
            == b[m][s].conns.len()
}

/// A crossover of two networks only moves connections between the two maps
/// at each index: taken together, the two maps hold after it exactly the
/// connections that they held before, each as often as before.
pub proof fn lemma_random_trade_conserves(
    mine: Seq<Seq<SetView>>,
    theirs: Seq<Seq<SetView>>,
    swaps: Seq<Seq<Seq<bool>>>,
    i: int,
)
    requires
        0 <= i < mine.len(),
        i < theirs.len(),
    ensures
        map_connections(traded_maps(mine, theirs, swaps)[i]).add(
            map_connections(traded_maps(theirs, mine, swaps)[i]),
        ) == map_connections(mine[i]).add(map_connections(theirs[i])),
{
    if i < swaps.len() {
        lemma_map_trade_conserves(mine[i], theirs[i], swaps[i]);
    }
}

/// Crossover and mutation leave the shape of a network as it is.
pub proof fn lemma_shape_kept(
    maps: Seq<Seq<SetView>>,
    theirs: Seq<Seq<SetView>>,
    swaps: Seq<Seq<Seq<bool>>>,
    draws: Seq<Seq<Seq<MutationDraw>>>,
)
    ensures
        same_shape(traded_maps(maps, theirs, swaps), maps),
        same_shape(mutated_maps(maps, draws), maps),
{
}

// ---------------------------------------------------------------------
// Reading a model
// ---------------------------------------------------------------------
/// Bytes taken by `out` neurons of `width` connections each, where that
/// number can be held.
fn map_size(out: usize, width: usize) -> (r: Option<usize>)
    ensures
        match r {
            Some(v) => v == out * set_len(width as nat),
            None => out * set_len(width as nat) > usize::MAX,
        },
{
    if out == 0 {
        return Some(0);
    }
    let ghost len = set_len(width as nat) as int;
    assert(out * len >= len) by (nonlinear_arith)
        requires
            out >= 1,
            len >= 0,
    ;
    match width.checked_mul(48) {
        None => None,
        Some(a) => match a.checked_add(16) {
            None => None,
            Some(l) => out.checked_mul(l),
        },
    }
}

/// Reads the header of a model: the input width, the output width and the
/// hidden layer sizes.
fn read_header(bytes: &Vec<u8>) -> (r: Option<(usize, usize, Vec<usize>)>)
    ensures
        match r {
            Some((num_inputs, num_outputs, sizes)) => {
                &&& has_header(bytes@)
                &&& addressable(topology_of(bytes@))
                &&& topology_of(bytes@) == topology_from(sizes@, num_inputs, num_outputs)
            },
            None => !has_header(bytes@) || !addressable(topology_of(bytes@)),
        },
{
    let len: usize = bytes.len();
    if len < 24 {
        assert forall|k: int| !header_ends_at(bytes@, k) by {}
        return None;
    }
    let inputs: u64 = read_word(bytes, 0);
    let outputs: u64 = read_word(bytes, 8);
    let mut sizes: Vec<usize> = Vec::new();
    let mut k: usize = 2;
    loop
        invariant
            len == bytes.len(),
            2 <= k,
            8 * k + 8 <= len,
            sizes@.len() == k - 2,
            forall|j: int| 2 <= j < k ==> !sentinel_at(bytes@, j),
            forall|i: int|
                0 <= i < k - 2 ==> (#[trigger] sizes@[i]) == word_at(bytes@, 8 * (i + 2)),
        ensures
            sentinel_at(bytes@, k as int),
        decreases len - 8 * k,
    {
        let w: u64 = read_word(bytes, 8 * k);
        if w == SENTINEL {
            break ;
        }
        if w > usize::MAX as u64 {
            proof {
                if has_header(bytes@) {
                    let end = header_end(bytes@);
                    assert(header_ends_at(bytes@, end));
                    assert(!sentinel_at(bytes@, k as int));
                    assert(end > k);
                    assert(topology_of(bytes@).layer_sizes[k - 2] == w as nat);
                }
            }
            return None;
        }
        sizes.push(w as usize);
        if len - 8 * k < 16 {
            proof {
                assert forall|e: int| !header_ends_at(bytes@, e) by {
                    if header_ends_at(bytes@, e) {
                        assert(!sentinel_at(bytes@, k as int));
                        if e > k {
                            assert(8 * e + 8 <= len);
                        }
                    }
                }
            }
            return None;
        }
        k += 1;
    }
    proof {
        assert(header_ends_at(bytes@, k as int));
        lemma_header_end_unique(bytes@, k as int);
    }
    if inputs > usize::MAX as u64 || outputs > usize::MAX as u64 {
        return None;
    }
    proof {
        let t = topology_of(bytes@);
        assert(t.layer_sizes =~= sizes_view(sizes@));
    }
    Some((inputs as usize, outputs as usize, sizes))
}

/// Whether a model of `len` bytes is exactly as long as its header says.
fn size_matches(
    len: usize,
    layer_sizes: &Vec<usize>,
    num_inputs: usize,
    num_outputs: usize,
) -> (ok: bool)
    ensures
        ok == ({
            let t = topology_from(layer_sizes@, num_inputs, num_outputs);
            len == t.header_len() + t.body_len()
        }),
{
    let ghost t = topology_from(layer_sizes@, num_inputs, num_outputs);
    let n: usize = layer_sizes.len();
    if len < 24 || (len - 24) / 8 < n {
        return false;
    }
    let mut at: usize = 8 * (3 + n);
    let mut i: usize = 0;
    while i <= n
        invariant
            n == layer_sizes.len(),
            t == topology_from(layer_sizes@, num_inputs, num_outputs),
            i <= n + 1,
            at == t.map_start(i as nat),
            at <= len,
        decreases n + 1 - i,
    {
        let shape = Network::layer_shape(layer_sizes, num_inputs, num_outputs, i);
        proof {
            lemma_body_step(t, i as nat);
            lemma_body_monotonic(t, (i + 1) as nat, t.layers());
        }
        match map_size(shape.0, shape.1) {
            None => {
                return false;
            },
            Some(m) => {
                if m > len - at {
                    return false;
                }
                at = at + m;
            },
        }
        i += 1;
    }
    at == len
}

/// Reads the maps of a model whose length matches its header.
fn read_body(
    bytes: &Vec<u8>,
    layer_sizes: &Vec<usize>,
    num_inputs: usize,
    num_outputs: usize,
) -> (maps: Vec<NeuronConnectionMap>)
    requires
        ({
            let t = topology_from(layer_sizes@, num_inputs, num_outputs);
            bytes.len() == t.header_len() + t.body_len()
        }),
    ensures
        maps@.map_values(|m: NeuronConnectionMap| m@) == network_at(
            bytes@,
            topology_from(layer_sizes@, num_inputs, num_outputs),
        ).maps,
{
    let ghost t = topology_from(layer_sizes@, num_inputs, num_outputs);
    let n: usize = layer_sizes.len();
    let mut maps: Vec<NeuronConnectionMap> = Vec::new();
    let mut at: usize = 8 * (3 + n);
    let mut i: usize = 0;
    while i <= n
        invariant
            n == layer_sizes.len(),
            t == topology_from(layer_sizes@, num_inputs, num_outputs),
            bytes.len() == t.header_len() + t.body_len(),
            i <= n + 1,
            at == t.map_start(i as nat),
            maps@.len() == i,
            forall|j: int|
                0 <= j < i ==> (#[trigger] maps@[j])@ == map_at(
                    bytes@,
                    t.map_start(j as nat) as int,
                    t.out_width(j),
                    t.in_width(j),
                ),
        decreases n + 1 - i,
    {
        let shape = Network::layer_shape(layer_sizes, num_inputs, num_outputs, i);
        proof {
            lemma_body_step(t, i as nat);
            lemma_body_monotonic(t, (i + 1) as nat, t.layers());
        }
        maps.push(read_map(bytes, at, shape.0, shape.1));
        match map_size(shape.0, shape.1) {
            None => {},
            Some(m) => {
                at = at + m;
            },
        }
        i += 1;
    }
    assert(maps@.map_values(|m: NeuronConnectionMap| m@) =~= network_at(bytes@, t).maps);
    maps
}

// ---------------------------------------------------------------------
// Operations
// ---------------------------------------------------------------------
impl Network {
    /// The shape of map `i`: its number of neurons, then the number of
    /// inputs that each of them reads.
    pub fn layer_shape(
        layer_sizes: &Vec<usize>,
        num_inputs: usize,
        num_outputs: usize,
        i: usize,
    ) -> (shape: (usize, usize))
        requires
            i <= layer_sizes.len(),
        ensures
            shape.0 == topology_from(layer_sizes@, num_inputs, num_outputs).out_width(i as int),
            shape.1 == topology_from(layer_sizes@, num_inputs, num_outputs).in_width(i as int),
    {
        let width: usize = if i == 0 {
            num_inputs
        } else {
            layer_sizes[i - 1]
        };
        let out: usize = if i == layer_sizes.len() {
            num_outputs
        } else {
            layer_sizes[i]
        };
        (out, width)
    }

    /// A new network of the given sizes, with the drawn weights and offsets.
    ///
    /// Map `i` reads `num_inputs` inputs where `i` is 0 and otherwise as many
    /// as hidden layer `i - 1` has neurons; it has the neurons of hidden
    /// layer `i`, or `num_outputs` neurons where it is the last map. Fails
    /// where the draws do not cover exactly that shape, or hold a weight
    /// that is not between -1 and 1 or an offset that is not between -1/2
    /// and 1/2.
    pub fn new_random(
        layer_sizes: Vec<usize>,
        num_inputs: usize,
        num_outputs: usize,
        activation_thresh: Double,
        trait_swap_chance: Double,
        weight_mutate_chance: Double,
        weight_mutate_amount: Double,
        offset_mutate_chance: Double,
        offset_mutate_amount: Double,
        draws: &Vec<Vec<Vec<ConnectionDraw>>>,
    ) -> (r: Result<Self, NetworkError>)
        ensures
            r is Ok <==> covers(
                tables(draws@),
                topology_from(layer_sizes@, num_inputs, num_outputs),
            ) && stack_valid(tables(draws@)),
            match r {
                Ok(n) => {
                    &&& n@.maps == drawn_maps(
                        tables(draws@),
                        activation_thresh,
                        trait_swap_chance,
                        weight_mutate_chance,
                        weight_mutate_amount,
                        offset_mutate_chance,
                        offset_mutate_amount,
                    )
                    &&& n@.topology() == topology_from(layer_sizes@, num_inputs, num_outputs)
                    &&& n@.well_shaped()
                    &&& is_chance(trait_swap_chance) && is_chance(weight_mutate_chance)
                        && is_amount(weight_mutate_amount) && is_chance(offset_mutate_chance)
                        && is_amount(offset_mutate_amount) ==> n@.well_formed()
                },
                Err(e) => e == NetworkError::ConstructionFailure,
            },
    {
        let ghost t = topology_from(layer_sizes@, num_inputs, num_outputs);
        let n: usize = layer_sizes.len();
        assert(tables(draws@).len() == draws.len());
        if n == usize::MAX || draws.len() != n + 1 {
            return Err(NetworkError::ConstructionFailure);
        }
        let mut maps: Vec<NeuronConnectionMap> = Vec::new();
        let mut i: usize = 0;
        while i <= n
            invariant
                n == layer_sizes.len(),
                n < usize::MAX,
                draws.len() == n + 1,
                t == topology_from(layer_sizes@, num_inputs, num_outputs),
                i <= n + 1,
                maps@.len() == i,
                forall|m: int|
                    0 <= m < i ==> rectangular(
                        rows((#[trigger] draws@[m])@),
                        t.out_width(m),
                        t.in_width(m),
                    ) && table_valid(rows(draws@[m]@)),
                forall|m: int|
                    0 <= m < i ==> (#[trigger] maps@[m])@ == drawn_map(
                        rows(draws@[m]@),
                        activation_thresh,
                        trait_swap_chance,
                        weight_mutate_chance,
                        weight_mutate_amount,
                        offset_mutate_chance,
                        offset_mutate_amount,
                    ),
            decreases n + 1 - i,
        {
            let shape = Network::layer_shape(&layer_sizes, num_inputs, num_outputs, i);
            match NeuronConnectionMap::new_random(
                shape.0,
                shape.1,
                activation_thresh,
                trait_swap_chance,
                weight_mutate_chance,
                weight_mutate_amount,
                offset_mutate_chance,
                offset_mutate_amount,
                &draws[i],
            ) {
                Ok(map) => {
                    maps.push(map);
                },
                Err(e) => {
                    assert(tables(draws@)[i as int] == rows(draws@[i as int]@));
                    return Err(e);
                },
            }
            i += 1;
        }
        let network = Network { maps, layer_sizes, num_inputs, num_outputs };
        proof {
            assert(network@.maps =~= drawn_maps(
                tables(draws@),
                activation_thresh,
                trait_swap_chance,
                weight_mutate_chance,
                weight_mutate_amount,
                offset_mutate_chance,
                offset_mutate_amount,
            ));
            assert forall|m: int| 0 <= m < tables(draws@).len() implies rectangular(
                #[trigger] tables(draws@)[m],
                t.out_width(m),
                t.in_width(m),
            ) && table_valid(tables(draws@)[m]) by {
                assert(tables(draws@)[m] == rows(draws@[m]@));
            }
            if is_chance(trait_swap_chance) && is_chance(weight_mutate_chance) && is_amount(
                weight_mutate_amount,
            ) && is_chance(offset_mutate_chance) && is_amount(offset_mutate_amount) {
                assert forall|m: int| 0 <= m < network@.maps.len() implies map_well_formed(
                    #[trigger] network@.maps[m],
                ) by {
                    lemma_drawn_well_formed(
                        tables(draws@)[m],
                        activation_thresh,
                        trait_swap_chance,
                        weight_mutate_chance,
                        weight_mutate_amount,
                        offset_mutate_chance,
                        offset_mutate_amount,
                    );
                }
            }
        }
        Ok(network)
    }

    /// The forward pass: the packed input enters the first map, each map's
    /// packed output enters the next, and the last map's output is returned.
    /// The output depends on the network and the input alone. Every map
    /// must find a bit for each connection in what reaches it.
    pub fn result(&self, input_bits: &Vec<u8>) -> (output: Vec<u8>)
        requires
            runs(self@.maps, input_bits@, self@.maps.len()),
        ensures
            output@ == forward(self@.maps, input_bits@, self@.maps.len()),
            self@.maps.len() > 0 ==> output@.len() == self@.maps.last().len() / 8,
    {
        let mut last_bits: Vec<u8> = input_bits.clone();
        assert(last_bits@ =~= input_bits@);
        let mut i: usize = 0;
        while i < self.maps.len()
            invariant
                i <= self.maps.len(),
                runs(self@.maps, input_bits@, self@.maps.len()),
                last_bits@ == forward(self@.maps, input_bits@, i as nat),
            decreases self.maps.len() - i,
        {
            assert(self@.maps[i as int] == self.maps[i as int]@);
            last_bits = self.maps[i].layer_activations(&last_bits);
            i += 1;
        }
        last_bits
    }

    /// The forward pass, where the network runs on the input, and `None`
    /// where some map finds too few bits in what reaches it.
    pub fn checked_result(&self, input_bits: &Vec<u8>) -> (output: Option<Vec<u8>>)
        ensures
            output is Some <==> runs(self@.maps, input_bits@, self@.maps.len()),
            output is Some ==> output->0@ == forward(
                self@.maps,
                input_bits@,
                self@.maps.len(),
            ),
    {
        let mut last_bits: Vec<u8> = input_bits.clone();
        assert(last_bits@ =~= input_bits@);
        let mut i: usize = 0;
        while i < self.maps.len()
            invariant
                i <= self.maps.len(),
                runs(self@.maps, input_bits@, i as nat),
                last_bits@ == forward(self@.maps, input_bits@, i as nat),
            decreases self.maps.len() - i,
        {
            assert(self@.maps[i as int] == self.maps[i as int]@);
            if !self.maps[i].accepts(last_bits.len()) {
                return None;
            }
            last_bits = self.maps[i].layer_activations(&last_bits);
            i += 1;
        }
        Some(last_bits)
    }

    /// Crossover with another network: map by map, each neuron trades with
    /// the neuron at its place in the other network, and swaps whole
    /// connections with it wherever `swaps` says so and its own swap chance
    /// is above zero. The swap chances of the other network are not asked.
    /// Sizes stay as they are. The two networks are borrowed exclusively,
    /// so no network is crossed with itself.
    pub fn random_trade(&mut self, other: &mut Self, swaps: &Vec<Vec<Vec<bool>>>)
        ensures
            final(self)@.maps == traded_maps(
                old(self)@.maps,
                old(other)@.maps,
                permitted_tables(tables(swaps@), old(self)@.maps),
            ),
            final(other)@.maps == traded_maps(
                old(other)@.maps,
                old(self)@.maps,
                permitted_tables(tables(swaps@), old(self)@.maps),
            ),
            final(self)@.topology() == old(self)@.topology(),
            final(other)@.topology() == old(other)@.topology(),
            old(self)@.well_shaped() ==> final(self)@.well_shaped(),
            old(other)@.well_shaped() ==> final(other)@.well_shaped(),
            old(self)@.well_formed() && old(other)@.well_formed() ==> final(self)@.well_formed()
                && final(other)@.well_formed(),
    {
        let mut n: usize = self.maps.len();
        if other.maps.len() < n {
            n = other.maps.len();
        }
        if swaps.len() < n {
            n = swaps.len();
        }
        let mut i: usize = 0;
        while i < n
            invariant
                i <= n,
                n <= self.maps.len(),
                n <= other.maps.len(),
                n <= swaps.len(),
                self.maps.len() == old(self).maps.len(),
                other.maps.len() == old(other).maps.len(),
                self.layer_sizes == old(self).layer_sizes,
                self.num_inputs == old(self).num_inputs,
                self.num_outputs == old(self).num_outputs,
                other.layer_sizes == old(other).layer_sizes,
                other.num_inputs == old(other).num_inputs,
                other.num_outputs == old(other).num_outputs,
                forall|j: int|
                    0 <= j < i ==> (#[trigger] self.maps@[j])@ == traded_map(
                        old(self).maps@[j]@,
                        old(other).maps@[j]@,
                        permitted_rows(rows(swaps@[j]@), old(self).maps@[j]@),
                    ),
                forall|j: int|
                    0 <= j < i ==> (#[trigger] other.maps@[j])@ == traded_map(
                        old(other).maps@[j]@,
                        old(self).maps@[j]@,
                        permitted_rows(rows(swaps@[j]@), old(self).maps@[j]@),
                    ),
                forall|j: int| i <= j < self.maps.len() ==> self.maps@[j] == old(self).maps@[j],
                forall|j: int| i <= j < other.maps.len() ==> other.maps@[j] == old(other).maps@[j],
            decreases n - i,
        {
            self.maps[i].trade_with(&mut other.maps[i], &swaps[i]);
            i += 1;
        }
        assert(self@.maps =~= traded_maps(
            old(self)@.maps,
            old(other)@.maps,
            permitted_tables(tables(swaps@), old(self)@.maps),
        ));
        assert(other@.maps =~= traded_maps(
            old(other)@.maps,
            old(self)@.maps,
            permitted_tables(tables(swaps@), old(self)@.maps),
        ));
        proof {
            if old(self)@.well_formed() && old(other)@.well_formed() {
                let permitted = permitted_tables(tables(swaps@), old(self)@.maps);
                assert forall|m: int| 0 <= m < self@.maps.len() implies map_well_formed(
                    #[trigger] self@.maps[m],
                ) by {
                    if m < old(other)@.maps.len() && m < permitted.len() {
                        lemma_traded_well_formed(
                            old(self)@.maps[m],
                            old(other)@.maps[m],
                            permitted[m],
                        );
                    }
                }
                assert forall|m: int| 0 <= m < other@.maps.len() implies map_well_formed(
                    #[trigger] other@.maps[m],
                ) by {
                    if m < old(self)@.maps.len() && m < permitted.len() {
                        lemma_traded_well_formed(
                            old(other)@.maps[m],
                            old(self)@.maps[m],
                            permitted[m],
                        );
                    }
                }
            }
        }
    }

    /// Mutates every map that has a table of draws, each connection by its
    /// own. Sizes stay as they are.
    pub fn mutate(&mut self, draws: &Vec<Vec<Vec<MutationDraw>>>)
        ensures
            final(self)@.maps == mutated_maps(old(self)@.maps, tables(draws@)),
            final(self)@.topology() == old(self)@.topology(),
            old(self)@.well_shaped() ==> final(self)@.well_shaped(),
            old(self)@.well_formed() ==> final(self)@.well_formed(),
    {
        let mut n: usize = self.maps.len();
        if draws.len() < n {
            n = draws.len();
        }
        let mut i: usize = 0;
        while i < n
            invariant
                i <= n,
                n <= self.maps.len(),
                n <= draws.len(),
                self.maps.len() == old(self).maps.len(),
                self.layer_sizes == old(self).layer_sizes,
                self.num_inputs == old(self).num_inputs,
                self.num_outputs == old(self).num_outputs,
                forall|j: int|
                    0 <= j < i ==> (#[trigger] self.maps@[j])@ == mutated_map(
                        old(self).maps@[j]@,
                        rows(draws@[j]@),
                    ),
                forall|j: int| i <= j < self.maps.len() ==> self.maps@[j] == old(self).maps@[j],
            decreases n - i,
        {
            self.maps[i].mutate_all(&draws[i]);
            i += 1;
        }
        assert(self@.maps =~= mutated_maps(old(self)@.maps, tables(draws@)));
        proof {
            if old(self)@.well_formed() {
                assert forall|m: int| 0 <= m < self@.maps.len() implies map_well_formed(
                    #[trigger] self@.maps[m],
                ) by {
                    if m < tables(draws@).len() {
                        lemma_mutated_well_formed(old(self)@.maps[m], tables(draws@)[m]);
                    }
                }
            }
        }
    }

    /// Loads the network that a model stores.
    ///
    /// Fails with `MalformedHeader` where no sentinel closes the header or a
    /// declared size cannot be held, and with `SizeMismatch` where the body
    /// is longer or shorter than the header says.
    pub fn from_file(bytes: &Vec<u8>) -> (r: Result<Network, NetworkError>)
        ensures
            match r {
                Ok(n) => parse(bytes@) == Ok::<NetworkView, NetworkError>(n@) && n@.well_shaped(),
                Err(e) => parse(bytes@) == Err::<NetworkView, NetworkError>(e),
            },
            r matches Err(NetworkError::MalformedHeader) <==> !has_header(bytes@) || !addressable(
                topology_of(bytes@),
            ),
            r matches Err(NetworkError::SizeMismatch) <==> has_header(bytes@) && addressable(
                topology_of(bytes@),
            ) && bytes@.len() != topology_of(bytes@).header_len() + topology_of(bytes@).body_len(),
    {
        match read_header(bytes) {
            None => Err(NetworkError::MalformedHeader),
            Some((num_inputs, num_outputs, layer_sizes)) => {
                if !size_matches(bytes.len(), &layer_sizes, num_inputs, num_outputs) {
                    return Err(NetworkError::SizeMismatch);
                }
                let maps = read_body(bytes, &layer_sizes, num_inputs, num_outputs);
                Ok(Network { maps, layer_sizes, num_inputs, num_outputs })
            },
        }
    }

    /// The model that stores this network: the header, then every map.
    pub fn save_model(&self) -> (bytes: Vec<u8>)
        ensures
            bytes@ == model_bytes(self@),
    {
        let mut out: Vec<u8> = Vec::new();
        push_word(&mut out, self.num_inputs as u64);
        push_word(&mut out, self.num_outputs as u64);
        let ghost widths = out@;
        let mut i: usize = 0;
        while i < self.layer_sizes.len()
            invariant
                i <= self.layer_sizes.len(),
                out@ == widths + sizes_bytes(sizes_view(self.layer_sizes@).take(i as int)),
            decreases self.layer_sizes.len() - i,
        {
            push_word(&mut out, self.layer_sizes[i] as u64);
            proof {
                let next = sizes_view(self.layer_sizes@).take(i + 1);
                assert(next.drop_last() =~= sizes_view(self.layer_sizes@).take(i as int));
                assert(out@ =~= widths + sizes_bytes(next));
            }
            i += 1;
        }
        assert(sizes_view(self.layer_sizes@).take(i as int) =~= sizes_view(self.layer_sizes@));
        push_word(&mut out, SENTINEL);
        let ghost header = out@;
        assert(header =~= header_bytes(self@.topology()));
        let mut m: usize = 0;
        while m < self.maps.len()
            invariant
                m <= self.maps.len(),
                out@ == header + body_bytes(self@.maps.take(m as int)),
            decreases self.maps.len() - m,
        {
            write_map(&mut out, &self.maps[m]);
            proof {
                let next = self@.maps.take(m + 1);
                assert(next.drop_last() =~= self@.maps.take(m as int));
                assert(next.last() == self.maps[m as int]@);
                assert(out@ =~= header + body_bytes(next));
            }
            m += 1;
        }
        assert(self@.maps.take(m as int) =~= self@.maps);
        out
    }
}

} // verus!
