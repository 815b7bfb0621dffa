//! Connections between neurons, the set feeding one neuron, and the map
//! feeding one layer.

use crate::arith::{
    between, bounded, gated, greater, is_amount, is_between, is_chance,
    lemma_nothing_within_zero, positive, sum,
};
use crate::bits::{bit_at, input_bit, pack, pack_bits};
use crate::double::{lemma_zero_magnitude, Double, HALF, ONE};
use crate::error::NetworkError;
use vstd::multiset::Multiset;
use vstd::prelude::*;
use vstd::seq_lib::to_multiset_build;

verus! {

/// One weighted, offset edge between an input and a neuron, with the
/// parameters that govern its own mutation.
#[derive(Debug, Clone, Copy, PartialEq, Eq)]
pub struct NeuronConnection {
    pub weight: Double,
    pub offset: Double,
    pub weight_mutate_chance: Double,
    pub weight_mutate_amount: Double,
    pub offset_mutate_chance: Double,
    pub offset_mutate_amount: Double,
}

impl NeuronConnection {
    /// The mutation parameters are what they are meant to be: the chances
    /// are probabilities, and the amounts are not below zero.
    pub open spec fn well_formed(self) -> bool {
        &&& is_chance(self.weight_mutate_chance)
        &&& is_amount(self.weight_mutate_amount)
        &&& is_chance(self.offset_mutate_chance)
        &&& is_amount(self.offset_mutate_amount)
    }
}

/// All connections that feed one neuron, with the neuron's threshold and the
/// chance that one of its connections is swapped in a crossover.
#[derive(Debug, Clone, PartialEq, Eq)]
pub struct NeuronConnectionSet {
    pub conns: Vec<NeuronConnection>,
    pub activation_thresh: Double,
    pub trait_swap_chance: Double,
}

/// The mathematical content of a `NeuronConnectionSet`.
pub ghost struct SetView {
    pub conns: Seq<NeuronConnection>,
    pub activation_thresh: Double,
    pub trait_swap_chance: Double,
}

impl SetView {
    /// The swap chance is a probability, and every connection is well
    /// formed.
    pub open spec fn well_formed(self) -> bool {
        &&& is_chance(self.trait_swap_chance)
        &&& forall|c: int| 0 <= c < self.conns.len() ==> (#[trigger] self.conns[c]).well_formed()
    }
}

impl View for NeuronConnectionSet {
    type V = SetView;

    open spec fn view(&self) -> SetView {
        SetView {
            conns: self.conns@,
            activation_thresh: self.activation_thresh,
            trait_swap_chance: self.trait_swap_chance,
        }
    }
}

/// One layer's transform: a connection set for each neuron of the layer.
#[derive(Debug, Clone, PartialEq, Eq)]
pub struct NeuronConnectionMap {
    pub map: Vec<NeuronConnectionSet>,
}

impl View for NeuronConnectionMap {
    type V = Seq<SetView>;

    open spec fn view(&self) -> Seq<SetView> {
        self.map@.map_values(|s: NeuronConnectionSet| s@)
    }
}

/// Every neuron of the map is well formed.
pub open spec fn map_well_formed(map: Seq<SetView>) -> bool {
    forall|s: int| 0 <= s < map.len() ==> (#[trigger] map[s]).well_formed()
}

// ---------------------------------------------------------------------
// Draws
// ---------------------------------------------------------------------
/// The weight and offset drawn for a new connection.
#[derive(Debug, Clone, Copy, PartialEq, Eq)]
pub struct ConnectionDraw {
    pub weight: Double,
    pub offset: Double,
}

/// The pattern of the largest absolute value of a new weight.
pub const WEIGHT_BOUND: u64 = ONE;

/// The pattern of the largest absolute value of a new offset.
pub const OFFSET_BOUND: u64 = HALF;

impl ConnectionDraw {
    /// The weight lies between -1 and 1 and the offset between -1/2 and 1/2,
    /// bounds included.
    pub open spec fn valid(self) -> bool {
        &&& bounded(self.weight, Double { bits: WEIGHT_BOUND })
        &&& bounded(self.offset, Double { bits: OFFSET_BOUND })
    }

    /// Whether the weight lies between -1 and 1 and the offset between -1/2
    /// and 1/2, bounds included.
    pub fn is_valid(&self) -> (ok: bool)
        ensures
            ok == self.valid(),
    {
        self.weight.within(Double { bits: WEIGHT_BOUND }) && self.offset.within(
            Double { bits: OFFSET_BOUND },
        )
    }
}

/// The outcome of a connection's two mutation draws: a new weight where the
/// weight mutates, a new offset where the offset mutates.
#[derive(Debug, Clone, Copy, PartialEq, Eq)]
pub struct MutationDraw {
    pub weight: Option<Double>,
    pub offset: Option<Double>,
}

/// The rows of a table, each as a sequence.
pub open spec fn rows<T>(table: Seq<Vec<T>>) -> Seq<Seq<T>> {
    table.map_values(|row: Vec<T>| row@)
}

/// The tables of a stack, each as a sequence of rows.
pub open spec fn tables<T>(stack: Seq<Vec<Vec<T>>>) -> Seq<Seq<Seq<T>>> {
    stack.map_values(|table: Vec<Vec<T>>| rows(table@))
}

/// Every draw of the run is valid.
pub open spec fn all_valid(draws: Seq<ConnectionDraw>) -> bool {
    forall|i: int| 0 <= i < draws.len() ==> (#[trigger] draws[i]).valid()
}

/// Every draw of the table is valid.
pub open spec fn table_valid(draws: Seq<Seq<ConnectionDraw>>) -> bool {
    forall|s: int| 0 <= s < draws.len() ==> all_valid(#[trigger] draws[s])
}

/// `table` has `height` rows of `width` entries each.
pub open spec fn rectangular<T>(table: Seq<Seq<T>>, height: nat, width: nat) -> bool {
    &&& table.len() == height
    &&& forall|i: int| 0 <= i < table.len() ==> (#[trigger] table[i]).len() == width
}

// ---------------------------------------------------------------------
// Construction from draws
// ---------------------------------------------------------------------
/// The connection with the drawn weight and offset and the given mutation
/// parameters.
pub open spec fn drawn_connection(
    draw: ConnectionDraw,
    weight_mutate_chance: Double,
    weight_mutate_amount: Double,
    offset_mutate_chance: Double,
    offset_mutate_amount: Double,
) -> NeuronConnection {
    NeuronConnection {
        weight: draw.weight,
        offset: draw.offset,
        weight_mutate_chance,
        weight_mutate_amount,
        offset_mutate_chance,
        offset_mutate_amount,
    }
}

/// The neuron with one connection for each draw, in order.
pub open spec fn drawn_set(
    draws: Seq<ConnectionDraw>,
    activation_thresh: Double,
    trait_swap_chance: Double,
    weight_mutate_chance: Double,
    weight_mutate_amount: Double,
    offset_mutate_chance: Double,
    offset_mutate_amount: Double,
) -> SetView {
    SetView {
        conns: Seq::new(
            draws.len(),
            |c: int|
                drawn_connection(
                    draws[c],
                    weight_mutate_chance,
                    weight_mutate_amount,
                    offset_mutate_chance,
                    offset_mutate_amount,
                ),
        ),
        activation_thresh,
        trait_swap_chance,
    }
}

/// The map with one neuron for each row of draws, in order.
pub open spec fn drawn_map(
    draws: Seq<Seq<ConnectionDraw>>,
    activation_thresh: Double,
    trait_swap_chance: Double,
    weight_mutate_chance: Double,
    weight_mutate_amount: Double,
    offset_mutate_chance: Double,
    offset_mutate_amount: Double,
) -> Seq<SetView> {
    Seq::new(
        draws.len(),
        |s: int|
            drawn_set(
                draws[s],
                activation_thresh,
                trait_swap_chance,
                weight_mutate_chance,
                weight_mutate_amount,
                offset_mutate_chance,
                offset_mutate_amount,
            ),
    )
}

/// A map drawn with well-formed parameters is well formed.
pub proof fn lemma_drawn_well_formed(
    draws: Seq<Seq<ConnectionDraw>>,
    activation_thresh: Double,
    trait_swap_chance: Double,
    weight_mutate_chance: Double,
    weight_mutate_amount: Double,
    offset_mutate_chance: Double,
    offset_mutate_amount: Double,
)
    requires
        is_chance(trait_swap_chance),
        is_chance(weight_mutate_chance),
        is_amount(weight_mutate_amount),
        is_chance(offset_mutate_chance),
        is_amount(offset_mutate_amount),
    ensures
        map_well_formed(
            drawn_map(
                draws,
                activation_thresh,
                trait_swap_chance,
                weight_mutate_chance,
                weight_mutate_amount,
                offset_mutate_chance,
                offset_mutate_amount,
            ),
        ),
{
}

// ---------------------------------------------------------------------
// Activation
// ---------------------------------------------------------------------
/// The weighted input that the first `n` connections pass on: starting from
/// zero, each connection in turn adds its weight where its input bit is set,
/// and its offset in any case.
pub open spec fn weighted_sum(conns: Seq<NeuronConnection>, input: Seq<u8>, n: nat) -> Double
    decreases n,
{
    if n == 0 {
        Double { bits: 0 }
    } else {
        sum(
            weighted_sum(conns, input, (n - 1) as nat),
            sum(gated(conns[n - 1].weight, bit_at(input, n - 1)), conns[n - 1].offset),
        )
    }
}

/// The neuron fires: the weighted input of all its connections is above its
/// threshold.
pub open spec fn fires(set: SetView, input: Seq<u8>) -> bool {
    greater(weighted_sum(set.conns, input, set.conns.len()), set.activation_thresh)
}

/// A packed input of `len` bytes has a bit for every connection of the
/// neuron.
pub open spec fn covered(set: SetView, len: nat) -> bool {
    set.conns.len() <= 8 * len
}

/// A packed input of `len` bytes has a bit for every connection of every
/// neuron of the map.
pub open spec fn map_covered(map: Seq<SetView>, len: nat) -> bool {
    forall|s: int| 0 <= s < map.len() ==> covered(#[trigger] map[s], len)
}

/// Which neurons of the map fire, in order.
pub open spec fn activations(map: Seq<SetView>, input: Seq<u8>) -> Seq<bool> {
    Seq::new(map.len(), |s: int| fires(map[s], input))
}

/// The packed output of the map: the activations of its neurons, eight to a
/// byte. The activations that follow the last full group of eight are left
/// out.
pub open spec fn layer_output(map: Seq<SetView>, input: Seq<u8>) -> Seq<u8> {
    pack(activations(map, input))
}

// ---------------------------------------------------------------------
// Mutation
// ---------------------------------------------------------------------
/// The value after a mutation draw: what was drawn, where the chance of a
/// mutation is above zero and something was drawn that lies strictly within
/// `amount` of the old value, and the old value otherwise.
pub open spec fn redrawn(old: Double, chance: Double, amount: Double, draw: Option<Double>)
    -> Double {
    match draw {
        Some(new) => if positive(chance) && between(new, old, amount) {
            new
        } else {
            old
        },
        None => old,
    }
}

/// The connection after its mutation draws: the weight and the offset are
/// redrawn, each by its own chance and within its own amount, and nothing
/// else changes.
pub open spec fn mutated(c: NeuronConnection, draw: MutationDraw) -> NeuronConnection {
    NeuronConnection {
        weight: redrawn(c.weight, c.weight_mutate_chance, c.weight_mutate_amount, draw.weight),
        offset: redrawn(c.offset, c.offset_mutate_chance, c.offset_mutate_amount, draw.offset),
        ..c
    }
}

/// A run of connections after mutation: each connection that has draws is
/// mutated by them.
pub open spec fn mutated_run(cs: Seq<NeuronConnection>, draws: Seq<MutationDraw>) -> Seq<
    NeuronConnection,
> {
    Seq::new(
        cs.len(),
        |i: int|
            if i < draws.len() {
                mutated(cs[i], draws[i])
            } else {
                cs[i]
            },
    )
}

/// A neuron after mutation of its connections.
pub open spec fn mutated_set(s: SetView, draws: Seq<MutationDraw>) -> SetView {
    SetView { conns: mutated_run(s.conns, draws), ..s }
}

/// A map after mutation: each neuron that has a row of draws is mutated by
/// it.
pub open spec fn mutated_map(m: Seq<SetView>, draws: Seq<Seq<MutationDraw>>) -> Seq<SetView> {
    Seq::new(
        m.len(),
        |s: int|
            if s < draws.len() {
                mutated_set(m[s], draws[s])
            } else {
                m[s]
            },
    )
}

/// The connection after a series of mutations, one for each of the draws in
/// turn.
pub open spec fn mutated_in_turn(c: NeuronConnection, draws: Seq<MutationDraw>) -> NeuronConnection
    decreases draws.len(),
{
    if draws.len() == 0 {
        c
    } else {
        mutated(mutated_in_turn(c, draws.drop_last()), draws.last())
    }
}

/// A mutation chance of zero leaves the value as it is, whatever is drawn;
/// so does a mutation amount of zero, within which no other value lies.
pub proof fn lemma_mutation_without_effect(
    old: Double,
    chance: Double,
    amount: Double,
    draw: Option<Double>,
)
    requires
        chance.is_zero() || amount.is_zero(),
    ensures
        redrawn(old, chance, amount, draw) == old,
{
    if let Some(new) = draw {
        if amount.is_zero() {
            lemma_nothing_within_zero(new, old, amount);
        } else {
            lemma_zero_magnitude(chance);
        }
    }
}

/// However often a connection is mutated and whatever is drawn, its
/// mutation parameters stay as they are; its weight stays as it is where
/// the chance or the amount of a weight mutation is zero, and so does its
/// offset where the chance or the amount of an offset mutation is zero.
pub proof fn lemma_mutations_without_effect(c: NeuronConnection, draws: Seq<MutationDraw>)
    ensures
        ({
            let after = mutated_in_turn(c, draws);
            &&& after.weight_mutate_chance == c.weight_mutate_chance
            &&& after.weight_mutate_amount == c.weight_mutate_amount
            &&& after.offset_mutate_chance == c.offset_mutate_chance
            &&& after.offset_mutate_amount == c.offset_mutate_amount
            &&& c.weight_mutate_chance.is_zero() || c.weight_mutate_amount.is_zero()
                ==> after.weight == c.weight
            &&& c.offset_mutate_chance.is_zero() || c.offset_mutate_amount.is_zero()
                ==> after.offset == c.offset
        }),
    decreases draws.len(),
{
    if draws.len() > 0 {
        let before = mutated_in_turn(c, draws.drop_last());
        lemma_mutations_without_effect(c, draws.drop_last());
        if c.weight_mutate_chance.is_zero() || c.weight_mutate_amount.is_zero() {
            lemma_mutation_without_effect(
                before.weight,
                c.weight_mutate_chance,
                c.weight_mutate_amount,
                draws.last().weight,
            );
        }
        if c.offset_mutate_chance.is_zero() || c.offset_mutate_amount.is_zero() {
            lemma_mutation_without_effect(
                before.offset,
                c.offset_mutate_chance,
                c.offset_mutate_amount,
                draws.last().offset,
            );
        }
    }
}

/// Mutation leaves a well-formed map well formed.
pub proof fn lemma_mutated_well_formed(map: Seq<SetView>, draws: Seq<Seq<MutationDraw>>)
    requires
        map_well_formed(map),
    ensures
        map_well_formed(mutated_map(map, draws)),
{
    assert forall|s: int| 0 <= s < map.len() implies (#[trigger] mutated_map(
        map,
        draws,
    )[s]).well_formed() by {
        assert(map[s].well_formed());
        let after = mutated_map(map, draws)[s];
        assert forall|c: int| 0 <= c < after.conns.len() implies (
        #[trigger] after.conns[c]).well_formed() by {
            assert(map[s].conns[c].well_formed());
        }
    }
}

// ---------------------------------------------------------------------
// Crossover
// ---------------------------------------------------------------------
/// Where a run of connections stands after a crossover: at each index that
/// both runs and `swaps` cover and at which `swaps` holds, it has the other
/// run's connection; everywhere else it keeps its own.
pub open spec fn traded(
    mine: Seq<NeuronConnection>,
    theirs: Seq<NeuronConnection>,
    swaps: Seq<bool>,
) -> Seq<NeuronConnection> {
    Seq::new(
        mine.len(),
        |i: int|
            if i < theirs.len() && i < swaps.len() && swaps[i] {
                theirs[i]
            } else {
                mine[i]
            },
    )
}

/// The swaps that a swap chance permits: those that were drawn where the
/// chance is above zero, and none otherwise.
pub open spec fn permitted(swaps: Seq<bool>, chance: Double) -> Seq<bool> {
    if positive(chance) {
        swaps
    } else {
        Seq::empty()
    }
}

/// The swaps that the neurons of a map permit, each by its own swap chance.
/// Rows beyond the map, which no neuron uses, stay as they are.
pub open spec fn permitted_rows(swaps: Seq<Seq<bool>>, map: Seq<SetView>) -> Seq<Seq<bool>> {
    Seq::new(
        swaps.len(),
        |s: int|
            if s < map.len() {
                permitted(swaps[s], map[s].trait_swap_chance)
            } else {
                swaps[s]
            },
    )
}

/// A neuron after a crossover with another: its connections are traded, its
/// threshold and swap chance stay.
pub open spec fn traded_set(mine: SetView, theirs: SetView, swaps: Seq<bool>) -> SetView {
    SetView { conns: traded(mine.conns, theirs.conns, swaps), ..mine }
}

/// A map after a crossover with another: each neuron that the other map and
/// `swaps` cover is traded with the neuron at its index.
pub open spec fn traded_map(mine: Seq<SetView>, theirs: Seq<SetView>, swaps: Seq<Seq<bool>>) -> Seq<
    SetView,
> {
    Seq::new(
        mine.len(),
        |s: int|
            if s < theirs.len() && s < swaps.len() {
                traded_set(mine[s], theirs[s], swaps[s])
            } else {
                mine[s]
            },
    )
}

/// All connections of a map, as a multiset.
pub open spec fn map_connections(m: Seq<SetView>) -> Multiset<NeuronConnection>
    decreases m.len(),
{
    if m.len() == 0 {
        Multiset::empty()
    } else {
        map_connections(m.drop_last()).add(m.last().conns.to_multiset())
    }
}

/// Two equal sums of multisets stay equal when equal sums are added to them.
proof fn lemma_sum_pairs<V>(
    p: Multiset<V>,
    q: Multiset<V>,
    r: Multiset<V>,
    s: Multiset<V>,
    u: Multiset<V>,
    v: Multiset<V>,
    w: Multiset<V>,
    z: Multiset<V>,
)
    requires
        p.add(q) == r.add(s),
        u.add(v) == w.add(z),
    ensures
        p.add(u).add(q.add(v)) == r.add(w).add(s.add(z)),
{
    broadcast use vstd::multiset::group_multiset_axioms;

    assert forall|e: V|
        p.add(u).add(q.add(v)).count(e) == #[trigger] r.add(w).add(s.add(z)).count(e) by {
        assert(p.add(q).count(e) == r.add(s).count(e));
        assert(u.add(v).count(e) == w.add(z).count(e));
        assert(p.add(q).count(e) == p.count(e) + q.count(e));
        assert(r.add(s).count(e) == r.count(e) + s.count(e));
        assert(u.add(v).count(e) == u.count(e) + v.count(e));
        assert(w.add(z).count(e) == w.count(e) + z.count(e));
        assert(p.add(u).add(q.add(v)).count(e) == p.add(u).count(e) + q.add(v).count(e));
        assert(r.add(w).add(s.add(z)).count(e) == r.add(w).count(e) + s.add(z).count(e));
    }
    assert(p.add(u).add(q.add(v)) =~= r.add(w).add(s.add(z)));
}

/// The multiset of a run that ends in `last` is that of the run before it
/// with `last` added.
proof fn lemma_multiset_of_push(
    whole: Seq<NeuronConnection>,
    front: Seq<NeuronConnection>,
    last: NeuronConnection,
)
    requires
        whole == front.push(last),
    ensures
        whole.to_multiset() == front.to_multiset().add(Multiset::singleton(last)),
{
    to_multiset_build(front, last);
}

/// The multiset of a run is that of itself with nothing added.
proof fn lemma_multiset_of_same(whole: Seq<NeuronConnection>)
    ensures
        whole.to_multiset() == whole.to_multiset().add(Multiset::empty()),
{
    assert(whole.to_multiset() =~= whole.to_multiset().add(Multiset::empty()));
}

/// A crossover of two runs of connections only moves connections between
/// them: taken together, the two runs hold after it exactly the connections
/// that they held before, each as often as before.
pub proof fn lemma_trade_conserves(
    mine: Seq<NeuronConnection>,
    theirs: Seq<NeuronConnection>,
    swaps: Seq<bool>,
)
    ensures
        traded(mine, theirs, swaps).to_multiset().add(traded(theirs, mine, swaps).to_multiset())
            == mine.to_multiset().add(theirs.to_multiset()),
    decreases mine.len() + theirs.len(),
{
    let after_mine = traded(mine, theirs, swaps);
    let after_theirs = traded(theirs, mine, swaps);
    let none = Multiset::<NeuronConnection>::empty();
    if mine.len() == 0 && theirs.len() == 0 {
        assert(after_mine =~= mine);
        assert(after_theirs =~= theirs);
    } else if mine.len() > theirs.len() {
        let rest = mine.drop_last();
        let one = Multiset::singleton(mine.last());
        lemma_trade_conserves(rest, theirs, swaps);
        assert(mine =~= rest.push(mine.last()));
        assert(after_mine =~= traded(rest, theirs, swaps).push(mine.last()));
        assert(after_theirs =~= traded(theirs, rest, swaps));
        lemma_multiset_of_push(mine, rest, mine.last());
        lemma_multiset_of_push(after_mine, traded(rest, theirs, swaps), mine.last());
        lemma_multiset_of_same(after_theirs);
        lemma_multiset_of_same(theirs);
        assert(one.add(none) == one.add(none));
        lemma_sum_pairs(
            traded(rest, theirs, swaps).to_multiset(),
            after_theirs.to_multiset(),
            rest.to_multiset(),
            theirs.to_multiset(),
            one,
            none,
            one,
            none,
        );
    } else if theirs.len() > mine.len() {
        let rest = theirs.drop_last();
        let one = Multiset::singleton(theirs.last());
        lemma_trade_conserves(mine, rest, swaps);
        assert(theirs =~= rest.push(theirs.last()));
        assert(after_theirs =~= traded(rest, mine, swaps).push(theirs.last()));
        assert(after_mine =~= traded(mine, rest, swaps));
        lemma_multiset_of_push(theirs, rest, theirs.last());
        lemma_multiset_of_push(after_theirs, traded(rest, mine, swaps), theirs.last());
        lemma_multiset_of_same(after_mine);
        lemma_multiset_of_same(mine);
        assert(none.add(one) == none.add(one));
        lemma_sum_pairs(
            after_mine.to_multiset(),
            traded(rest, mine, swaps).to_multiset(),
            mine.to_multiset(),
            rest.to_multiset(),
            none,
            one,
            none,
            one,
        );
    } else {
        let rest_mine = mine.drop_last();
        let rest_theirs = theirs.drop_last();
        lemma_trade_conserves(rest_mine, rest_theirs, swaps);
        assert(mine =~= rest_mine.push(mine.last()));
        assert(theirs =~= rest_theirs.push(theirs.last()));
        assert(after_mine =~= traded(rest_mine, rest_theirs, swaps).push(after_mine.last()));
        assert(after_theirs =~= traded(rest_theirs, rest_mine, swaps).push(after_theirs.last()));
        lemma_multiset_of_push(mine, rest_mine, mine.last());
        lemma_multiset_of_push(theirs, rest_theirs, theirs.last());
        lemma_multiset_of_push(
            after_mine,
            traded(rest_mine, rest_theirs, swaps),
            after_mine.last(),
        );
        lemma_multiset_of_push(
            after_theirs,
            traded(rest_theirs, rest_mine, swaps),
            after_theirs.last(),
        );
        assert(Multiset::singleton(after_mine.last()).add(Multiset::singleton(after_theirs.last()))
            =~= Multiset::singleton(mine.last()).add(Multiset::singleton(theirs.last())));
        lemma_sum_pairs(
            traded(rest_mine, rest_theirs, swaps).to_multiset(),
            traded(rest_theirs, rest_mine, swaps).to_multiset(),
            rest_mine.to_multiset(),
            rest_theirs.to_multiset(),
            Multiset::singleton(after_mine.last()),
            Multiset::singleton(after_theirs.last()),
            Multiset::singleton(mine.last()),
            Multiset::singleton(theirs.last()),
        );
    }
}

/// A crossover of two maps only moves connections between them: taken
/// together, the two maps hold after it exactly the connections that they
/// held before, each as often as before.
pub proof fn lemma_map_trade_conserves(
    mine: Seq<SetView>,
    theirs: Seq<SetView>,
    swaps: Seq<Seq<bool>>,
)
    ensures
        map_connections(traded_map(mine, theirs, swaps)).add(
            map_connections(traded_map(theirs, mine, swaps)),
        ) == map_connections(mine).add(map_connections(theirs)),
    decreases mine.len() + theirs.len(),
{
    let after_mine = traded_map(mine, theirs, swaps);
    let after_theirs = traded_map(theirs, mine, swaps);
    let none = Multiset::<NeuronConnection>::empty();
    if mine.len() == 0 && theirs.len() == 0 {
        assert(after_mine =~= mine);
        assert(after_theirs =~= theirs);
    } else if mine.len() > theirs.len() {
        let rest = mine.drop_last();
        let one = mine.last().conns.to_multiset();
        lemma_map_trade_conserves(rest, theirs, swaps);
        assert(after_mine.drop_last() =~= traded_map(rest, theirs, swaps));
        assert(after_mine.last() == mine.last());
        assert(after_theirs =~= traded_map(theirs, rest, swaps));
        assert(map_connections(after_theirs) =~= map_connections(after_theirs).add(none));
        assert(map_connections(theirs) =~= map_connections(theirs).add(none));
        assert(one.add(none) == one.add(none));
        lemma_sum_pairs(
            map_connections(after_mine.drop_last()),
            map_connections(after_theirs),
            map_connections(rest),
            map_connections(theirs),
            one,
            none,
            one,
            none,
        );
    } else if theirs.len() > mine.len() {
        let rest = theirs.drop_last();
        let one = theirs.last().conns.to_multiset();
        lemma_map_trade_conserves(mine, rest, swaps);
        assert(after_theirs.drop_last() =~= traded_map(rest, mine, swaps));
        assert(after_theirs.last() == theirs.last());
        assert(after_mine =~= traded_map(mine, rest, swaps));
        assert(map_connections(after_mine) =~= map_connections(after_mine).add(none));
        assert(map_connections(mine) =~= map_connections(mine).add(none));
        assert(none.add(one) == none.add(one));
        lemma_sum_pairs(
            map_connections(after_mine),
            map_connections(after_theirs.drop_last()),
            map_connections(mine),
            map_connections(rest),
            none,
            one,
            none,
            one,
        );
    } else {
        let rest_mine = mine.drop_last();
        let rest_theirs = theirs.drop_last();
        let last = mine.len() - 1;
        lemma_map_trade_conserves(rest_mine, rest_theirs, swaps);
        assert(after_mine.drop_last() =~= traded_map(rest_mine, rest_theirs, swaps));
        assert(after_theirs.drop_last() =~= traded_map(rest_theirs, rest_mine, swaps));
        if last < swaps.len() {
            lemma_trade_conserves(mine.last().conns, theirs.last().conns, swaps[last]);
        }
        lemma_sum_pairs(
            map_connections(after_mine.drop_last()),
            map_connections(after_theirs.drop_last()),
            map_connections(rest_mine),
            map_connections(rest_theirs),
            after_mine.last().conns.to_multiset(),
            after_theirs.last().conns.to_multiset(),
            mine.last().conns.to_multiset(),
            theirs.last().conns.to_multiset(),
        );
    }
}

/// Crossover leaves two well-formed maps well formed.
pub proof fn lemma_traded_well_formed(
    mine: Seq<SetView>,
    theirs: Seq<SetView>,
    swaps: Seq<Seq<bool>>,
)
    requires
        map_well_formed(mine),
        map_well_formed(theirs),
    ensures
        map_well_formed(traded_map(mine, theirs, swaps)),
{
    assert forall|s: int| 0 <= s < mine.len() implies (#[trigger] traded_map(
        mine,
        theirs,
        swaps,
    )[s]).well_formed() by {
        assert(mine[s].well_formed());
        let after = traded_map(mine, theirs, swaps)[s];
        assert forall|c: int| 0 <= c < after.conns.len() implies (
        #[trigger] after.conns[c]).well_formed() by {
            assert(mine[s].conns[c].well_formed());
            if s < theirs.len() && c < theirs[s].conns.len() {
                assert(theirs[s].well_formed());
                assert(theirs[s].conns[c].well_formed());
            }
        }
    }
}

// ---------------------------------------------------------------------
// Operations
// ---------------------------------------------------------------------
/// The value after a mutation draw.
fn redraw(old: Double, chance: Double, amount: Double, draw: Option<Double>) -> (r: Double)
    ensures
        r == redrawn(old, chance, amount, draw),
{
    match draw {
        Some(new) => {
            if chance.is_positive() && is_between(new, old, amount) {
                new
            } else {
                old
            }
        },
        None => old,
    }
}

impl NeuronConnection {
    /// A new connection with the drawn weight and offset and the given
    /// mutation parameters.
    ///
    /// Fails where the drawn weight is not between -1 and 1, or the drawn
    /// offset not between -1/2 and 1/2.
    pub fn new_random(
        weight_mutate_chance: Double,
        weight_mutate_amount: Double,
        offset_mutate_chance: Double,
        offset_mutate_amount: Double,
        draw: ConnectionDraw,
    ) -> (r: Result<Self, NetworkError>)
        ensures
            r is Ok <==> draw.valid(),
            match r {
                Ok(c) => c == drawn_connection(
                    draw,
                    weight_mutate_chance,
                    weight_mutate_amount,
                    offset_mutate_chance,
                    offset_mutate_amount,
                ),
                Err(e) => e == NetworkError::ConstructionFailure,
            },
    {
        if !draw.is_valid() {
            return Err(NetworkError::ConstructionFailure);
        }
        Ok(
            NeuronConnection {
                weight: draw.weight,
                offset: draw.offset,
                weight_mutate_chance,
                weight_mutate_amount,
                offset_mutate_chance,
                offset_mutate_amount,
            },
        )
    }

    /// Mutates the weight and the offset: each takes the value drawn for it,
    /// where its mutation chance is above zero and a value was drawn that
    /// lies strictly within its mutation amount of the old value, and stays
    /// as it is otherwise. The mutation parameters stay as they are.
    pub fn mutate(&mut self, draw: MutationDraw)
        ensures
            *final(self) == mutated(*old(self), draw),
            draw.weight is None ==> final(self).weight == old(self).weight,
            draw.offset is None ==> final(self).offset == old(self).offset,
    {
        self.weight = redraw(
            self.weight,
            self.weight_mutate_chance,
            self.weight_mutate_amount,
            draw.weight,
        );
        self.offset = redraw(
            self.offset,
            self.offset_mutate_chance,
            self.offset_mutate_amount,
            draw.offset,
        );
    }
}

impl NeuronConnectionSet {
    /// A new neuron of `size` connections, one for each draw.
    ///
    /// Fails where the number of draws is not `size` or a draw is not valid.
    pub fn new_random(
        size: usize,
        activation_thresh: Double,
        trait_swap_chance: Double,
        weight_mutate_chance: Double,
        weight_mutate_amount: Double,
        offset_mutate_chance: Double,
        offset_mutate_amount: Double,
        draws: &Vec<ConnectionDraw>,
    ) -> (r: Result<Self, NetworkError>)
        ensures
            r is Ok <==> draws.len() == size && all_valid(draws@),
            match r {
                Ok(set) => set@ == drawn_set(
                    draws@,
                    activation_thresh,
                    trait_swap_chance,
                    weight_mutate_chance,
                    weight_mutate_amount,
                    offset_mutate_chance,
                    offset_mutate_amount,
                ),
                Err(e) => e == NetworkError::ConstructionFailure,
            },
    {
        if draws.len() != size {
            return Err(NetworkError::ConstructionFailure);
        }
        let mut conns: Vec<NeuronConnection> = Vec::new();
        let mut i: usize = 0;
        while i < size
            invariant
                i <= size,
                size == draws.len(),
                conns@.len() == i,
                forall|c: int| 0 <= c < i ==> (#[trigger] draws@[c]).valid(),
                forall|c: int|
                    0 <= c < i ==> #[trigger] conns@[c] == drawn_connection(
                        draws@[c],
                        weight_mutate_chance,
                        weight_mutate_amount,
                        offset_mutate_chance,
                        offset_mutate_amount,
                    ),
            decreases size - i,
        {
            match NeuronConnection::new_random(
                weight_mutate_chance,
                weight_mutate_amount,
                offset_mutate_chance,
                offset_mutate_amount,
                draws[i],
            ) {
                Ok(c) => {
                    conns.push(c);
                },
                Err(e) => {
                    return Err(e);
                },
            }
            i += 1;
        }
        let set = NeuronConnectionSet { conns, activation_thresh, trait_swap_chance };
        assert(set@.conns =~= drawn_set(
            draws@,
            activation_thresh,
            trait_swap_chance,
            weight_mutate_chance,
            weight_mutate_amount,
            offset_mutate_chance,
            offset_mutate_amount,
        ).conns);
        Ok(set)
    }

    /// Whether the neuron fires on the packed input: whether the sum over
    /// its connections of weight times input bit plus offset is above its
    /// threshold. The input must hold a bit for every connection.
    pub fn activated(&self, input_bits: &Vec<u8>) -> (on: bool)
        requires
            covered(self@, input_bits@.len()),
        ensures
            on == fires(self@, input_bits@),
    {
        let mut total: Double = Double { bits: 0 };
        let mut i: usize = 0;
        while i < self.conns.len()
            invariant
                i <= self.conns.len(),
                self.conns.len() <= 8 * input_bits.len(),
                total == weighted_sum(self.conns@, input_bits@, i as nat),
            decreases self.conns.len() - i,
        {
            let input: bool = input_bit(input_bits, i);
            let term: Double = self.conns[i].weight.times_bit(input).plus(self.conns[i].offset);
            total = total.plus(term);
            i += 1;
        }
        total.gt(self.activation_thresh)
    }

    /// Crossover with another neuron: the two swap whole connections, index
    /// by index, wherever `swaps` says so and this neuron's swap chance is
    /// above zero. The other neuron's swap chance is not asked.
    pub fn trade_with(&mut self, other: &mut Self, swaps: &Vec<bool>)
        ensures
            final(self)@ == traded_set(
                old(self)@,
                old(other)@,
                permitted(swaps@, old(self).trait_swap_chance),
            ),
            final(other)@ == traded_set(
                old(other)@,
                old(self)@,
                permitted(swaps@, old(self).trait_swap_chance),
            ),
    {
        if !self.trait_swap_chance.is_positive() {
            assert(self@.conns =~= traded(self@.conns, other@.conns, Seq::empty()));
            assert(other@.conns =~= traded(other@.conns, self@.conns, Seq::empty()));
            return ;
        }
        let mut n: usize = self.conns.len();
        if other.conns.len() < n {
            n = other.conns.len();
        }
        if swaps.len() < n {
            n = swaps.len();
        }
        let mut i: usize = 0;
        while i < n
            invariant
                i <= n,
                n <= old(self).conns.len(),
                n <= old(other).conns.len(),
                n <= swaps.len(),
                self.conns.len() == old(self).conns.len(),
                other.conns.len() == old(other).conns.len(),
                self.activation_thresh == old(self).activation_thresh,
                self.trait_swap_chance == old(self).trait_swap_chance,
                other.activation_thresh == old(other).activation_thresh,
                other.trait_swap_chance == old(other).trait_swap_chance,
                forall|j: int|
                    0 <= j < i ==> self.conns@[j] == traded(
                        old(self)@.conns,
                        old(other)@.conns,
                        swaps@,
                    )[j],
                forall|j: int|
                    0 <= j < i ==> other.conns@[j] == traded(
                        old(other)@.conns,
                        old(self)@.conns,
                        swaps@,
                    )[j],
                forall|j: int| i <= j < self.conns.len() ==> self.conns@[j] == old(self).conns@[j],
                forall|j: int|
                    i <= j < other.conns.len() ==> other.conns@[j] == old(other).conns@[j],
            decreases n - i,
        {
            if swaps[i] {
                let held: NeuronConnection = self.conns[i];
                self.conns[i] = other.conns[i];
                other.conns[i] = held;
            }
            i += 1;
        }
        assert(self@.conns =~= traded(old(self)@.conns, old(other)@.conns, swaps@));
        assert(other@.conns =~= traded(old(other)@.conns, old(self)@.conns, swaps@));
    }

    /// Mutates every connection that has draws, each by its own.
    pub fn mutate_all(&mut self, draws: &Vec<MutationDraw>)
        ensures
            final(self)@ == mutated_set(old(self)@, draws@),
    {
        let mut n: usize = self.conns.len();
        if draws.len() < n {
            n = draws.len();
        }
        let mut i: usize = 0;
        while i < n
            invariant
                i <= n,
                n <= self.conns.len(),
                n <= draws.len(),
                self.conns.len() == old(self).conns.len(),
                self.activation_thresh == old(self).activation_thresh,
                self.trait_swap_chance == old(self).trait_swap_chance,
                forall|j: int|
                    0 <= j < i ==> self.conns@[j] == mutated(old(self).conns@[j], draws@[j]),
                forall|j: int| i <= j < self.conns.len() ==> self.conns@[j] == old(self).conns@[j],
            decreases n - i,
        {
            self.conns[i].mutate(draws[i]);
            i += 1;
        }
        assert(self@.conns =~= mutated_run(old(self)@.conns, draws@));
    }
}

impl NeuronConnectionMap {
    /// A new map of `size` neurons with `neuron_size` connections each, one
    /// neuron for each row of draws.
    ///
    /// Fails where the draws are not `size` rows of `neuron_size` each, or a
    /// draw is not valid.
    pub fn new_random(
        size: usize,
        neuron_size: usize,
        activation_thresh: Double,
        trait_swap_chance: Double,
        weight_mutate_chance: Double,
        weight_mutate_amount: Double,
        offset_mutate_chance: Double,
        offset_mutate_amount: Double,
        draws: &Vec<Vec<ConnectionDraw>>,
    ) -> (r: Result<Self, NetworkError>)
        ensures
            r is Ok <==> rectangular(rows(draws@), size as nat, neuron_size as nat)
                && table_valid(rows(draws@)),
            match r {
                Ok(map) => map@ == drawn_map(
                    rows(draws@),
                    activation_thresh,
                    trait_swap_chance,
                    weight_mutate_chance,
                    weight_mutate_amount,
                    offset_mutate_chance,
                    offset_mutate_amount,
                ),
                Err(e) => e == NetworkError::ConstructionFailure,
            },
    {
        if draws.len() != size {
            return Err(NetworkError::ConstructionFailure);
        }
        let mut map: Vec<NeuronConnectionSet> = Vec::new();
        let mut i: usize = 0;
        while i < size
            invariant
                i <= size,
                size == draws.len(),
                map@.len() == i,
                forall|s: int|
                    0 <= s < i ==> (#[trigger] draws@[s]).len() == neuron_size && all_valid(
                        draws@[s]@,
                    ),
                forall|s: int|
                    0 <= s < i ==> (#[trigger] map@[s])@ == drawn_set(
                        draws@[s]@,
                        activation_thresh,
                        trait_swap_chance,
                        weight_mutate_chance,
                        weight_mutate_amount,
                        offset_mutate_chance,
                        offset_mutate_amount,
                    ),
            decreases size - i,
        {
            match NeuronConnectionSet::new_random(
                neuron_size,
                activation_thresh,
                trait_swap_chance,
                weight_mutate_chance,
                weight_mutate_amount,
                offset_mutate_chance,
                offset_mutate_amount,
                &draws[i],
            ) {
                Ok(set) => {
                    map.push(set);
                },
                Err(e) => {
                    assert(rows(draws@)[i as int] == draws@[i as int]@);
                    return Err(e);
                },
            }
            i += 1;
        }
        let built = NeuronConnectionMap { map };
        assert(built@ =~= drawn_map(
            rows(draws@),
            activation_thresh,
            trait_swap_chance,
            weight_mutate_chance,
            weight_mutate_amount,
            offset_mutate_chance,
            offset_mutate_amount,
        ));
        assert(rectangular(rows(draws@), size as nat, neuron_size as nat));
        assert(table_valid(rows(draws@))) by {
            assert forall|s: int| 0 <= s < rows(draws@).len() implies all_valid(
                #[trigger] rows(draws@)[s],
            ) by {
                assert(rows(draws@)[s] == draws@[s]@);
            }
        }
        Ok(built)
    }

    /// Whether a packed input of `len` bytes holds a bit for every
    /// connection of every neuron.
    pub fn accepts(&self, len: usize) -> (ok: bool)
        ensures
            ok == map_covered(self@, len as nat),
    {
        let mut i: usize = 0;
        while i < self.map.len()
            invariant
                i <= self.map.len(),
                forall|s: int| 0 <= s < i ==> covered(#[trigger] self@[s], len as nat),
            decreases self.map.len() - i,
        {
            let n: usize = self.map[i].conns.len();
            let needed: usize = n / 8 + if n % 8 == 0 {
                0
            } else {
                1
            };
            if needed > len {
                assert(!covered(self@[i as int], len as nat));
                return false;
            }
            i += 1;
        }
        true
    }

    /// Which neurons fire on the packed input, in order.
    pub fn neuron_activations(&self, input_bits: &Vec<u8>) -> (fired: Vec<bool>)
        requires
            map_covered(self@, input_bits@.len()),
        ensures
            fired@ == activations(self@, input_bits@),
    {
        let mut fired: Vec<bool> = Vec::new();
        let mut i: usize = 0;
        while i < self.map.len()
            invariant
                i <= self.map.len(),
                map_covered(self@, input_bits@.len()),
                fired@.len() == i,
                forall|s: int| 0 <= s < i ==> fired@[s] == fires(#[trigger] self@[s], input_bits@),
            decreases self.map.len() - i,
        {
            assert(covered(self@[i as int], input_bits@.len()));
            fired.push(self.map[i].activated(input_bits));
            i += 1;
        }
        assert(fired@ =~= activations(self@, input_bits@));
        fired
    }

    /// The packed activations of the layer on the packed input: one bit for
    /// each neuron, the first highest in its byte. Where the number of
    /// neurons is no multiple of eight, the activations after the last full
    /// byte are dropped.
    pub fn layer_activations(&self, input_bits: &Vec<u8>) -> (output: Vec<u8>)
        requires
            map_covered(self@, input_bits@.len()),
        ensures
            output@ == layer_output(self@, input_bits@),
            output@.len() == self@.len() / 8,
    {
        let fired = self.neuron_activations(input_bits);
        pack_bits(&fired)
    }

    /// Crossover with another map: each neuron trades with the neuron at
    /// its index in the other map, by its own row of `swaps` and its own
    /// swap chance.
    pub fn trade_with(&mut self, other: &mut Self, swaps: &Vec<Vec<bool>>)
        ensures
            final(self)@ == traded_map(
                old(self)@,
                old(other)@,
                permitted_rows(rows(swaps@), old(self)@),
            ),
            final(other)@ == traded_map(
                old(other)@,
                old(self)@,
                permitted_rows(rows(swaps@), old(self)@),
            ),
    {
        let mut n: usize = self.map.len();
        if other.map.len() < n {
            n = other.map.len();
        }
        if swaps.len() < n {
            n = swaps.len();
        }
        let mut i: usize = 0;
        while i < n
            invariant
                i <= n,
                n <= self.map.len(),
                n <= other.map.len(),
                n <= swaps.len(),
                self.map.len() == old(self).map.len(),
                other.map.len() == old(other).map.len(),
                forall|j: int|
                    0 <= j < i ==> (#[trigger] self.map@[j])@ == traded_set(
                        old(self).map@[j]@,
                        old(other).map@[j]@,
                        permitted(swaps@[j]@, old(self).map@[j].trait_swap_chance),
                    ),
                forall|j: int|
                    0 <= j < i ==> (#[trigger] other.map@[j])@ == traded_set(
                        old(other).map@[j]@,
                        old(self).map@[j]@,
                        permitted(swaps@[j]@, old(self).map@[j].trait_swap_chance),
                    ),
                forall|j: int| i <= j < self.map.len() ==> self.map@[j] == old(self).map@[j],
                forall|j: int| i <= j < other.map.len() ==> other.map@[j] == old(other).map@[j],
            decreases n - i,
        {
            self.map[i].trade_with(&mut other.map[i], &swaps[i]);
            i += 1;
        }
        assert(self@ =~= traded_map(
            old(self)@,
            old(other)@,
            permitted_rows(rows(swaps@), old(self)@),
        ));
        assert(other@ =~= traded_map(
            old(other)@,
            old(self)@,
            permitted_rows(rows(swaps@), old(self)@),
        ));
    }

    /// Mutates every neuron that has a row of draws, each by its own.
    pub fn mutate_all(&mut self, draws: &Vec<Vec<MutationDraw>>)
        ensures
            final(self)@ == mutated_map(old(self)@, rows(draws@)),
    {
        let mut n: usize = self.map.len();
        if draws.len() < n {
            n = draws.len();
        }
        let mut i: usize = 0;
        while i < n
            invariant
                i <= n,
                n <= self.map.len(),
                n <= draws.len(),
                self.map.len() == old(self).map.len(),
                forall|j: int|
                    0 <= j < i ==> (#[trigger] self.map@[j])@ == mutated_set(
                        old(self).map@[j]@,
                        draws@[j]@,
                    ),
                forall|j: int| i <= j < self.map.len() ==> self.map@[j] == old(self).map@[j],
            decreases n - i,
        {
            self.map[i].mutate_all(&draws[i]);
            i += 1;
        }
        assert(self@ =~= mutated_map(old(self)@, rows(draws@)));
    }
}

} // verus!
