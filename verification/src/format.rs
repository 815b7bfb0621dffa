//! The binary model format, as a relation between byte strings and networks.
//!
//! A model is a sequence of big-endian 64-bit words. The header holds the
//! input width, the output width, the hidden layer sizes and a closing
//! sentinel word. The body holds, map by map and neuron by neuron, six words
//! for each connection and then the neuron's threshold and swap chance.

use crate::double::Double;
use crate::error::NetworkError;
use crate::neuron::{NeuronConnection, SetView};
use crate::topology::{NetworkView, Topology};
use crate::wire::{be_bytes, lemma_value_of_bytes, lemma_word_at_written, word_at};
use vstd::prelude::*;

verus! {

/// The word that closes the list of hidden layer sizes.
pub const SENTINEL: u64 = 0xFFFF_FFFF_FFFF_FFFF;

// ---------------------------------------------------------------------
// From networks to bytes
// ---------------------------------------------------------------------
/// The 48 bytes of one connection.
pub open spec fn connection_bytes(c: NeuronConnection) -> Seq<u8> {
    be_bytes(c.weight.bits) + be_bytes(c.offset.bits) + be_bytes(c.weight_mutate_chance.bits)
        + be_bytes(c.weight_mutate_amount.bits) + be_bytes(c.offset_mutate_chance.bits)
        + be_bytes(c.offset_mutate_amount.bits)
}

/// The bytes of a run of connections, in order.
pub open spec fn connections_bytes(cs: Seq<NeuronConnection>) -> Seq<u8>
    decreases cs.len(),
{
    if cs.len() == 0 {
        Seq::empty()
    } else {
        connections_bytes(cs.drop_last()) + connection_bytes(cs.last())
    }
}

/// The bytes of one neuron: its connections, threshold and swap chance.
pub open spec fn set_bytes(s: SetView) -> Seq<u8> {
    connections_bytes(s.conns) + be_bytes(s.activation_thresh.bits) + be_bytes(
        s.trait_swap_chance.bits,
    )
}

/// The bytes of one map: its neurons, in order.
pub open spec fn map_bytes(m: Seq<SetView>) -> Seq<u8>
    decreases m.len(),
{
    if m.len() == 0 {
        Seq::empty()
    } else {
        map_bytes(m.drop_last()) + set_bytes(m.last())
    }
}

/// The bytes of a run of maps, in order.
pub open spec fn body_bytes(maps: Seq<Seq<SetView>>) -> Seq<u8>
    decreases maps.len(),
{
    if maps.len() == 0 {
        Seq::empty()
    } else {
        body_bytes(maps.drop_last()) + map_bytes(maps.last())
    }
}

/// The words of a run of hidden layer sizes, in order.
pub open spec fn sizes_bytes(sizes: Seq<nat>) -> Seq<u8>
    decreases sizes.len(),
{
    if sizes.len() == 0 {
        Seq::empty()
    } else {
        sizes_bytes(sizes.drop_last()) + be_bytes(sizes.last() as u64)
    }
}

/// Every size of the network fits a header word, and no hidden layer size
/// is taken for the sentinel.
pub open spec fn encodable(n: NetworkView) -> bool {
    &&& n.num_inputs <= usize::MAX
    &&& n.num_outputs <= usize::MAX
    &&& forall|i: int|
        0 <= i < n.layer_sizes.len() ==> (#[trigger] n.layer_sizes[i]) <= usize::MAX
            && n.layer_sizes[i] != SENTINEL
}

/// The header of a network with topology `t`.
pub open spec fn header_bytes(t: Topology) -> Seq<u8> {
    be_bytes(t.num_inputs as u64) + be_bytes(t.num_outputs as u64) + sizes_bytes(t.layer_sizes)
        + be_bytes(SENTINEL)
}

/// The model that stores network `n`.
pub open spec fn model_bytes(n: NetworkView) -> Seq<u8> {
    header_bytes(n.topology()) + body_bytes(n.maps)
}

// ---------------------------------------------------------------------
// From bytes to networks
// ---------------------------------------------------------------------
/// Word `k` of `bytes` lies within it and is the sentinel.
pub open spec fn sentinel_at(bytes: Seq<u8>, k: int) -> bool {
    8 * k + 8 <= bytes.len() && word_at(bytes, 8 * k) == SENTINEL
}

/// Word `k` is the first sentinel after the two width words.
pub open spec fn header_ends_at(bytes: Seq<u8>, k: int) -> bool {
    &&& 2 <= k
    &&& sentinel_at(bytes, k)
    &&& forall|j: int| 2 <= j < k ==> !sentinel_at(bytes, j)
}

/// The model has a header: two width words, then sizes up to a sentinel.
pub open spec fn has_header(bytes: Seq<u8>) -> bool {
    exists|k: int| header_ends_at(bytes, k)
}

/// Index of the word that closes the header.
pub open spec fn header_end(bytes: Seq<u8>) -> int {
    choose|k: int| header_ends_at(bytes, k)
}

/// The sizes that the header of `bytes` declares.
pub open spec fn topology_of(bytes: Seq<u8>) -> Topology {
    Topology {
        num_inputs: word_at(bytes, 0) as nat,
        num_outputs: word_at(bytes, 8) as nat,
        layer_sizes: Seq::new(
            (header_end(bytes) - 2) as nat,
            |i: int| word_at(bytes, 8 * (i + 2)) as nat,
        ),
    }
}

/// Every size that the header declares can be held by this machine.
pub open spec fn addressable(t: Topology) -> bool {
    &&& t.num_inputs <= usize::MAX
    &&& t.num_outputs <= usize::MAX
    &&& forall|i: int| 0 <= i < t.layer_sizes.len() ==> (#[trigger] t.layer_sizes[i]) <= usize::MAX
}

/// The connection stored at byte offset `pos`.
pub open spec fn connection_at(bytes: Seq<u8>, pos: int) -> NeuronConnection {
    NeuronConnection {
        weight: Double { bits: word_at(bytes, pos) },
        offset: Double { bits: word_at(bytes, pos + 8) },
        weight_mutate_chance: Double { bits: word_at(bytes, pos + 16) },
        weight_mutate_amount: Double { bits: word_at(bytes, pos + 24) },
        offset_mutate_chance: Double { bits: word_at(bytes, pos + 32) },
        offset_mutate_amount: Double { bits: word_at(bytes, pos + 40) },
    }
}

/// Bytes taken by a neuron with `width` connections.
pub open spec fn set_len(width: nat) -> nat {
    48 * width + 16
}

/// The neuron with `width` connections stored at byte offset `pos`.
pub open spec fn set_at(bytes: Seq<u8>, pos: int, width: nat) -> SetView {
    SetView {
        conns: Seq::new(width, |c: int| connection_at(bytes, pos + 48 * c)),
        activation_thresh: Double { bits: word_at(bytes, pos + 48 * width) },
        trait_swap_chance: Double { bits: word_at(bytes, pos + 48 * width + 8) },
    }
}

/// The map of `out` neurons with `width` connections each stored at byte
/// offset `pos`.
pub open spec fn map_at(bytes: Seq<u8>, pos: int, out: nat, width: nat) -> Seq<SetView> {
    Seq::new(out, |s: int| set_at(bytes, pos + s * set_len(width), width))
}

/// The network of topology `t` stored in `bytes`.
pub open spec fn network_at(bytes: Seq<u8>, t: Topology) -> NetworkView {
    NetworkView {
        maps: Seq::new(
            t.layers(),
            |m: int| map_at(bytes, t.map_start(m as nat) as int, t.out_width(m), t.in_width(m)),
        ),
        layer_sizes: t.layer_sizes,
        num_inputs: t.num_inputs,
        num_outputs: t.num_outputs,
    }
}

/// What loading `bytes` yields: the stored network, or the reason why there
/// is none.
pub open spec fn parse(bytes: Seq<u8>) -> Result<NetworkView, NetworkError> {
    if !has_header(bytes) || !addressable(topology_of(bytes)) {
        Err(NetworkError::MalformedHeader)
    } else if bytes.len() != topology_of(bytes).header_len() + topology_of(bytes).body_len() {
        Err(NetworkError::SizeMismatch)
    } else {
        Ok(network_at(bytes, topology_of(bytes)))
    }
}

// ---------------------------------------------------------------------
// Facts about sizes and headers
// ---------------------------------------------------------------------
/// Map `i` takes as many bytes as its neurons do together.
pub proof fn lemma_body_step(t: Topology, i: nat)
    ensures
        t.body_size(i + 1) == t.body_size(i) + t.out_width(i as int) * set_len(
            t.in_width(i as int),
        ),
{
    let a = t.in_width(i as int);
    let b = t.out_width(i as int);
    assert(t.connections(i + 1) == t.connections(i) + a * b);
    assert(t.neurons(i + 1) == t.neurons(i) + b);
    assert(8 * (6 * (a * b) + 2 * b) == b * (48 * a + 16)) by (nonlinear_arith);
}

/// Later maps start at later offsets.
pub proof fn lemma_body_monotonic(t: Topology, i: nat, j: nat)
    requires
        i <= j,
    ensures
        t.body_size(i) <= t.body_size(j),
    decreases j,
{
    if i < j {
        lemma_body_monotonic(t, i, (j - 1) as nat);
        lemma_body_step(t, (j - 1) as nat);
    }
}

/// At most one word closes the header.
pub proof fn lemma_header_end_unique(bytes: Seq<u8>, k: int)
    requires
        header_ends_at(bytes, k),
    ensures
        has_header(bytes),
        header_end(bytes) == k,
{
    let c = header_end(bytes);
    assert(header_ends_at(bytes, c));
    if c < k {
        assert(!sentinel_at(bytes, c));
    }
    if k < c {
        assert(!sentinel_at(bytes, k));
    }
}

// ---------------------------------------------------------------------
// What is read depends only on the bytes that hold it
// ---------------------------------------------------------------------
/// A word read within a window of the bytes is the word read at the same
/// place in the window alone.
proof fn lemma_word_window(x: Seq<u8>, start: int, w: Seq<u8>, j: int)
    requires
        0 <= start,
        start + w.len() <= x.len(),
        x.subrange(start, start + w.len()) == w,
        0 <= j,
        j + 8 <= w.len(),
    ensures
        word_at(x, start + j) == word_at(w, j),
{
    assert(x.subrange(start + j, start + j + 8) =~= w.subrange(j, j + 8));
}

/// A connection read within a window of the bytes is the connection read
/// at the same place in the window alone.
proof fn lemma_connection_window(x: Seq<u8>, start: int, w: Seq<u8>, j: int)
    requires
        0 <= start,
        start + w.len() <= x.len(),
        x.subrange(start, start + w.len()) == w,
        0 <= j,
        j + 48 <= w.len(),
    ensures
        connection_at(x, start + j) == connection_at(w, j),
{
    lemma_word_window(x, start, w, j);
    lemma_word_window(x, start, w, j + 8);
    lemma_word_window(x, start, w, j + 16);
    lemma_word_window(x, start, w, j + 24);
    lemma_word_window(x, start, w, j + 32);
    lemma_word_window(x, start, w, j + 40);
}

/// A neuron read within a window of the bytes is the neuron read at the
/// same place in the window alone.
proof fn lemma_set_window(x: Seq<u8>, start: int, w: Seq<u8>, j: int, width: nat)
    requires
        0 <= start,
        start + w.len() <= x.len(),
        x.subrange(start, start + w.len()) == w,
        0 <= j,
        j + set_len(width) <= w.len(),
    ensures
        set_at(x, start + j, width) == set_at(w, j, width),
{
    assert forall|c: int| 0 <= c < width implies set_at(x, start + j, width).conns[c]
        == #[trigger] set_at(w, j, width).conns[c] by {
        lemma_connection_window(x, start, w, j + 48 * c);
    }
    lemma_word_window(x, start, w, j + 48 * width);
    lemma_word_window(x, start, w, j + 48 * width + 8);
    assert(set_at(x, start + j, width).conns =~= set_at(w, j, width).conns);
}

/// A map read within a window of the bytes is the map read at the same
/// place in the window alone.
proof fn lemma_map_window(x: Seq<u8>, start: int, w: Seq<u8>, j: int, out: nat, width: nat)
    requires
        0 <= start,
        start + w.len() <= x.len(),
        x.subrange(start, start + w.len()) == w,
        0 <= j,
        j + out * set_len(width) <= w.len(),
    ensures
        map_at(x, start + j, out, width) == map_at(w, j, out, width),
{
    let len = set_len(width) as int;
    assert forall|s: int| 0 <= s < out implies map_at(x, start + j, out, width)[s]
        == #[trigger] map_at(w, j, out, width)[s] by {
        assert(0 <= s * len && (s + 1) * len <= out * len && (s + 1) * len == s * len + len)
            by (nonlinear_arith)
            requires
                0 <= s < out,
                0 <= len,
        ;
        lemma_set_window(x, start, w, j + s * len, width);
    }
    assert(map_at(x, start + j, out, width) =~= map_at(w, j, out, width));
}

// ---------------------------------------------------------------------
// What was written is read back
// ---------------------------------------------------------------------
/// A connection is read back from its own bytes.
pub proof fn lemma_connection_round_trip(c: NeuronConnection)
    ensures
        connection_bytes(c).len() == 48,
        connection_at(connection_bytes(c), 0) == c,
{
    let b0 = be_bytes(c.weight.bits);
    let b1 = be_bytes(c.offset.bits);
    let b2 = be_bytes(c.weight_mutate_chance.bits);
    let b3 = be_bytes(c.weight_mutate_amount.bits);
    let b4 = be_bytes(c.offset_mutate_chance.bits);
    let b5 = be_bytes(c.offset_mutate_amount.bits);
    let all = connection_bytes(c);
    let none = Seq::<u8>::empty();
    lemma_value_of_bytes(c.weight.bits);
    lemma_value_of_bytes(c.offset.bits);
    lemma_value_of_bytes(c.weight_mutate_chance.bits);
    lemma_value_of_bytes(c.weight_mutate_amount.bits);
    lemma_value_of_bytes(c.offset_mutate_chance.bits);
    lemma_value_of_bytes(c.offset_mutate_amount.bits);
    assert(all =~= none + b0 + (b1 + b2 + b3 + b4 + b5));
    lemma_word_at_written(none, c.weight.bits, b1 + b2 + b3 + b4 + b5);
    assert(all =~= b0 + b1 + (b2 + b3 + b4 + b5));
    lemma_word_at_written(b0, c.offset.bits, b2 + b3 + b4 + b5);
    assert(all =~= (b0 + b1) + b2 + (b3 + b4 + b5));
    lemma_word_at_written(b0 + b1, c.weight_mutate_chance.bits, b3 + b4 + b5);
    assert(all =~= (b0 + b1 + b2) + b3 + (b4 + b5));
    lemma_word_at_written(b0 + b1 + b2, c.weight_mutate_amount.bits, b4 + b5);
    assert(all =~= (b0 + b1 + b2 + b3) + b4 + b5);
    lemma_word_at_written(b0 + b1 + b2 + b3, c.offset_mutate_chance.bits, b5);
    assert(all =~= (b0 + b1 + b2 + b3 + b4) + b5 + none);
    lemma_word_at_written(b0 + b1 + b2 + b3 + b4, c.offset_mutate_amount.bits, none);
}

/// A run of connections takes 48 bytes for each of them.
pub proof fn lemma_connections_len(cs: Seq<NeuronConnection>)
    ensures
        connections_bytes(cs).len() == 48 * cs.len(),
    decreases cs.len(),
{
    if cs.len() > 0 {
        lemma_connections_len(cs.drop_last());
        lemma_connection_round_trip(cs.last());
    }
}

/// Each connection of a run is read back at its offset in the run's bytes.
pub proof fn lemma_connections_round_trip(cs: Seq<NeuronConnection>, i: int)
    requires
        0 <= i < cs.len(),
    ensures
        connection_at(connections_bytes(cs), 48 * i) == cs[i],
    decreases cs.len(),
{
    let front = connections_bytes(cs.drop_last());
    let back = connection_bytes(cs.last());
    let all = connections_bytes(cs);
    assert(all == front + back);
    lemma_connections_len(cs.drop_last());
    lemma_connection_round_trip(cs.last());
    if i < cs.len() - 1 {
        lemma_connections_round_trip(cs.drop_last(), i);
        assert(all.subrange(0, front.len() as int) =~= front);
        lemma_connection_window(all, 0, front, 48 * i);
    } else {
        assert(all.subrange(front.len() as int, (front.len() + back.len()) as int) =~= back);
        lemma_connection_window(all, front.len() as int, back, 0);
    }
}

/// A neuron is read back from its own bytes.
pub proof fn lemma_set_round_trip(s: SetView)
    ensures
        set_bytes(s).len() == set_len(s.conns.len()),
        set_at(set_bytes(s), 0, s.conns.len()) == s,
{
    let front = connections_bytes(s.conns);
    let thresh = be_bytes(s.activation_thresh.bits);
    let chance = be_bytes(s.trait_swap_chance.bits);
    let all = set_bytes(s);
    let none = Seq::<u8>::empty();
    lemma_connections_len(s.conns);
    lemma_value_of_bytes(s.activation_thresh.bits);
    lemma_value_of_bytes(s.trait_swap_chance.bits);
    assert(all.subrange(0, front.len() as int) =~= front);
    assert forall|c: int| 0 <= c < s.conns.len() implies connection_at(all, 48 * c)
        == #[trigger] s.conns[c] by {
        lemma_connections_round_trip(s.conns, c);
        lemma_connection_window(all, 0, front, 48 * c);
    }
    lemma_word_at_written(front, s.activation_thresh.bits, chance);
    assert(all =~= (front + thresh) + chance + none);
    lemma_word_at_written(front + thresh, s.trait_swap_chance.bits, none);
    assert(set_at(all, 0, s.conns.len()).conns =~= s.conns);
}

/// A map whose neurons all have `width` connections is read back from its
/// own bytes.
pub proof fn lemma_map_round_trip(m: Seq<SetView>, width: nat)
    requires
        forall|s: int| 0 <= s < m.len() ==> (#[trigger] m[s]).conns.len() == width,
    ensures
        map_bytes(m).len() == m.len() * set_len(width),
        map_at(map_bytes(m), 0, m.len(), width) == m,
    decreases m.len(),
{
    let len = set_len(width) as int;
    if m.len() > 0 {
        let front = map_bytes(m.drop_last());
        let back = set_bytes(m.last());
        let all = map_bytes(m);
        lemma_map_round_trip(m.drop_last(), width);
        lemma_set_round_trip(m.last());
        assert(m.len() * len == (m.len() - 1) * len + len) by (nonlinear_arith);
        assert(all.subrange(0, front.len() as int) =~= front);
        assert(all.subrange(front.len() as int, (front.len() + back.len()) as int) =~= back);
        assert forall|s: int| 0 <= s < m.len() implies set_at(all, s * len, width)
            == #[trigger] m[s] by {
            if s < m.len() - 1 {
                assert(0 <= s * len && (s + 1) * len <= (m.len() - 1) * len && (s + 1) * len == s
                    * len + len) by (nonlinear_arith)
                    requires
                        0 <= s < m.len() - 1,
                        0 <= len,
                ;
                lemma_set_window(all, 0, front, s * len, width);
                assert(map_at(front, 0, (m.len() - 1) as nat, width)[s] == set_at(
                    front,
                    0 + s * len,
                    width,
                ));
                assert(m.drop_last()[s] == m[s]);
            } else {
                lemma_set_window(all, front.len() as int, back, 0, width);
            }
        }
        assert(map_at(all, 0, m.len(), width) =~= m);
    } else {
        assert(m.len() * len == 0) by (nonlinear_arith)
            requires
                m.len() == 0,
        ;
        assert(map_at(map_bytes(m), 0, m.len(), width) =~= m);
    }
}

/// A run of sizes takes one word for each of them.
pub proof fn lemma_sizes_len(sizes: Seq<nat>)
    ensures
        sizes_bytes(sizes).len() == 8 * sizes.len(),
    decreases sizes.len(),
{
    if sizes.len() > 0 {
        lemma_sizes_len(sizes.drop_last());
        lemma_value_of_bytes(sizes.last() as u64);
    }
}

/// Each size of a run is read back at its offset in the run's bytes.
pub proof fn lemma_sizes_round_trip(sizes: Seq<nat>, i: int)
    requires
        0 <= i < sizes.len(),
    ensures
        word_at(sizes_bytes(sizes), 8 * i) == sizes[i] as u64,
    decreases sizes.len(),
{
    let front = sizes_bytes(sizes.drop_last());
    let back = be_bytes(sizes.last() as u64);
    let all = sizes_bytes(sizes);
    assert(all == front + back);
    lemma_sizes_len(sizes.drop_last());
    lemma_value_of_bytes(sizes.last() as u64);
    if i < sizes.len() - 1 {
        lemma_sizes_round_trip(sizes.drop_last(), i);
        assert(all.subrange(0, front.len() as int) =~= front);
        lemma_word_window(all, 0, front, 8 * i);
    } else {
        assert(all =~= front + back + Seq::<u8>::empty());
        lemma_word_at_written(front, sizes.last() as u64, Seq::<u8>::empty());
    }
}

/// The first `k` maps of a well-shaped network take the bytes that its
/// sizes give them.
pub proof fn lemma_body_prefix_len(n: NetworkView, k: nat)
    requires
        n.well_shaped(),
        k <= n.maps.len(),
    ensures
        body_bytes(n.maps.take(k as int)).len() == n.topology().body_size(k),
    decreases k,
{
    let t = n.topology();
    if k > 0 {
        let prefix = n.maps.take(k as int);
        assert(prefix.drop_last() =~= n.maps.take(k - 1));
        assert(prefix.last() == n.maps[k - 1]);
        lemma_body_prefix_len(n, (k - 1) as nat);
        lemma_map_round_trip(n.maps[k - 1], t.in_width(k - 1));
        lemma_body_step(t, (k - 1) as nat);
    }
}

/// Each of the first `k` maps of a well-shaped network is read back at its
/// offset in their bytes.
pub proof fn lemma_body_round_trip(n: NetworkView, k: nat, m: int)
    requires
        n.well_shaped(),
        k <= n.maps.len(),
        0 <= m < k,
    ensures
        map_at(
            body_bytes(n.maps.take(k as int)),
            n.topology().body_size(m as nat) as int,
            n.topology().out_width(m),
            n.topology().in_width(m),
        ) == n.maps[m],
    decreases k,
{
    let t = n.topology();
    let prefix = n.maps.take(k as int);
    assert(prefix.drop_last() =~= n.maps.take(k - 1));
    assert(prefix.last() == n.maps[k - 1]);
    let front = body_bytes(n.maps.take(k - 1));
    let back = map_bytes(n.maps[k - 1]);
    let all = body_bytes(prefix);
    assert(all == front + back);
    lemma_body_prefix_len(n, (k - 1) as nat);
    lemma_map_round_trip(n.maps[k - 1], t.in_width(k - 1));
    lemma_body_step(t, m as nat);
    if m < k - 1 {
        lemma_body_round_trip(n, (k - 1) as nat, m);
        lemma_body_monotonic(t, (m + 1) as nat, (k - 1) as nat);
        assert(all.subrange(0, front.len() as int) =~= front);
        lemma_map_window(
            all,
            0,
            front,
            t.body_size(m as nat) as int,
            t.out_width(m),
            t.in_width(m),
        );
    } else {
        assert(all.subrange(front.len() as int, (front.len() + back.len()) as int) =~= back);
        lemma_map_window(all, front.len() as int, back, 0, t.out_width(m), t.in_width(m));
    }
}

/// Loading the model that stores a network gives that network back: every
/// size and every field of every connection and neuron, bit for bit.
pub proof fn lemma_round_trip(n: NetworkView)
    requires
        n.well_shaped(),
        encodable(n),
    ensures
        parse(model_bytes(n)) == Ok::<NetworkView, NetworkError>(n),
{
    let t = n.topology();
    let bytes = model_bytes(n);
    let count = t.layer_sizes.len() as int;
    let inputs = be_bytes(t.num_inputs as u64);
    let outputs = be_bytes(t.num_outputs as u64);
    let sizes = sizes_bytes(t.layer_sizes);
    let closing = be_bytes(SENTINEL);
    let body = body_bytes(n.maps);
    let none = Seq::<u8>::empty();
    lemma_value_of_bytes(t.num_inputs as u64);
    lemma_value_of_bytes(t.num_outputs as u64);
    lemma_value_of_bytes(SENTINEL);
    lemma_sizes_len(t.layer_sizes);
    assert(n.maps.take(n.maps.len() as int) =~= n.maps);
    lemma_body_prefix_len(n, n.maps.len());
    assert(bytes.len() == t.header_len() + t.body_len());
    // The two widths.
    assert(bytes =~= none + inputs + (outputs + sizes + closing + body));
    lemma_word_at_written(none, t.num_inputs as u64, outputs + sizes + closing + body);
    assert(bytes =~= inputs + outputs + (sizes + closing + body));
    lemma_word_at_written(inputs, t.num_outputs as u64, sizes + closing + body);
    // The hidden layer sizes and the sentinel.
    assert(bytes.subrange(16, 16 + sizes.len() as int) =~= sizes);
    assert forall|i: int| 0 <= i < count implies word_at(bytes, 8 * (i + 2))
        == (#[trigger] t.layer_sizes[i]) as u64 by {
        lemma_sizes_round_trip(t.layer_sizes, i);
        lemma_word_window(bytes, 16, sizes, 8 * i);
    }
    assert(bytes =~= (inputs + outputs + sizes) + closing + body);
    lemma_word_at_written(inputs + outputs + sizes, SENTINEL, body);
    assert(sentinel_at(bytes, count + 2));
    assert forall|j: int| 2 <= j < count + 2 implies !sentinel_at(bytes, j) by {
        assert(t.layer_sizes[j - 2] != SENTINEL);
        assert(word_at(bytes, 8 * ((j - 2) + 2)) == t.layer_sizes[j - 2] as u64);
    }
    lemma_header_end_unique(bytes, count + 2);
    let read = topology_of(bytes);
    assert(read.layer_sizes =~= t.layer_sizes) by {
        assert forall|i: int| 0 <= i < count implies read.layer_sizes[i] == t.layer_sizes[i] by {
            assert(word_at(bytes, 8 * (i + 2)) == t.layer_sizes[i] as u64);
        }
    }
    assert(read == t);
    // The maps.
    assert(bytes.subrange(t.header_len() as int, (t.header_len() + body.len()) as int) =~= body);
    assert forall|m: int| 0 <= m < n.maps.len() implies network_at(bytes, t).maps[m]
        == #[trigger] n.maps[m] by {
        lemma_body_round_trip(n, n.maps.len(), m);
        lemma_body_step(t, m as nat);
        lemma_body_monotonic(t, (m + 1) as nat, n.maps.len());
        lemma_map_window(
            bytes,
            t.header_len() as int,
            body,
            t.body_size(m as nat) as int,
            t.out_width(m),
            t.in_width(m),
        );
    }
    assert(network_at(bytes, t).maps =~= n.maps);
}

} // verus!
