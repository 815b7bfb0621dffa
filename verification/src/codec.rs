//! Writers and readers for the parts of a model's body.

use crate::double::Double;
use crate::format::{
    connection_at, connection_bytes, connections_bytes, map_at, map_bytes, set_at, set_bytes,
    set_len,
};
use crate::neuron::{NeuronConnection, NeuronConnectionMap, NeuronConnectionSet};
use crate::wire::{push_word, read_word};
use vstd::prelude::*;

verus! {

/// Appends the six words of `c` to `out`.
pub fn write_connection(out: &mut Vec<u8>, c: &NeuronConnection)
    ensures
        final(out)@ == old(out)@ + connection_bytes(*c),
{
    push_word(out, c.weight.bits);
    push_word(out, c.offset.bits);
    push_word(out, c.weight_mutate_chance.bits);
    push_word(out, c.weight_mutate_amount.bits);
    push_word(out, c.offset_mutate_chance.bits);
    push_word(out, c.offset_mutate_amount.bits);
    assert(out@ =~= old(out)@ + connection_bytes(*c));
}

/// Appends the connections of `set`, then its threshold and swap chance.
pub fn write_set(out: &mut Vec<u8>, set: &NeuronConnectionSet)
    ensures
        final(out)@ == old(out)@ + set_bytes(set@),
{
    let ghost start = out@;
    let mut i: usize = 0;
    while i < set.conns.len()
        invariant
            i <= set.conns.len(),
            out@ == start + connections_bytes(set.conns@.take(i as int)),
        decreases set.conns.len() - i,
    {
        write_connection(out, &set.conns[i]);
        proof {
            let next = set.conns@.take(i + 1);
            assert(next.drop_last() =~= set.conns@.take(i as int));
            assert(out@ =~= start + connections_bytes(next));
        }
        i += 1;
    }
    assert(set.conns@.take(i as int) =~= set.conns@);
    push_word(out, set.activation_thresh.bits);
    push_word(out, set.trait_swap_chance.bits);
    assert(out@ =~= start + set_bytes(set@));
}

/// Appends the neurons of `map`, in order.
pub fn write_map(out: &mut Vec<u8>, map: &NeuronConnectionMap)
    ensures
        final(out)@ == old(out)@ + map_bytes(map@),
{
    let ghost start = out@;
    let mut i: usize = 0;
    while i < map.map.len()
        invariant
            i <= map.map.len(),
            out@ == start + map_bytes(map@.take(i as int)),
        decreases map.map.len() - i,
    {
        write_set(out, &map.map[i]);
        proof {
            let next = map@.take(i + 1);
            assert(next.drop_last() =~= map@.take(i as int));
            assert(next.last() == map.map[i as int]@);
            assert(out@ =~= start + map_bytes(next));
        }
        i += 1;
    }
    assert(map@.take(i as int) =~= map@);
}

/// Reads the connection that starts at byte offset `pos`.
pub fn read_connection(bytes: &Vec<u8>, pos: usize) -> (c: NeuronConnection)
    requires
        pos + 48 <= bytes.len(),
    ensures
        c == connection_at(bytes@, pos as int),
{
    NeuronConnection {
        weight: Double { bits: read_word(bytes, pos) },
        offset: Double { bits: read_word(bytes, pos + 8) },
        weight_mutate_chance: Double { bits: read_word(bytes, pos + 16) },
        weight_mutate_amount: Double { bits: read_word(bytes, pos + 24) },
        offset_mutate_chance: Double { bits: read_word(bytes, pos + 32) },
        offset_mutate_amount: Double { bits: read_word(bytes, pos + 40) },
    }
}

/// Reads the neuron with `width` connections that starts at byte offset
/// `pos`.
pub fn read_set(bytes: &Vec<u8>, pos: usize, width: usize) -> (set: NeuronConnectionSet)
    requires
        pos + set_len(width as nat) <= bytes.len(),
    ensures
        set@ == set_at(bytes@, pos as int, width as nat),
{
    let mut conns: Vec<NeuronConnection> = Vec::new();
    let mut i: usize = 0;
    while i < width
        invariant
            i <= width,
            pos + 48 * width + 16 <= bytes.len(),
            conns@.len() == i,
            forall|c: int| 0 <= c < i ==> conns@[c] == connection_at(bytes@, pos + 48 * c),
        decreases width - i,
    {
        conns.push(read_connection(bytes, pos + 48 * i));
        i += 1;
    }
    let set = NeuronConnectionSet {
        conns,
        activation_thresh: Double { bits: read_word(bytes, pos + 48 * width) },
        trait_swap_chance: Double { bits: read_word(bytes, pos + 48 * width + 8) },
    };
    assert(set@.conns =~= set_at(bytes@, pos as int, width as nat).conns);
    set
}

/// Reads the map of `out` neurons with `width` connections each that starts
/// at byte offset `pos`.
pub fn read_map(bytes: &Vec<u8>, pos: usize, out: usize, width: usize) -> (map:
    NeuronConnectionMap)
    requires
        pos + out * set_len(width as nat) <= bytes.len(),
    ensures
        map@ == map_at(bytes@, pos as int, out as nat, width as nat),
{
    let mut sets: Vec<NeuronConnectionSet> = Vec::new();
    let mut s: usize = 0;
    let mut at: usize = pos;
    while s < out
        invariant
            s <= out,
            pos + out * set_len(width as nat) <= bytes.len(),
            at == pos + s * set_len(width as nat),
            sets@.len() == s,
            forall|j: int|
                0 <= j < s ==> (#[trigger] sets@[j])@ == set_at(
                    bytes@,
                    pos + j * set_len(width as nat),
                    width as nat,
                ),
        decreases out - s,
    {
        let ghost len = set_len(width as nat) as int;
        assert((s + 1) * len <= out * len) by (nonlinear_arith)
            requires
                s + 1 <= out,
                0 <= len,
        ;
        assert((s + 1) * len == s * len + len) by (nonlinear_arith);
        sets.push(read_set(bytes, at, width));
        at = at + (48 * width + 16);
        s += 1;
    }
    let map = NeuronConnectionMap { map: sets };
    assert(map@ =~= map_at(bytes@, pos as int, out as nat, width as nat));
    map
}

} // verus!
