use neuroevo::bits::{input_bit, pack_bits};
use neuroevo::double::Double;
use neuroevo::neuron::{NeuronConnection, NeuronConnectionMap, NeuronConnectionSet};

fn d(x: f64) -> Double {
    Double::from_bits(x.to_bits())
}

fn bools(bits: &[u8]) -> Vec<bool> {
    bits.iter().map(|b| *b == 1).collect()
}

/// A neuron without connections that fires exactly when `on` holds.
fn constant_neuron(on: bool) -> NeuronConnectionSet {
    NeuronConnectionSet {
        conns: Vec::new(),
        activation_thresh: d(if on { -1.0 } else { 1.0 }),
        trait_swap_chance: d(0.5),
    }
}

#[test]
fn ten_activations_pack_to_one_byte() {
    let packed = pack_bits(&bools(&[1, 0, 1, 1, 0, 1, 0, 1, 1, 0]));
    assert_eq!(packed, vec![0b1011_0101u8]);
}

#[test]
fn a_layer_of_ten_neurons_emits_one_byte() {
    let pattern = bools(&[1, 0, 1, 1, 0, 1, 0, 1, 1, 0]);
    let map = NeuronConnectionMap { map: pattern.iter().map(|on| constant_neuron(*on)).collect() };
    let input: Vec<u8> = Vec::new();
    assert_eq!(map.neuron_activations(&input), pattern);
    assert_eq!(map.layer_activations(&input), vec![0b1011_0101u8]);
}

#[test]
fn fewer_than_eight_bits_pack_to_nothing() {
    assert_eq!(pack_bits(&bools(&[1, 1, 1, 1, 1, 1, 1])), Vec::<u8>::new());
    assert_eq!(pack_bits(&Vec::new()), Vec::<u8>::new());
}

#[test]
fn sixteen_bits_pack_to_two_bytes() {
    let bits = bools(&[0, 0, 0, 0, 0, 0, 0, 1, 1, 0, 0, 0, 0, 0, 0, 0]);
    assert_eq!(pack_bits(&bits), vec![0x01u8, 0x80u8]);
    let all = bools(&[1; 16]);
    assert_eq!(pack_bits(&all), vec![0xffu8, 0xffu8]);
}

#[test]
fn input_bits_are_read_most_significant_first() {
    let bytes = vec![0b1011_0101u8, 0b1000_0000u8];
    let want = [1, 0, 1, 1, 0, 1, 0, 1, 1, 0, 0, 0, 0, 0, 0, 0];
    for (i, w) in want.iter().enumerate() {
        assert_eq!(input_bit(&bytes, i), *w == 1, "bit {}", i);
    }
}

#[test]
fn packed_bits_are_read_back() {
    let mut state = 0x9e37_79b9_7f4a_7c15u64;
    for len in [8usize, 16, 24, 40, 43, 64] {
        let mut bits = Vec::new();
        for _ in 0..len {
            state = state.wrapping_mul(6364136223846793005).wrapping_add(1442695040888963407);
            bits.push(state >> 63 == 1);
        }
        let packed = pack_bits(&bits);
        assert_eq!(packed.len(), len / 8);
        for i in 0..8 * (len / 8) {
            assert_eq!(input_bit(&packed, i), bits[i]);
        }
    }
}

#[test]
fn a_neuron_reads_the_bit_at_its_connection_index() {
    // One connection of weight 1 at index 9 among connections of weight 0:
    // the neuron fires exactly when input bit 9 is set.
    let mut conns = Vec::new();
    for i in 0..12 {
        conns.push(NeuronConnection {
            weight: d(if i == 9 { 1.0 } else { 0.0 }),
            offset: d(0.0),
            weight_mutate_chance: d(0.0),
            weight_mutate_amount: d(0.0),
            offset_mutate_chance: d(0.0),
            offset_mutate_amount: d(0.0),
        });
    }
    let set = NeuronConnectionSet { conns, activation_thresh: d(0.5), trait_swap_chance: d(0.0) };
    assert!(set.activated(&vec![0x00, 0b0100_0000]));
    assert!(!set.activated(&vec![0xff, 0b1011_1111]));
}
