use neuroevo::codec::{
    read_connection, read_map, read_set, write_connection, write_map, write_set,
};
use neuroevo::double::Double;
use neuroevo::error::NetworkError;
use neuroevo::network::Network;
use neuroevo::neuron::{NeuronConnection, NeuronConnectionMap, NeuronConnectionSet};
use neuroevo::wire::{push_word, read_word};

fn d(x: f64) -> Double {
    Double::from_bits(x.to_bits())
}

struct Lcg(u64);

impl Lcg {
    fn next(&mut self) -> u64 {
        self.0 = self.0.wrapping_mul(6364136223846793005).wrapping_add(1442695040888963407);
        let hi = self.0 >> 32;
        self.0 = self.0.wrapping_mul(6364136223846793005).wrapping_add(1442695040888963407);
        (hi << 32) | (self.0 >> 32)
    }

    fn double(&mut self) -> Double {
        Double::from_bits(self.next())
    }
}

/// A network of the given sizes whose every field is an arbitrary pattern.
fn arbitrary_network(rng: &mut Lcg, inputs: usize, hidden: &[usize], outputs: usize) -> Network {
    let mut maps = Vec::new();
    let mut width = inputs;
    for &out in hidden.iter().chain([outputs].iter()) {
        let mut map = Vec::new();
        for _ in 0..out {
            let mut conns = Vec::new();
            for _ in 0..width {
                conns.push(NeuronConnection {
                    weight: rng.double(),
                    offset: rng.double(),
                    weight_mutate_chance: rng.double(),
                    weight_mutate_amount: rng.double(),
                    offset_mutate_chance: rng.double(),
                    offset_mutate_amount: rng.double(),
                });
            }
            map.push(NeuronConnectionSet {
                conns,
                activation_thresh: rng.double(),
                trait_swap_chance: rng.double(),
            });
        }
        maps.push(NeuronConnectionMap { map });
        width = out;
    }
    Network { maps, layer_sizes: hidden.to_vec(), num_inputs: inputs, num_outputs: outputs }
}

fn sample_network() -> Network {
    arbitrary_network(&mut Lcg(1), 5, &[4, 3], 2)
}

fn words(words: &[u64]) -> Vec<u8> {
    let mut bytes = Vec::new();
    for w in words {
        bytes.extend_from_slice(&w.to_be_bytes());
    }
    bytes
}

const SENTINEL: u64 = 0xffff_ffff_ffff_ffff;

#[test]
fn save_then_load_gives_the_same_network() {
    let network = sample_network();
    let bytes = network.save_model();
    let loaded = Network::from_file(&bytes).unwrap();
    assert_eq!(loaded, network);
    assert_eq!(loaded.save_model(), bytes);
}

#[test]
fn networks_of_many_shapes_round_trip() {
    let mut rng = Lcg(2);
    let shapes: [(usize, &[usize], usize); 8] = [
        (1, &[], 1),
        (0, &[], 0),
        (3, &[0], 2),
        (0, &[2], 2),
        (9, &[8], 8),
        (2, &[3, 5, 7], 1),
        (17, &[16, 16, 8], 24),
        (4, &[1, 1, 1, 1, 1], 0),
    ];
    for (inputs, hidden, outputs) in shapes {
        let network = arbitrary_network(&mut rng, inputs, hidden, outputs);
        let bytes = network.save_model();
        assert_eq!(Network::from_file(&bytes), Ok(network));
    }
}

#[test]
fn model_length_follows_the_size_formula() {
    let network = sample_network();
    let bytes = network.save_model();
    let connections = 5 * 4 + 4 * 3 + 3 * 2;
    let neurons = 4 + 3 + 2;
    assert_eq!(bytes.len(), 8 * (3 + 2) + 8 * (6 * connections + 2 * neurons));
}

#[test]
fn header_holds_sizes_and_sentinel() {
    let bytes = sample_network().save_model();
    assert_eq!(&bytes[..40], &words(&[5, 2, 4, 3, SENTINEL])[..]);
}

#[test]
fn a_model_is_laid_out_word_by_word() {
    let conn = |base: f64| NeuronConnection {
        weight: d(base),
        offset: d(base + 0.5),
        weight_mutate_chance: d(0.125),
        weight_mutate_amount: d(0.25),
        offset_mutate_chance: d(0.375),
        offset_mutate_amount: d(0.0625),
    };
    let network = Network {
        maps: vec![
            NeuronConnectionMap {
                map: vec![NeuronConnectionSet {
                    conns: vec![conn(1.0), conn(2.0)],
                    activation_thresh: d(-3.0),
                    trait_swap_chance: d(0.75),
                }],
            },
            NeuronConnectionMap {
                map: vec![
                    NeuronConnectionSet {
                        conns: vec![conn(4.0)],
                        activation_thresh: d(5.0),
                        trait_swap_chance: d(1.0),
                    },
                    NeuronConnectionSet {
                        conns: vec![conn(6.0)],
                        activation_thresh: d(7.0),
                        trait_swap_chance: d(0.0),
                    },
                ],
            },
        ],
        layer_sizes: vec![1],
        num_inputs: 2,
        num_outputs: 2,
    };
    let b = |x: f64| x.to_bits();
    let fixed = [b(0.125), b(0.25), b(0.375), b(0.0625)];
    let mut want = vec![2, 2, 1, SENTINEL];
    want.extend([b(1.0), b(1.5)]);
    want.extend(fixed);
    want.extend([b(2.0), b(2.5)]);
    want.extend(fixed);
    want.extend([b(-3.0), b(0.75)]);
    want.extend([b(4.0), b(4.5)]);
    want.extend(fixed);
    want.extend([b(5.0), b(1.0)]);
    want.extend([b(6.0), b(6.5)]);
    want.extend(fixed);
    want.extend([b(7.0), b(0.0)]);
    assert_eq!(b(1.0), 0x3ff0_0000_0000_0000);
    let bytes = network.save_model();
    assert_eq!(bytes, words(&want));
    assert_eq!(&bytes[32..40], &[0x3f, 0xf0, 0, 0, 0, 0, 0, 0]);
    assert_eq!(Network::from_file(&words(&want)), Ok(network));
}

#[test]
fn short_body_is_a_size_mismatch() {
    let full = sample_network().save_model();
    for cut in [1usize, 7, 8, 16, 48, 100] {
        let bytes = full[..full.len() - cut].to_vec();
        assert_eq!(Network::from_file(&bytes), Err(NetworkError::SizeMismatch), "cut {}", cut);
    }
    assert_eq!(Network::from_file(&full[..40].to_vec()), Err(NetworkError::SizeMismatch));
}

#[test]
fn long_body_is_a_size_mismatch() {
    let full = sample_network().save_model();
    for extra in [1usize, 8, 64] {
        let mut bytes = full.clone();
        bytes.extend(vec![0u8; extra]);
        assert_eq!(Network::from_file(&bytes), Err(NetworkError::SizeMismatch), "extra {}", extra);
    }
}

#[test]
fn a_header_that_declares_another_shape_is_a_size_mismatch() {
    let mut bytes = sample_network().save_model();
    bytes[7] = 6;
    assert_eq!(Network::from_file(&bytes), Err(NetworkError::SizeMismatch));
    // Sizes whose body cannot fit in any memory.
    let huge = words(&[u64::MAX - 1, u64::MAX - 1, u64::MAX - 1, SENTINEL]);
    let got = Network::from_file(&huge);
    assert!(got == Err(NetworkError::SizeMismatch) || got == Err(NetworkError::MalformedHeader));
    if usize::BITS == 64 {
        assert_eq!(got, Err(NetworkError::SizeMismatch));
    }
}

#[test]
fn missing_sentinel_is_a_malformed_header() {
    assert_eq!(Network::from_file(&Vec::new()), Err(NetworkError::MalformedHeader));
    assert_eq!(Network::from_file(&words(&[1])), Err(NetworkError::MalformedHeader));
    assert_eq!(Network::from_file(&words(&[1, 1])), Err(NetworkError::MalformedHeader));
    assert_eq!(Network::from_file(&words(&[1, 1, 8])), Err(NetworkError::MalformedHeader));
    assert_eq!(Network::from_file(&words(&[1, 1, 8, 8, 0])), Err(NetworkError::MalformedHeader));
    // The two widths are not searched for the sentinel.
    let widths = words(&[SENTINEL, SENTINEL]);
    assert_eq!(Network::from_file(&widths), Err(NetworkError::MalformedHeader));
    // A sentinel that is cut short is none.
    let mut bytes = words(&[0, 0, SENTINEL]);
    bytes.pop();
    assert_eq!(Network::from_file(&bytes), Err(NetworkError::MalformedHeader));
    // A sentinel that does not start at a word boundary is none.
    let mut bytes = words(&[0, 0]);
    bytes.push(0);
    bytes.extend(words(&[SENTINEL]));
    bytes.extend(vec![0x00; 7]);
    assert_eq!(Network::from_file(&bytes), Err(NetworkError::MalformedHeader));
}

#[test]
fn the_smallest_models_load() {
    let empty = Network::from_file(&words(&[0, 0, SENTINEL])).unwrap();
    assert_eq!(empty.maps.len(), 1);
    assert_eq!(empty.maps[0].map.len(), 0);
    assert_eq!(empty.layer_sizes, Vec::<usize>::new());
    // Three inputs and no neuron anywhere: a header and no body.
    let hollow = Network::from_file(&words(&[3, 0, 0, 0, SENTINEL])).unwrap();
    assert_eq!(hollow.maps.len(), 3);
    assert_eq!(hollow.num_inputs, 3);
    assert_eq!(hollow.layer_sizes, vec![0, 0]);
    // Two neurons without inputs: a threshold and a swap chance each.
    let bytes = words(&[0, 2, SENTINEL, 11, 12, 13, 14]);
    let network = Network::from_file(&bytes).unwrap();
    assert_eq!(network.maps[0].map.len(), 2);
    assert_eq!(network.maps[0].map[1].conns.len(), 0);
    assert_eq!(network.maps[0].map[1].activation_thresh.to_bits(), 13);
    assert_eq!(network.maps[0].map[1].trait_swap_chance.to_bits(), 14);
}

#[test]
fn network_without_hidden_layers_round_trips() {
    let set = NeuronConnectionSet {
        conns: vec![NeuronConnection {
            weight: d(-1.5),
            offset: d(f64::NAN),
            weight_mutate_chance: d(0.0),
            weight_mutate_amount: d(f64::INFINITY),
            offset_mutate_chance: d(-0.0),
            offset_mutate_amount: d(5e-324),
        }],
        activation_thresh: d(1e300),
        trait_swap_chance: d(1.0),
    };
    let network = Network {
        maps: vec![NeuronConnectionMap { map: vec![set] }],
        layer_sizes: vec![],
        num_inputs: 1,
        num_outputs: 1,
    };
    let bytes = network.save_model();
    assert_eq!(bytes.len(), 24 + 64);
    assert_eq!(Network::from_file(&bytes), Ok(network));
}

#[test]
fn words_are_big_endian() {
    let mut bytes = vec![0xaa];
    push_word(&mut bytes, 0x0102_0304_0506_0708);
    push_word(&mut bytes, 0xf000_0000_0000_000f);
    assert_eq!(
        bytes,
        vec![0xaa, 1, 2, 3, 4, 5, 6, 7, 8, 0xf0, 0, 0, 0, 0, 0, 0, 0x0f]
    );
    assert_eq!(read_word(&bytes, 1), 0x0102_0304_0506_0708);
    assert_eq!(read_word(&bytes, 9), 0xf000_0000_0000_000f);
    assert_eq!(read_word(&bytes, 2), 0x0203_0405_0607_08f0);
}

#[test]
fn parts_of_a_body_are_read_back_at_their_offsets() {
    let mut rng = Lcg(9);
    let network = arbitrary_network(&mut rng, 3, &[2], 1);
    let map = &network.maps[0];
    let set = &map.map[1];
    let conn = &set.conns[2];

    let mut bytes = vec![7u8; 5];
    write_connection(&mut bytes, conn);
    assert_eq!(bytes.len(), 5 + 48);
    assert_eq!(&bytes[5..13], &conn.weight.to_bits().to_be_bytes());
    assert_eq!(&bytes[45..53], &conn.offset_mutate_amount.to_bits().to_be_bytes());
    assert_eq!(read_connection(&bytes, 5), *conn);

    write_set(&mut bytes, set);
    assert_eq!(bytes.len(), 53 + 3 * 48 + 16);
    assert_eq!(&bytes[53 + 144..53 + 152], &set.activation_thresh.to_bits().to_be_bytes());
    assert_eq!(&bytes[53 + 152..53 + 160], &set.trait_swap_chance.to_bits().to_be_bytes());
    assert_eq!(read_set(&bytes, 53, 3), *set);
    assert_eq!(read_connection(&bytes, 53 + 2 * 48), *conn);

    let start = bytes.len();
    write_map(&mut bytes, map);
    assert_eq!(bytes.len(), start + 2 * (3 * 48 + 16));
    assert_eq!(read_map(&bytes, start, 2, 3), *map);
    assert_eq!(read_set(&bytes, start + 160, 3), *set);
    assert_eq!(read_map(&bytes, start, 0, 3), NeuronConnectionMap { map: Vec::new() });
}
