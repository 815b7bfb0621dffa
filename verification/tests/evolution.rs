use neuroevo::arith::mutation_range;
use neuroevo::double::Double;
use neuroevo::error::NetworkError;
use neuroevo::network::Network;
use neuroevo::neuron::{
    ConnectionDraw, MutationDraw, NeuronConnection, NeuronConnectionMap, NeuronConnectionSet,
};

fn d(x: f64) -> Double {
    Double::from_bits(x.to_bits())
}

fn f(x: Double) -> f64 {
    f64::from_bits(x.to_bits())
}

fn draw(weight: f64, offset: f64) -> ConnectionDraw {
    ConnectionDraw { weight: d(weight), offset: d(offset) }
}

fn table(out: usize, width: usize, seed: &mut f64) -> Vec<Vec<ConnectionDraw>> {
    let mut rows = Vec::new();
    for _ in 0..out {
        let mut row = Vec::new();
        for _ in 0..width {
            *seed = (*seed * 1.37 + 0.11) % 1.0;
            row.push(draw(2.0 * *seed - 1.0, *seed - 0.5));
        }
        rows.push(row);
    }
    rows
}

fn build(layer_sizes: Vec<usize>, inputs: usize, outputs: usize, seed: f64) -> Network {
    let mut seed = seed;
    let mut draws = Vec::new();
    let mut width = inputs;
    for &size in &layer_sizes {
        draws.push(table(size, width, &mut seed));
        width = size;
    }
    draws.push(table(outputs, width, &mut seed));
    Network::new_random(
        layer_sizes,
        inputs,
        outputs,
        d(0.25),
        d(0.5),
        d(0.1),
        d(0.2),
        d(0.3),
        d(0.4),
        &draws,
    )
    .unwrap()
}

fn all_connections(a: &NeuronConnectionMap, b: &NeuronConnectionMap) -> Vec<[u64; 6]> {
    let mut all = Vec::new();
    for map in [a, b] {
        for set in &map.map {
            for c in &set.conns {
                all.push([
                    c.weight.to_bits(),
                    c.offset.to_bits(),
                    c.weight_mutate_chance.to_bits(),
                    c.weight_mutate_amount.to_bits(),
                    c.offset_mutate_chance.to_bits(),
                    c.offset_mutate_amount.to_bits(),
                ]);
            }
        }
    }
    all.sort();
    all
}

#[test]
fn new_network_has_the_shape_of_its_sizes() {
    let network = build(vec![4, 3], 5, 2, 0.3);
    assert_eq!(network.layer_sizes, vec![4, 3]);
    assert_eq!(network.num_inputs, 5);
    assert_eq!(network.num_outputs, 2);
    let shapes: Vec<(usize, usize)> =
        network.maps.iter().map(|m| (m.map.len(), m.map[0].conns.len())).collect();
    assert_eq!(shapes, vec![(4, 5), (3, 4), (2, 3)]);
    for (map, width) in network.maps.iter().zip([5usize, 4, 3]) {
        for set in &map.map {
            assert_eq!(set.conns.len(), width);
        }
    }
}

#[test]
fn layer_shapes_follow_the_sizes() {
    let sizes = vec![4usize, 3];
    assert_eq!(Network::layer_shape(&sizes, 5, 2, 0), (4, 5));
    assert_eq!(Network::layer_shape(&sizes, 5, 2, 1), (3, 4));
    assert_eq!(Network::layer_shape(&sizes, 5, 2, 2), (2, 3));
    assert_eq!(Network::layer_shape(&Vec::new(), 7, 9, 0), (9, 7));
}

#[test]
fn new_network_holds_the_draws_and_the_parameters() {
    let draws = vec![vec![vec![draw(0.5, -0.25), draw(-1.0, 0.5)]]];
    let network =
        Network::new_random(vec![], 2, 1, d(0.25), d(0.5), d(0.1), d(0.2), d(0.3), d(0.4), &draws)
            .unwrap();
    assert_eq!(network.maps.len(), 1);
    let set = &network.maps[0].map[0];
    assert_eq!(f(set.activation_thresh), 0.25);
    assert_eq!(f(set.trait_swap_chance), 0.5);
    let want = |w: f64, o: f64| NeuronConnection {
        weight: d(w),
        offset: d(o),
        weight_mutate_chance: d(0.1),
        weight_mutate_amount: d(0.2),
        offset_mutate_chance: d(0.3),
        offset_mutate_amount: d(0.4),
    };
    assert_eq!(set.conns, vec![want(0.5, -0.25), want(-1.0, 0.5)]);
}

#[test]
fn draws_of_the_wrong_shape_fail_construction() {
    let mut seed = 0.5;
    let p = d(0.5);
    // One table too few.
    let draws = vec![table(4, 5, &mut seed), table(3, 4, &mut seed)];
    assert_eq!(
        Network::new_random(vec![4, 3], 5, 2, p, p, p, p, p, p, &draws),
        Err(NetworkError::ConstructionFailure)
    );
    // A row too many in the last table.
    let draws = vec![table(4, 5, &mut seed), table(3, 4, &mut seed), table(3, 3, &mut seed)];
    assert_eq!(
        Network::new_random(vec![4, 3], 5, 2, p, p, p, p, p, p, &draws),
        Err(NetworkError::ConstructionFailure)
    );
    // Rows of the wrong width.
    let draws = vec![table(4, 5, &mut seed), table(3, 5, &mut seed), table(2, 3, &mut seed)];
    assert_eq!(
        Network::new_random(vec![4, 3], 5, 2, p, p, p, p, p, p, &draws),
        Err(NetworkError::ConstructionFailure)
    );
    assert_eq!(
        NeuronConnectionMap::new_random(2, 3, p, p, p, p, p, p, &table(2, 2, &mut seed)),
        Err(NetworkError::ConstructionFailure)
    );
    assert_eq!(
        NeuronConnectionSet::new_random(3, p, p, p, p, p, p, &vec![draw(0.0, 0.0)]),
        Err(NetworkError::ConstructionFailure)
    );
}

#[test]
fn draws_out_of_range_fail_construction() {
    let p = d(0.5);
    for (w, o, ok) in [
        (1.0, 0.5, true),
        (-1.0, -0.5, true),
        (0.0, -0.0, true),
        (1.0000000000000002, 0.0, false),
        (-1.5, 0.0, false),
        (0.0, 0.5000000000000001, false),
        (0.0, -0.75, false),
        (f64::NAN, 0.0, false),
        (0.0, f64::NAN, false),
        (f64::INFINITY, 0.0, false),
    ] {
        assert_eq!(draw(w, o).is_valid(), ok, "{} {}", w, o);
        assert_eq!(NeuronConnection::new_random(p, p, p, p, draw(w, o)).is_ok(), ok);
        let draws = vec![vec![vec![draw(0.25, 0.25), draw(w, o)]]];
        assert_eq!(Network::new_random(vec![], 2, 1, p, p, p, p, p, p, &draws).is_ok(), ok);
    }
}

fn conn(weight: f64, offset: f64, weight_amount: f64, offset_amount: f64) -> NeuronConnection {
    NeuronConnection {
        weight: d(weight),
        offset: d(offset),
        weight_mutate_chance: d(1.0),
        weight_mutate_amount: d(weight_amount),
        offset_mutate_chance: d(1.0),
        offset_mutate_amount: d(offset_amount),
    }
}

#[test]
fn mutation_takes_a_draw_within_the_amount() {
    let mut c = conn(2.0, -1.0, 0.5, 0.25);
    c.mutate(MutationDraw { weight: Some(d(2.25)), offset: Some(d(-1.125)) });
    assert_eq!(c, conn(2.25, -1.125, 0.5, 0.25));
    // Only the weight.
    c.mutate(MutationDraw { weight: Some(d(1.875)), offset: None });
    assert_eq!(c, conn(1.875, -1.125, 0.5, 0.25));
    // Only the offset.
    c.mutate(MutationDraw { weight: None, offset: Some(d(-0.9)) });
    assert_eq!(c, conn(1.875, -0.9, 0.5, 0.25));
}

#[test]
fn mutation_without_a_draw_changes_nothing() {
    let before = conn(2.0, -1.0, 0.5, 0.25);
    let mut c = before;
    for _ in 0..100 {
        c.mutate(MutationDraw { weight: None, offset: None });
    }
    assert_eq!(c, before);
}

#[test]
fn mutation_refuses_a_draw_beyond_the_amount() {
    let before = conn(2.0, -1.0, 0.5, 0.25);
    for w in [2.5, 1.5, 3.0, -2.0, f64::NAN, f64::INFINITY] {
        let mut c = before;
        c.mutate(MutationDraw { weight: Some(d(w)), offset: None });
        assert_eq!(c, before, "weight {}", w);
    }
    for o in [-0.75, -1.25, 0.0, f64::NAN] {
        let mut c = before;
        c.mutate(MutationDraw { weight: None, offset: Some(d(o)) });
        assert_eq!(c, before, "offset {}", o);
    }
    let mut c = before;
    c.mutate(MutationDraw {
        weight: Some(d(2.4999999999999996)),
        offset: Some(d(-1.2499999999999998)),
    });
    assert_eq!(c, conn(2.4999999999999996, -1.2499999999999998, 0.5, 0.25));
}

#[test]
fn mutation_chance_of_zero_changes_nothing() {
    let mut before = conn(2.0, -1.0, 0.5, 0.25);
    before.weight_mutate_chance = d(0.0);
    let mut c = before;
    let mut offset = -1.0;
    for i in 0..100 {
        let step = if i % 2 == 0 { 0.125 } else { -0.0625 };
        offset += step;
        c.mutate(MutationDraw { weight: Some(d(2.0 + step)), offset: Some(d(offset)) });
        // The weight never moves; the offset, whose chance is 1, does.
        assert_eq!(c.weight, before.weight);
        assert_eq!(c.offset, d(offset));
    }
    // Neither does it with a chance of negative zero, or one that is no number.
    for chance in [-0.0, f64::NAN, -0.5] {
        let mut c = before;
        c.weight_mutate_chance = d(chance);
        c.mutate(MutationDraw { weight: Some(d(2.25)), offset: None });
        assert_eq!(c.weight, before.weight);
    }
}

#[test]
fn mutation_amount_of_zero_changes_nothing() {
    let before = conn(2.0, -1.0, 0.0, -0.0);
    for w in [2.0, 2.0000000000000004, 1.9999999999999998, 0.0, -2.0] {
        let mut c = before;
        c.mutate(MutationDraw { weight: Some(d(w)), offset: Some(d(w - 3.0)) });
        assert_eq!(c, before);
    }
    assert_eq!(mutation_range(d(2.0), d(0.0)), None);
}

#[test]
fn mutation_range_is_the_amount_around_the_value() {
    assert_eq!(mutation_range(d(2.0), d(0.5)), Some((d(1.5), d(2.5))));
    assert_eq!(mutation_range(d(-0.1), d(0.2)), Some((d(-0.1 - 0.2), d(-0.1 + 0.2))));
    assert_eq!(mutation_range(d(1.0), d(-0.5)), None);
    assert_eq!(mutation_range(d(f64::NAN), d(0.5)), None);
    assert_eq!(mutation_range(d(1.0), d(f64::INFINITY)), None);
    assert_eq!(mutation_range(d(f64::MAX), d(f64::MAX)), None);
    assert_eq!(mutation_range(d(0.0), d(f64::MAX)), None);
    assert_eq!(mutation_range(d(1.0e15), d(1.0)), Some((d(1.0e15 - 1.0), d(1.0e15 + 1.0))));
    // The amount is lost in rounding: both bounds are the value itself.
    assert_eq!(mutation_range(d(1.0e17), d(1.0)), None);
}

#[test]
fn mutating_a_network_reaches_each_connection_with_its_own_draw() {
    let mut network = build(vec![8], 3, 2, 0.7);
    let before = network.clone();
    let mut draws: Vec<Vec<Vec<MutationDraw>>> = Vec::new();
    for map in &network.maps {
        let mut t = Vec::new();
        for set in &map.map {
            let mut row = Vec::new();
            for (i, c) in set.conns.iter().enumerate() {
                row.push(MutationDraw {
                    weight: if i % 2 == 0 { Some(d(f(c.weight) + 0.125)) } else { None },
                    offset: if i % 3 == 0 { Some(d(f(c.offset) - 0.25)) } else { None },
                });
            }
            t.push(row);
        }
        draws.push(t);
    }
    network.mutate(&draws);
    assert_eq!(network.layer_sizes, before.layer_sizes);
    for (m, map) in network.maps.iter().enumerate() {
        assert_eq!(map.map.len(), before.maps[m].map.len());
        for (s, set) in map.map.iter().enumerate() {
            let old = &before.maps[m].map[s];
            assert_eq!(set.activation_thresh, old.activation_thresh);
            assert_eq!(set.conns.len(), old.conns.len());
            for (i, c) in set.conns.iter().enumerate() {
                let mut want = old.conns[i];
                if i % 2 == 0 {
                    want.weight = d(f(want.weight) + 0.125);
                }
                if i % 3 == 0 {
                    want.offset = d(f(want.offset) - 0.25);
                }
                assert_eq!(*c, want);
            }
        }
    }
    // Draws for fewer maps than there are leave the other maps alone.
    let mut short = before.clone();
    short.mutate(&draws[..1].to_vec());
    assert_eq!(short.maps[0], network.maps[0]);
    assert_eq!(short.maps[1], before.maps[1]);
}

#[test]
fn crossover_swaps_whole_connections_where_told() {
    let mut a = NeuronConnectionSet {
        conns: vec![conn(1.0, 0.1, 0.5, 0.5), conn(2.0, 0.2, 0.5, 0.5), conn(3.0, 0.3, 0.5, 0.5)],
        activation_thresh: d(0.5),
        trait_swap_chance: d(1.0),
    };
    let mut b = NeuronConnectionSet {
        conns: vec![
            conn(-1.0, 0.4, 0.1, 0.2),
            conn(-2.0, 0.5, 0.1, 0.2),
            conn(-3.0, 0.6, 0.1, 0.2),
        ],
        activation_thresh: d(-0.5),
        trait_swap_chance: d(0.0),
    };
    a.trade_with(&mut b, &vec![true, false, true]);
    assert_eq!(
        a.conns,
        vec![conn(-1.0, 0.4, 0.1, 0.2), conn(2.0, 0.2, 0.5, 0.5), conn(-3.0, 0.6, 0.1, 0.2)]
    );
    assert_eq!(
        b.conns,
        vec![conn(1.0, 0.1, 0.5, 0.5), conn(-2.0, 0.5, 0.1, 0.2), conn(3.0, 0.3, 0.5, 0.5)]
    );
    assert_eq!(f(a.activation_thresh), 0.5);
    assert_eq!(f(a.trait_swap_chance), 1.0);
    assert_eq!(f(b.activation_thresh), -0.5);
    assert_eq!(f(b.trait_swap_chance), 0.0);
}

#[test]
fn crossover_asks_only_the_swap_chance_of_the_neuron_that_trades() {
    let mine = vec![conn(1.0, 0.1, 0.5, 0.5), conn(2.0, 0.2, 0.5, 0.5)];
    let theirs = vec![conn(-1.0, 0.4, 0.1, 0.2), conn(-2.0, 0.5, 0.1, 0.2)];
    let set = |conns: &Vec<NeuronConnection>, chance: f64| NeuronConnectionSet {
        conns: conns.clone(),
        activation_thresh: d(0.5),
        trait_swap_chance: d(chance),
    };
    // A swap chance of zero: nothing is swapped, whatever the other's chance.
    let mut a = set(&mine, 0.0);
    let mut b = set(&theirs, 1.0);
    a.trade_with(&mut b, &vec![true, true]);
    assert_eq!(a.conns, mine);
    assert_eq!(b.conns, theirs);
    // The other way round, the chance of 1 counts.
    b.trade_with(&mut a, &vec![true, true]);
    assert_eq!(a.conns, theirs);
    assert_eq!(b.conns, mine);
    // Any chance above zero lets the drawn swaps through.
    let mut a = set(&mine, 1.0e-300);
    let mut b = set(&theirs, 0.0);
    a.trade_with(&mut b, &vec![false, true]);
    assert_eq!(a.conns, vec![mine[0], theirs[1]]);
    assert_eq!(b.conns, vec![theirs[0], mine[1]]);
}

#[test]
fn crossover_stops_at_the_shortest_of_the_three() {
    let mut a = NeuronConnectionSet {
        conns: vec![conn(1.0, 0.0, 0.0, 0.0), conn(2.0, 0.0, 0.0, 0.0), conn(3.0, 0.0, 0.0, 0.0)],
        activation_thresh: d(0.5),
        trait_swap_chance: d(1.0),
    };
    let mut b = NeuronConnectionSet {
        conns: vec![conn(-1.0, 0.0, 0.0, 0.0), conn(-2.0, 0.0, 0.0, 0.0)],
        activation_thresh: d(0.5),
        trait_swap_chance: d(1.0),
    };
    a.trade_with(&mut b, &vec![true, true, true, true]);
    assert_eq!(a.conns.iter().map(|c| f(c.weight)).collect::<Vec<_>>(), vec![-1.0, -2.0, 3.0]);
    assert_eq!(b.conns.iter().map(|c| f(c.weight)).collect::<Vec<_>>(), vec![1.0, 2.0]);
    a.trade_with(&mut b, &vec![true]);
    assert_eq!(a.conns.iter().map(|c| f(c.weight)).collect::<Vec<_>>(), vec![1.0, -2.0, 3.0]);
    assert_eq!(b.conns.iter().map(|c| f(c.weight)).collect::<Vec<_>>(), vec![-1.0, 2.0]);
}

#[test]
fn crossover_of_networks_conserves_the_connections_of_each_pair_of_maps() {
    let mut a = build(vec![8, 4], 6, 3, 0.21);
    let mut b = build(vec![8, 4], 6, 3, 0.83);
    let before_a = a.clone();
    let before_b = b.clone();
    let mut state = 12345u64;
    let mut swaps: Vec<Vec<Vec<bool>>> = Vec::new();
    for map in &a.maps {
        let mut t = Vec::new();
        for set in &map.map {
            let mut row = Vec::new();
            for _ in &set.conns {
                state = state.wrapping_mul(6364136223846793005).wrapping_add(1442695040888963407);
                row.push(state >> 63 == 1);
            }
            t.push(row);
        }
        swaps.push(t);
    }
    a.random_trade(&mut b, &swaps);
    let mut moved = 0;
    for m in 0..a.maps.len() {
        assert_eq!(
            all_connections(&a.maps[m], &b.maps[m]),
            all_connections(&before_a.maps[m], &before_b.maps[m])
        );
        for s in 0..a.maps[m].map.len() {
            for c in 0..a.maps[m].map[s].conns.len() {
                let (mine, theirs) = (a.maps[m].map[s].conns[c], b.maps[m].map[s].conns[c]);
                let (old_mine, old_theirs) =
                    (before_a.maps[m].map[s].conns[c], before_b.maps[m].map[s].conns[c]);
                if swaps[m][s][c] {
                    moved += 1;
                    assert_eq!((mine, theirs), (old_theirs, old_mine));
                } else {
                    assert_eq!((mine, theirs), (old_mine, old_theirs));
                }
            }
            let (set, old_set) = (&a.maps[m].map[s], &before_a.maps[m].map[s]);
            assert_eq!(set.activation_thresh, old_set.activation_thresh);
            assert_eq!(set.trait_swap_chance, old_set.trait_swap_chance);
        }
    }
    assert!(moved > 0);
    assert_eq!(a.layer_sizes, before_a.layer_sizes);
    assert_eq!(b.num_inputs, before_b.num_inputs);
    // Trading back with the same swaps restores both networks.
    a.random_trade(&mut b, &swaps);
    assert_eq!(a, before_a);
    assert_eq!(b, before_b);
}

#[test]
fn crossover_without_swaps_changes_nothing() {
    let mut a = build(vec![8], 4, 2, 0.21);
    let mut b = build(vec![8], 4, 2, 0.83);
    let (before_a, before_b) = (a.clone(), b.clone());
    a.random_trade(&mut b, &Vec::new());
    assert_eq!(a, before_a);
    assert_eq!(b, before_b);
    let none: Vec<Vec<Vec<bool>>> =
        a.maps.iter().map(|m| m.map.iter().map(|s| vec![false; s.conns.len()]).collect()).collect();
    a.random_trade(&mut b, &none);
    assert_eq!(a, before_a);
    assert_eq!(b, before_b);
}
