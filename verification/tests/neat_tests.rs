use neatfour::fixed::SCALE;
use neatfour::genes::{Connection, Node, Type};
use neatfour::neat::Neat;
use neatfour::network::{NeatError, Network};
use neatfour::species::{distance, speciate};

/// The golden fixture: sigmoid(0) = 0.5 exactly for the inputs [0,0] and
/// [1,1]. For the mixed inputs the described network mathematically yields
/// sigmoid(+1) (the hidden unit is silent and exactly one sensor feeds the
/// output with weight 1).
#[test]
fn xor_fixture_outputs() {
    let mut net = Neat::_get_xor_network();

    let o00 = net.feed_forward(&vec![0, 0]).unwrap();
    assert_eq!(o00, vec![SCALE / 2]);

    let o11 = net.feed_forward(&vec![SCALE, SCALE]).unwrap();
    assert_eq!(o11, vec![SCALE / 2]);

    let o01 = net.feed_forward(&vec![0, SCALE]).unwrap();
    let o10 = net.feed_forward(&vec![SCALE, 0]).unwrap();
    assert_eq!(o01, o10);
    // sigmoid(1.0) ~= 0.7311, fixed point
    assert!(o01[0] > 47000 && o01[0] < 48500, "got {}", o01[0]);
}

#[test]
fn feed_forward_rejects_wrong_input_size() {
    let mut net = Neat::_get_xor_network();
    assert_eq!(net.feed_forward(&vec![0]), Err(NeatError::InvalidInputSize));
    assert_eq!(net.feed_forward(&vec![0, 0, 0]), Err(NeatError::InvalidInputSize));
}

/// Pure evaluation: two consecutive calls return identical output, the
/// network is left exactly as it was.
#[test]
fn feed_forward_is_pure() {
    let mut net = Neat::_get_xor_network();
    let a = net.feed_forward(&vec![SCALE, 0]).unwrap();
    let b = net.feed_forward(&vec![SCALE, 0]).unwrap();
    assert_eq!(a, b);

    let mut neat = Neat::new_with_seed(3, 2, 99);
    neat.generate_population(4);
    for i in 0..4 {
        let net = neat.get_network(i);
        let x = net.feed_forward(&vec![SCALE, -SCALE, 123]).unwrap();
        let y = net.feed_forward(&vec![SCALE, -SCALE, 123]).unwrap();
        assert_eq!(x, y);
        assert_eq!(x.len(), 2);
    }
}

#[test]
fn new_network_is_minimal() {
    let mut neat = Neat::new_with_seed(2, 1, 5);
    neat.generate_population(3);
    for i in 0..3 {
        let net = neat.get_network(i);
        // sensors, bias and output only, and exactly one enabled connection
        assert_eq!(net.connection_genes.len(), 1);
        assert!(net.connection_genes[0].enabled);
        assert_eq!(net.node_genes.len(), 4);
    }
    assert!(neat.registry.connection_list.len() >= 1);
}

/// A split disables the picked gene and wires source -> k (weight 1.0) and
/// k -> target (the original weight) under consecutive innovation ids.
#[test]
fn split_rewires_the_picked_gene() {
    let mut neat = Neat::new_with_seed(2, 1, 31);
    neat.generate_population(1);
    let g0 = neat.population[0].connection_genes[0];
    let k = {
        let (pop, reg) = (&mut neat.population, &mut neat.registry);
        pop[0].split_connection(reg, 0)
    };
    let net = &neat.population[0];
    assert_eq!(net.connection_genes.len(), 3);
    let old_gene = net.connection_genes.iter().find(|g| g.innovation == g0.innovation).unwrap();
    assert!(!old_gene.enabled);
    let g_in = net.connection_genes.iter().find(|g| g.output == k).unwrap();
    assert!(g_in.enabled);
    assert_eq!(g_in.weight, SCALE);
    assert_eq!(g_in.input, g0.input);
    let g_out = net.connection_genes.iter().find(|g| g.input == k).unwrap();
    assert!(g_out.enabled);
    assert_eq!(g_out.weight, g0.weight);
    assert_eq!(g_out.output, g0.output);
    assert_eq!(g_out.innovation, g_in.innovation + 1);
}

/// Innovation convergence: two genomes holding the same connection gene
/// (same innovation id) that both split it receive the same new node id and
/// end up with the same gene innovation ids.
#[test]
fn innovation_convergence_on_shared_split() {
    let mut neat = Neat::new_with_seed(2, 1, 11);
    neat.generate_population(1);
    let twin = neat.get_network(0).copy();
    neat.population.push(twin);

    // both genomes hold the gene with the same innovation id at position 0
    let c0 = neat.population[0].connection_genes[0].innovation;
    let c1 = neat.population[1].connection_genes[0].innovation;
    assert_eq!(c0, c1);

    let k0 = {
        let (pop, reg) = (&mut neat.population, &mut neat.registry);
        pop[0].split_connection(reg, 0)
    };
    let k1 = {
        let (pop, reg) = (&mut neat.population, &mut neat.registry);
        pop[1].split_connection(reg, 0)
    };
    assert_eq!(k0, k1);

    let ids0: Vec<usize> =
        neat.population[0].connection_genes.iter().map(|g| g.innovation).collect();
    let ids1: Vec<usize> =
        neat.population[1].connection_genes.iter().map(|g| g.innovation).collect();
    assert_eq!(ids0, ids1);
    // only one split was recorded
    assert_eq!(neat.registry.node_mutations.len(), 1);
}

fn gene(innovation: usize, weight: i64) -> Connection {
    Connection { innovation, input: 0, output: 1, weight, enabled: true }
}

#[test]
fn distance_exact_values() {
    let c1 = SCALE;
    let c2 = SCALE;
    let c3 = 26214;

    // one matching gene, weight difference exactly 1.0
    let a = vec![gene(0, 0)];
    let b = vec![gene(0, SCALE)];
    assert_eq!(distance(&a, &b, c1, c2, c3), c3);

    // identical genomes: distance zero
    assert_eq!(distance(&a, &a, c1, c2, c3), 0);

    // one excess gene on top of one match, equal weights
    let a = vec![gene(0, 7)];
    let b = vec![gene(0, 7), gene(5, 7)];
    assert_eq!(distance(&a, &b, c1, c2, c3), SCALE / 2);
}

/// Speciation coverage: after grouping, the member lists partition the
/// population: every index exactly once.
#[test]
fn speciation_covers_population_exactly_once() {
    let mut neat = Neat::new_with_seed(4, 2, 21);
    neat.generate_population(12);
    let sp = speciate(
        &neat.population,
        neat.compatability_constant_1,
        neat.compatability_constant_2,
        neat.compatability_constant_3,
        neat.minimum_speciation_distance,
    );
    let mut seen = vec![false; 12];
    for s in &sp {
        assert!(!s.members.is_empty());
        for &m in &s.members {
            assert!(m < 12);
            assert!(!seen[m], "index {} appears twice", m);
            seen[m] = true;
        }
    }
    assert!(seen.iter().all(|&x| x));
}

#[test]
fn identical_genomes_form_one_species() {
    let mut neat = Neat::new_with_seed(2, 1, 3);
    neat.generate_population(1);
    let twin_a = neat.population[0].copy();
    let twin_b = neat.population[0].copy();
    neat.population.push(twin_a);
    neat.population.push(twin_b);
    let sp = speciate(&neat.population, SCALE, SCALE, 26214, 3 * SCALE);
    assert_eq!(sp.len(), 1);
    assert_eq!(sp[0].members.len(), 3);
}

/// Determinism: the same seed and the same fitness assignment give the same
/// population sequence, generation after generation.
#[test]
fn determinism_same_seed_same_population_sequence() {
    let mut x = Neat::new_with_seed(2, 1, 4242);
    let mut y = Neat::new_with_seed(2, 1, 4242);
    x.generate_population(8);
    y.generate_population(8);
    for _ in 0..3 {
        let fits: Vec<i64> = (0..8).map(|i| (i as i64) * 1000 - 2000).collect();
        x.next_generation(fits.clone());
        y.next_generation(fits);
        assert_eq!(x.population.len(), 8);
        assert_eq!(y.population.len(), 8);
        for i in 0..8 {
            let a = &x.population[i];
            let b = &y.population[i];
            assert_eq!(a.connection_genes, b.connection_genes);
            assert_eq!(a.node_genes.len(), b.node_genes.len());
            for j in 0..a.node_genes.len() {
                assert_eq!(a.node_genes[j].innovation, b.node_genes[j].innovation);
                assert!(a.node_genes[j].node_type == b.node_genes[j].node_type);
            }
        }
    }
    assert_eq!(x.registry.connection_list.len(), y.registry.connection_list.len());
}

#[test]
fn next_generation_keeps_population_size() {
    let mut neat = Neat::new_with_seed(3, 1, 77);
    neat.generate_population(10);
    for g in 0..4 {
        let fits: Vec<i64> = (0..10).map(|i| ((i * 37 + g * 11) % 50) as i64 * 100).collect();
        neat.next_generation(fits);
        assert_eq!(neat.population.len(), 10);
    }
}

#[test]
fn find_connection_reports_registered_pairs() {
    let mut neat = Neat::new_with_seed(2, 1, 8);
    neat.generate_population(1);
    let g = neat.population[0].connection_genes[0];
    assert_eq!(neat.find_connection(g.input, g.output), Some(g.innovation));
    // the bias node never has an incoming connection
    assert_eq!(neat.find_connection(0, 2), None);
}

#[test]
fn calculate_fitnesses_stores_the_vector() {
    let mut neat = Neat::new_with_seed(2, 1, 9);
    neat.generate_population(3);
    neat.calculate_fitnesses(vec![5, -7, 0]);
    assert_eq!(neat.network_fitnesses, vec![5, -7, 0]);
}

#[test]
fn zero_sensor_network_still_works() {
    let mut neat = Neat::new_with_seed(0, 1, 13);
    neat.generate_population(2);
    let net = neat.get_network(0);
    let out = net.feed_forward(&vec![]).unwrap();
    assert_eq!(out.len(), 1);
}

/// Acyclicity in action: however many structural mutations have happened,
/// evaluation never meets a cycle (it would report `CycleDetected`).
#[test]
fn evolved_networks_evaluate_without_cycles() {
    let mut neat = Neat::new_with_seed(3, 2, 2024);
    neat.generate_population(12);
    for g in 0..6 {
        let fits: Vec<i64> = (0..12).map(|i| ((i * 13 + g * 7) % 30) as i64 * SCALE).collect();
        neat.next_generation(fits);
        for i in 0..12 {
            let net = neat.get_network(i);
            let out = net.feed_forward(&vec![SCALE, 0, -SCALE]);
            assert!(out.is_ok());
            assert_eq!(out.unwrap().len(), 2);
        }
    }
    // the registry keeps growing monotonically, never shrinking
    assert!(neat.registry.connection_list.len() >= 1);
}

/// A hand-built genome with a cycle among hidden nodes is rejected
/// defensively instead of recursing forever.
#[test]
fn cycle_is_detected_defensively() {
    let mk = |innovation: usize, node_type: Type| Node {
        innovation,
        node_type,
        activation_value: None,
    };
    let c = |innovation: usize, input: usize, output: usize| Connection {
        innovation,
        input,
        output,
        weight: SCALE,
        enabled: true,
    };
    let mut net = Network {
        node_genes: vec![
            mk(0, Type::Sensor),
            mk(1, Type::Bias),
            mk(2, Type::Output),
            mk(3, Type::Hidden),
            mk(4, Type::Hidden),
        ],
        connection_genes: vec![c(0, 3, 4), c(1, 4, 3), c(2, 4, 2)],
        num_sensors: 1,
        num_outputs: 1,
    };
    assert_eq!(net.feed_forward(&vec![0]), Err(NeatError::CycleDetected));
}

/// A gene naming a node the genome does not hold is rejected defensively.
#[test]
fn missing_node_is_detected_defensively() {
    let mut net = Network {
        node_genes: vec![
            Node { innovation: 0, node_type: Type::Sensor, activation_value: None },
            Node { innovation: 1, node_type: Type::Bias, activation_value: None },
            Node { innovation: 2, node_type: Type::Output, activation_value: None },
        ],
        connection_genes: vec![Connection {
            innovation: 0,
            input: 99,
            output: 2,
            weight: SCALE,
            enabled: true,
        }],
        num_sensors: 1,
        num_outputs: 1,
    };
    assert_eq!(net.feed_forward(&vec![0]), Err(NeatError::MissingNode));
}

/// Elitism: a species larger than the minimum carries its highest-fitness
/// member into the next generation unchanged (elites are placed first).
#[test]
fn elitism_carries_the_champion_unchanged() {
    let mut neat = Neat::new_with_seed(2, 1, 55);
    neat.generate_population(1);
    for _ in 0..7 {
        let c = neat.population[0].copy();
        neat.population.push(c);
    }
    // distinguish the genomes by weight; they stay one species
    for i in 0..8 {
        neat.population[i].connection_genes[0].weight = (i as i64) * 100;
    }
    let champion_genes = neat.population[3].connection_genes.clone();
    let fits: Vec<i64> = vec![0, 10, 20, 99999, 5, 1, 2, 3];
    neat.next_generation(fits);
    assert_eq!(neat.population[0].connection_genes, champion_genes);
}
