use net_coords::chord::{vdist, add_cyc, init_fingers, converge_fingers, verify_global_optimality,
                        create_semi_chains, find_path};
use net_coords::chord::node_fingers::{NodeFingers, SemiChain};
use net_coords::network::Network;
use rand::SeedableRng;

#[test]
fn mod_test_d() {
    let l = 42;
    assert!(vdist(1u64, 2, l) == 1);
    assert!(vdist(1u64, 101, l) == 100);
    assert!(vdist(2_u64.pow(l as u32) - 1, 1, l) == 2);
    assert!(vdist(2_u64.pow(l as u32) - 1, 0, l) == 1);
    assert!(vdist(1, 0, l) == 2_u64.pow(l as u32) - 1);
}

#[test]
fn test_add_cyc() {
    // Check add:
    assert!(add_cyc(0, 1, 5) == 1);
    assert!(add_cyc(1, 1, 5) == 2);
    assert!(add_cyc(30, 1, 5) == 31);
    assert!(add_cyc(31, 1, 5) == 0);

    // Check sub:
    assert!(add_cyc(2, -1, 5) == 1);
    assert!(add_cyc(1, -1, 5) == 0);
    assert!(add_cyc(0, -1, 5) == 31);
    assert!(add_cyc(31, -1, 30) == 30);
}

#[test]
fn test_inner_lexicographic() {
    // Make sure that vectors participate inside
    // lexicographic comparison.
    let d = (1, 2, vec![3, 6]);
    let a = (1, 2, vec![3, 4]);
    let b = (1, 2, vec![3, 5]);
    let c = (1, 2, vec![3, 6]);

    assert!(a < b);
    assert!(a < c);
    assert!(a < d);

    let aa = (1, 2, vec![4, 4]);
    assert!(aa > a);

    let m = (5, 2, vec![1, 1]);
    assert!(m > a);
}

/// Generate a random graph to be used with chord.
/// Graph nodes are keyed by random ring keys.
fn random_net_chord(
    num_nodes: usize,
    num_neighbors: usize,
    l: usize,
    rng: &mut rand::rngs::StdRng,
) -> Network {
    let max_key = 2_u64.pow(l as u32);
    assert!((num_nodes as u64) * (num_nodes as u64) < max_key, "Too many nodes!");
    assert!(num_nodes > 0, "We should have at least one node!");

    let mut net = Network::new();
    let mut chosen_keys: Vec<u64> = Vec::new();
    for _ in 0..num_nodes {
        let mut node_key = rand::Rng::gen_range(rng, 0..max_key);
        while chosen_keys.contains(&node_key) {
            node_key = rand::Rng::gen_range(rng, 0..max_key);
        }
        chosen_keys.push(node_key);
        net.add_node(node_key);
    }
    for v in 0..num_nodes {
        for _ in 0..num_neighbors {
            let u = rand::Rng::gen_range(rng, 0..num_nodes);
            if u == v {
                // Avoid self loops
                continue;
            }
            net.add_edge(v, u);
        }
    }
    net
}

/// A small connected network with fixed keys: a ring plus one chord edge.
fn small_ring_net() -> Network {
    let mut net = Network::new();
    for &key in &[3u64, 17, 33, 40, 55] {
        net.add_node(key);
    }
    net.add_edge(0, 1);
    net.add_edge(1, 2);
    net.add_edge(2, 3);
    net.add_edge(3, 4);
    net.add_edge(4, 0);
    net.add_edge(1, 3);
    net
}

#[test]
fn test_chord_basic() {
    // The seed is chosen so that the generated graph is connected.
    let mut rng = rand::rngs::StdRng::seed_from_u64(9);
    let num_nodes = 5;
    let num_neighbors = 2;
    let l: usize = 6; // Size of keyspace
    let net = random_net_chord(num_nodes, num_neighbors, l, &mut rng);
    let mut fingers = init_fingers(&net, l, &mut rng);
    converge_fingers(&net, &mut fingers, l);
    assert!(verify_global_optimality(&net, &fingers));
    let semi_chains = create_semi_chains(&net, &fingers);

    for index_a in 0..num_nodes {
        for index_b in 0..num_nodes {
            let src_id = net.index_to_node(index_a).unwrap();
            let dst_id = net.index_to_node(index_b).unwrap();
            let _ = find_path(src_id, dst_id, &net, &semi_chains).unwrap();
        }
    }
}

#[test]
fn test_converge_global_optimality() {
    // After convergence on a connected network, every finger points at the
    // true closest key in its direction.
    let net = small_ring_net();
    let l: usize = 6;
    let mut rng = rand::rngs::StdRng::seed_from_u64(1);
    let mut fingers = init_fingers(&net, l, &mut rng);
    converge_fingers(&net, &mut fingers, l);
    assert!(verify_global_optimality(&net, &fingers));
}

#[test]
fn test_find_path_all_pairs() {
    // In a connected, converged network a route exists between every pair,
    // and its length never exceeds the node count.
    let net = small_ring_net();
    let l: usize = 6;
    let mut rng = rand::rngs::StdRng::seed_from_u64(1);
    let mut fingers = init_fingers(&net, l, &mut rng);
    converge_fingers(&net, &mut fingers, l);
    assert!(verify_global_optimality(&net, &fingers));
    let semi_chains = create_semi_chains(&net, &fingers);
    for a in 0..5 {
        for b in 0..5 {
            let src = net.index_to_node(a).unwrap();
            let dst = net.index_to_node(b).unwrap();
            let res = find_path(src, dst, &net, &semi_chains);
            assert!(res.is_some());
            assert!(res.unwrap() <= 5);
            if a == b {
                assert_eq!(res, Some(0));
            }
        }
    }
}

#[test]
fn test_converge_deterministic() {
    // Converging twice from the same seed yields identical finger tables
    // and identical route lengths.
    let l: usize = 6;

    let net1 = small_ring_net();
    let mut rng1 = rand::rngs::StdRng::seed_from_u64(7);
    let mut fingers1 = init_fingers(&net1, l, &mut rng1);
    converge_fingers(&net1, &mut fingers1, l);

    let net2 = small_ring_net();
    let mut rng2 = rand::rngs::StdRng::seed_from_u64(7);
    let mut fingers2 = init_fingers(&net2, l, &mut rng2);
    converge_fingers(&net2, &mut fingers2, l);

    assert_eq!(fingers1.len(), fingers2.len());
    for i in 0..fingers1.len() {
        assert_eq!(fingers1[i].all_fingers(), fingers2[i].all_fingers());
    }

    let sc1 = create_semi_chains(&net1, &fingers1);
    let sc2 = create_semi_chains(&net2, &fingers2);
    for a in 0..5 {
        for b in 0..5 {
            let src = net1.index_to_node(a).unwrap();
            let dst = net1.index_to_node(b).unwrap();
            assert_eq!(
                find_path(src, dst, &net1, &sc1),
                find_path(src, dst, &net2, &sc2)
            );
        }
    }
}

#[test]
fn test_converge_idempotent() {
    // Re-running the relax phase on an already-converged table set changes
    // nothing.
    let net = small_ring_net();
    let l: usize = 6;
    let mut rng = rand::rngs::StdRng::seed_from_u64(3);
    let mut fingers = init_fingers(&net, l, &mut rng);
    converge_fingers(&net, &mut fingers, l);
    let before: Vec<_> = fingers.iter().map(|nf| nf.all_fingers()).collect();
    converge_fingers(&net, &mut fingers, l);
    let after: Vec<_> = fingers.iter().map(|nf| nf.all_fingers()).collect();
    assert_eq!(before, after);
}

#[test]
fn test_converge_single_node() {
    let mut net = Network::new();
    net.add_node(12);
    let l: usize = 6;
    let mut rng = rand::rngs::StdRng::seed_from_u64(2);
    let mut fingers = init_fingers(&net, l, &mut rng);
    converge_fingers(&net, &mut fingers, l);
    assert!(verify_global_optimality(&net, &fingers));
    let semi_chains = create_semi_chains(&net, &fingers);
    assert_eq!(find_path(12, 12, &net, &semi_chains), Some(0));
}

#[test]
fn test_converge_two_nodes() {
    let mut net = Network::new();
    net.add_node(5);
    net.add_node(50);
    net.add_edge(0, 1);
    let l: usize = 6;
    let mut rng = rand::rngs::StdRng::seed_from_u64(2);
    let mut fingers = init_fingers(&net, l, &mut rng);
    converge_fingers(&net, &mut fingers, l);
    assert!(verify_global_optimality(&net, &fingers));
    let semi_chains = create_semi_chains(&net, &fingers);
    assert_eq!(find_path(5, 50, &net, &semi_chains), Some(1));
    assert_eq!(find_path(50, 5, &net, &semi_chains), Some(1));
}

#[test]
fn test_disconnected_network_routes_fail() {
    // Two components: routing between them must report "no path", never
    // loop or panic.
    let mut net = Network::new();
    net.add_node(2);
    net.add_node(9);
    net.add_node(33);
    net.add_node(41);
    net.add_edge(0, 1);
    net.add_edge(2, 3);
    let l: usize = 6;
    let mut rng = rand::rngs::StdRng::seed_from_u64(5);
    let mut fingers = init_fingers(&net, l, &mut rng);
    converge_fingers(&net, &mut fingers, l);
    // A disconnected network is detected by the optimality oracle.
    assert!(!verify_global_optimality(&net, &fingers));
    let semi_chains = create_semi_chains(&net, &fingers);
    assert_eq!(find_path(2, 9, &net, &semi_chains), Some(1));
    assert_eq!(find_path(2, 33, &net, &semi_chains), None);
    assert_eq!(find_path(41, 9, &net, &semi_chains), None);
}

#[test]
fn test_monotonic_improvement_updates() {
    // Offering a sequence of chains to one table never worsens any slot's
    // (ring distance, hop count) score, on either side.
    let l: usize = 6;
    let mut nf = NodeFingers::new(10, &vec![9], &vec![11, 14, 26, 42]);
    let right_scores = |nf: &NodeFingers| -> Vec<(u64, usize)> {
        nf.right
            .sorted_fingers
            .iter()
            .map(|f| (vdist(f.target_id, f.schain.final_id, l), f.schain.length))
            .collect()
    };
    let left_scores = |nf: &NodeFingers| -> Vec<(u64, usize)> {
        nf.left
            .sorted_fingers
            .iter()
            .map(|f| (vdist(f.schain.final_id, f.target_id, l), f.schain.length))
            .collect()
    };
    let chains: Vec<(u64, usize)> = vec![(13, 2), (27, 1), (13, 1), (40, 3), (12, 5), (63, 1)];
    let mut prev_r = right_scores(&nf);
    let mut prev_l = left_scores(&nf);
    for &(final_id, length) in &chains {
        nf.update(&SemiChain { final_id, length }, l);
        let cur_r = right_scores(&nf);
        let cur_l = left_scores(&nf);
        for (p, c) in prev_r.iter().zip(cur_r.iter()) {
            assert!(c <= p);
        }
        for (p, c) in prev_l.iter().zip(cur_l.iter()) {
            assert!(c <= p);
        }
        prev_r = cur_r;
        prev_l = cur_l;
    }
}
