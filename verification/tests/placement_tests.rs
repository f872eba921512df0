use chunkstore::placement::{
    node_for_ticket, select_node, select_node_shared, DataNode, PlacementCounter,
    SharedPlacementCounter,
};

fn candidates(n: usize) -> Vec<DataNode> {
    (0..n).map(|i| DataNode { base_url: format!("http://127.0.0.1:{}", 9000 + i) }).collect()
}

fn position(nodes: &[DataNode], node: &DataNode) -> usize {
    nodes.iter().position(|n| n.base_url == node.base_url).unwrap()
}

#[test]
fn select_node_walks_round_robin_from_zero() {
    let nodes = candidates(2);
    let mut counter = PlacementCounter::new();
    assert_eq!(select_node(&mut counter, &nodes).base_url, "http://127.0.0.1:9000");
    assert_eq!(select_node(&mut counter, &nodes).base_url, "http://127.0.0.1:9001");
    assert_eq!(select_node(&mut counter, &nodes).base_url, "http://127.0.0.1:9000");
}

#[test]
fn select_node_with_one_candidate_always_picks_it() {
    let nodes = candidates(1);
    let mut counter = PlacementCounter::starting_at(12345);
    for _ in 0..10 {
        assert_eq!(select_node(&mut counter, &nodes).base_url, "http://127.0.0.1:9000");
    }
}

#[test]
fn select_node_is_fair_over_full_rounds() {
    let nodes = candidates(5);
    let k = 7;
    let mut counter = PlacementCounter::new();
    let mut hits = vec![0usize; nodes.len()];
    for _ in 0..k * nodes.len() {
        let node = select_node(&mut counter, &nodes);
        hits[position(&nodes, node)] += 1;
    }
    assert_eq!(hits, vec![k; 5]);
}

#[test]
fn select_node_is_fair_from_any_starting_offset() {
    let nodes = candidates(3);
    let k = 4;
    for start in [1usize, 2, 17, 1_000_003] {
        let mut counter = PlacementCounter::starting_at(start);
        let mut hits = vec![0usize; nodes.len()];
        for _ in 0..k * nodes.len() {
            let node = select_node(&mut counter, &nodes);
            hits[position(&nodes, node)] += 1;
        }
        assert_eq!(hits, vec![k; 3], "start {}", start);
    }
}

#[test]
fn fetch_add_hands_out_the_seed_first() {
    let mut counter = PlacementCounter::starting_at(41);
    assert_eq!(counter.fetch_add(), 41);
    assert_eq!(counter.fetch_add(), 42);
    assert_eq!(counter.fetch_add(), 43);
}

#[test]
fn counter_starts_again_at_zero_behind_the_largest_value() {
    let mut counter = PlacementCounter::starting_at(usize::MAX);
    assert_eq!(counter.fetch_add(), usize::MAX);
    assert_eq!(counter.fetch_add(), 0);
    assert_eq!(counter.fetch_add(), 1);
}

#[test]
fn node_for_ticket_takes_the_ticket_modulo_the_length() {
    let nodes = candidates(3);
    assert_eq!(position(&nodes, node_for_ticket(&nodes, 0)), 0);
    assert_eq!(position(&nodes, node_for_ticket(&nodes, 1)), 1);
    assert_eq!(position(&nodes, node_for_ticket(&nodes, 2)), 2);
    assert_eq!(position(&nodes, node_for_ticket(&nodes, 3)), 0);
    assert_eq!(position(&nodes, node_for_ticket(&nodes, 100)), 1);
    assert_eq!(position(&nodes, node_for_ticket(&nodes, usize::MAX)), usize::MAX % 3);
}

#[test]
fn shared_counter_hands_out_tickets_in_a_row() {
    let counter = SharedPlacementCounter::starting_at(5);
    assert_eq!(counter.fetch_add(), 5);
    assert_eq!(counter.fetch_add(), 6);
    let wrapping = SharedPlacementCounter::starting_at(usize::MAX);
    assert_eq!(wrapping.fetch_add(), usize::MAX);
    assert_eq!(wrapping.fetch_add(), 0);
}

#[test]
fn select_node_shared_is_fair_over_full_rounds() {
    let nodes = candidates(4);
    let k = 6;
    let counter = SharedPlacementCounter::starting_at(3);
    let mut hits = vec![0usize; nodes.len()];
    for round in 0..k * nodes.len() {
        let (node, ticket) = select_node_shared(&counter, &nodes);
        assert_eq!(ticket, 3 + round);
        assert_eq!(position(&nodes, node), ticket % nodes.len());
        hits[position(&nodes, node)] += 1;
    }
    assert_eq!(hits, vec![k; 4]);
}
