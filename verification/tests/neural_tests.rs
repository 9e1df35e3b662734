use evo::neural::{Connection, NeuralNet};

#[test]
fn new_net_layout() {
    let net = NeuralNet::new(vec![2, 3, 2]);
    assert_eq!(net.layers.len(), 3);
    assert_eq!(net.layers[0].neurons.len(), 2);
    assert_eq!(net.layers[1].neurons.len(), 3);
    assert_eq!(net.layers[2].neurons.len(), 2);
    for layer in &net.layers {
        for neuron in &layer.neurons {
            assert!(neuron.connections.is_empty());
        }
    }
}

#[test]
fn add_connection_accepts_and_rejects() {
    let mut net = NeuralNet::new(vec![2, 2]);
    // forward connection within range
    assert!(net.add_connection((0, 1), (1, 0), 500));
    assert_eq!(net.layers[0].neurons[1].connections.len(), 1);
    // same-layer connection is rejected
    assert!(!net.add_connection((0, 0), (0, 1), 500));
    // backward connection is rejected
    assert!(!net.add_connection((1, 0), (0, 0), 500));
    // out-of-range neuron index is rejected
    assert!(!net.add_connection((0, 2), (1, 0), 500));
    // endpoint beyond the packed 4-bit range is rejected
    let mut wide = NeuralNet::new(vec![1; 20]);
    assert!(!wide.add_connection((0, 0), (17, 0), 500));
    assert!(wide.add_connection((0, 0), (15, 0), 500));
}

#[test]
fn max_connections_sums_squared_layer_sizes() {
    let net = NeuralNet::new(vec![2, 3, 2]);
    assert_eq!(net.max_connections(), 4 + 9 + 4);
}

#[test]
fn all_connections_in_order() {
    let mut net = NeuralNet::new(vec![2, 3, 2]);
    assert!(net.add_connection((1, 1), (2, 0), 1000));
    assert!(net.add_connection((0, 0), (1, 1), 1200));
    assert!(net.add_connection((0, 1), (1, 1), 2100));
    let all = net.all_connections();
    assert_eq!(all.len(), 3);
    // layer, then neuron, then insertion order
    assert_eq!(all[0].from, (0, 0));
    assert_eq!(all[1].from, (0, 1));
    assert_eq!(all[2].from, (1, 1));
}

#[test]
fn summary_connections_take_direct_shortcuts_only() {
    let mut net = NeuralNet::new(vec![2, 2, 2]);
    assert!(net.add_connection((0, 0), (2, 1), 700));
    assert!(net.add_connection((0, 0), (1, 1), 800));
    assert!(net.add_connection((1, 0), (2, 0), 900));
    let summary = net.get_summary_connections();
    assert_eq!(summary.len(), 1);
    assert_eq!(summary[0].get_from(), (0, 0));
    assert_eq!(summary[0].get_to(), (2, 1));
    assert_eq!(summary[0].weight, 700);
}

#[test]
fn add_unique_connection_rejects_duplicates() {
    let mut net = NeuralNet::new(vec![2, 2]);
    assert!(net.add_unique_connection((0, 0), (1, 1), 500));
    // same endpoint pair again: rejected, even with another weight
    assert!(!net.add_unique_connection((0, 0), (1, 1), 700));
    // a different pair from the same neuron is fine
    assert!(net.add_unique_connection((0, 0), (1, 0), 900));
    // an unfit pair is rejected as in add_connection
    assert!(!net.add_unique_connection((1, 0), (0, 0), 100));
    assert_eq!(net.layers[0].neurons[0].connections.len(), 2);
}

#[test]
fn check_well_formed_accepts_and_rejects() {
    let mut net = NeuralNet::new(vec![2, 2]);
    assert!(net.check_well_formed());
    assert!(net.add_connection((0, 1), (1, 0), 500));
    assert!(net.check_well_formed());
    // a connection planted at the wrong neuron breaks soundness
    net.layers[1].neurons[0].connections.push(Connection {
        from: (0, 0),
        to: (1, 1),
        weight_milli: 1,
    });
    assert!(!net.check_well_formed());
}
