use qtm_graph::graph::idmap::IdMap;
use qtm_graph::graph::scale::Scale;
use qtm_graph::graph::slotmap::{QtmEvent, QtmGraph};

fn id(b: u8) -> [u8; 32] {
    let mut a = [0u8; 32];
    a[0] = b;
    a[31] = b.wrapping_mul(3);
    a
}

fn event(commitment: u8, coordinate: u8, activation: u64, network: u128, sigma: u128) -> QtmEvent {
    QtmEvent {
        commitment: id(commitment),
        activation,
        network,
        coordinate: id(coordinate),
        delta: 9,
        sigma,
        dimension: 42,
        scale: Scale::Local,
    }
}

#[test]
fn idmap_insert_get_take() {
    let mut m: IdMap<u32> = IdMap::new();
    assert_eq!(m.len(), 0);
    m.insert(id(1), 10);
    m.insert(id(2), 20);
    m.insert(id(1), 11);
    assert_eq!(m.len(), 2);
    assert_eq!(m.get(&id(1)), Some(&11));
    assert_eq!(m.get(&id(2)), Some(&20));
    assert_eq!(m.get(&id(3)), None);
    assert!(m.contains_key(&id(2)));
    assert_eq!(m.take(&id(1)), Some(11));
    assert_eq!(m.take(&id(1)), None);
    assert_eq!(m.len(), 1);
    assert!(!m.contains_key(&id(1)));
    assert_eq!(m.get(&id(2)), Some(&20));
}

#[test]
fn ids_equal_compares_every_byte() {
    let a = id(5);
    let mut b = id(5);
    assert!(qtm_graph::graph::idmap::ids_equal(&a, &b));
    b[17] = 1;
    assert!(!qtm_graph::graph::idmap::ids_equal(&a, &b));
}

#[test]
fn graph_first_event_opens_surface() {
    let mut g = QtmGraph::new();
    let (sid, eid) = g.insert(event(1, 7, 100, 50, 3));
    assert_eq!(eid, id(1));
    assert_eq!(sid, id(7));
    let s = g.surfaces.get(&id(7)).unwrap();
    assert_eq!(s.coordinate, id(7));
    assert_eq!(s.surface.dimension, 42);
    assert_eq!(s.surface.sigma, 3);
    assert_eq!(s.scale, Scale::Local);
    assert_eq!(s.total_network, 50);
    assert_eq!(s.events, vec![id(1)]);
    assert!(s.inbound.is_empty() && s.outbound.is_empty());
    assert_eq!(g.coordinates.get(&id(7)), Some(&id(7)));
    assert_eq!(g.commitments.get(&id(1)), Some(&id(1)));
    assert_eq!(g.events.get(&id(1)).unwrap().activation, 100);
    assert_eq!(g.activation_network.get(&100), Some(&50));
    assert_eq!(g.sigma_index.get(&3), Some(&vec![id(7)]));
}

#[test]
fn graph_second_event_joins_surface() {
    let mut g = QtmGraph::new();
    g.insert(event(1, 7, 100, 50, 3));
    let (sid, eid) = g.insert(event(2, 7, 101, 25, 99));
    assert_eq!(sid, id(7));
    assert_eq!(eid, id(2));
    let s = g.surfaces.get(&id(7)).unwrap();
    assert_eq!(s.total_network, 75);
    assert_eq!(s.events, vec![id(1), id(2)]);
    // the joining event's sigma does not move the surface
    assert_eq!(s.surface.sigma, 3);
    assert_eq!(g.sigma_index.get(&99), None);
    assert_eq!(g.surfaces.len(), 1);
    assert_eq!(g.events.len(), 2);
    assert_eq!(g.activation_network.get(&101), Some(&25));
}

#[test]
fn graph_network_saturates() {
    let mut g = QtmGraph::new();
    g.insert(event(1, 7, 1, u128::MAX - 1, 0));
    g.insert(event(2, 7, 2, 5, 0));
    assert_eq!(g.surfaces.get(&id(7)).unwrap().total_network, u128::MAX);
}

#[test]
fn graph_sigma_index_lists_surfaces_in_order() {
    let mut g = QtmGraph::new();
    g.insert(event(1, 7, 1, 1, 4));
    g.insert(event(2, 8, 2, 1, 4));
    g.insert(event(3, 9, 3, 1, 5));
    assert_eq!(g.sigma_index.get(&4), Some(&vec![id(7), id(8)]));
    assert_eq!(g.sigma_index.get(&5), Some(&vec![id(9)]));
    assert_eq!(g.coordinates.len(), 3);
}

#[test]
fn graph_same_commitment_replaces_event_and_activation_overwrites() {
    let mut g = QtmGraph::new();
    g.insert(event(1, 7, 10, 1, 0));
    g.insert(event(1, 8, 10, 2, 0));
    assert_eq!(g.events.len(), 1);
    assert_eq!(g.events.get(&id(1)).unwrap().coordinate, id(8));
    assert_eq!(g.activation_network.get(&10), Some(&2));
    assert_eq!(g.surfaces.len(), 2);
}

#[test]
fn graph_lists_each_surface_once_under_its_sigma() {
    let mut g = QtmGraph::new();
    g.insert(event(1, 7, 1, 1, 4));
    g.insert(event(2, 7, 2, 1, 4));
    g.insert(event(3, 7, 3, 1, 8));
    g.insert(event(4, 9, 4, 1, 4));
    assert_eq!(g.sigma_index.get(&4), Some(&vec![id(7), id(9)]));
    assert_eq!(g.sigma_index.get(&8), None);
}
