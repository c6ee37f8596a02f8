use quantom_value::{Perm, QuantPerm};
use qtm_graph::graph::frame::{Depth, Direction, EventMap};
use qtm_graph::graph::manifold::{
    manifold_arc_delta, saturating_mul_u128, Heritage, ManifoldState, Retain, TransitionReceipt,
};
use qtm_graph::graph::scale::Scale;

fn r(mass: u128, from: u64) -> Retain {
    Retain { mass, from }
}

fn genesis_manifold() -> QuantPerm {
    let perm = Perm::from_u128(0);
    let mut q = QuantPerm::new(perm);
    q.set_initial_dimension_from_perm();
    q
}

fn manifold_at(perm: u128) -> QuantPerm {
    let mut q = QuantPerm::new(Perm::from_u128(perm));
    q.set_initial_dimension_from_perm();
    q
}

fn sample_heritage() -> Heritage {
    Heritage {
        transition: TransitionReceipt { tau: 11, delta: 180, gross_work: 1980, net_work: 1900 },
        state: ManifoldState {
            dimension: 77,
            structural_value: 1900,
            retained_mass: 0x0102_0304_0506_0708_090a_0b0c_0d0e_0f10,
            activations: 3,
        },
    }
}

#[test]
fn depth_commands_of_plain_path() {
    let d = Depth::new("perm/genesis".to_string());
    assert_eq!(d.path(), "perm/genesis");
    assert_eq!(d.command(), "perm");
    assert_eq!(d.commands(), vec!["perm".to_string(), "genesis".to_string()]);
    assert_eq!(d.next(), Some("genesis".to_string()));
    assert_eq!(d.at(0), Some("perm".to_string()));
    assert_eq!(d.at(2), None);
    assert_eq!(d.len(), 2);
    assert!(!d.is_empty());
}

#[test]
fn depth_commands_skip_empty_segments() {
    let d = Depth::new("/a//b/".to_string());
    assert_eq!(d.command(), "");
    assert_eq!(d.commands(), vec!["a".to_string(), "b".to_string()]);
    assert_eq!(d.len(), 2);
    assert_eq!(d.next(), Some("b".to_string()));
}

#[test]
fn depth_empty_path() {
    let d = Depth::new(String::new());
    assert!(d.is_empty());
    assert_eq!(d.command(), "");
    assert_eq!(d.len(), 0);
    assert_eq!(d.next(), None);
    assert_eq!(d.next_position(), 0);
    assert!(d.objects().is_empty());
    assert_eq!(d.object("x"), None);
}

#[test]
fn depth_non_ascii_path() {
    let d = Depth::new("αβ/γ".to_string());
    assert_eq!(d.command(), "αβ");
    assert_eq!(d.at(1), Some("γ".to_string()));
}

#[test]
fn depth_latest_occurrence_wins() {
    let mut d = Depth::new("p".to_string());
    d.insert("x".to_string(), 3, r(30, 0));
    d.insert("x".to_string(), 1, r(10, 0));
    d.insert("y".to_string(), 5, r(50, 0));
    assert_eq!(d.object("x"), Some(&r(30, 0)));
    assert_eq!(d.object("y"), Some(&r(50, 0)));
    assert_eq!(d.object("z"), None);
    assert_eq!(d.next_position(), 6);
    assert_eq!(d.identifier_at(1), Some("x"));
    assert_eq!(d.identifier_at(2), None);
    assert_eq!(d.position(5), Some(&r(50, 0)));
    assert_eq!(d.position(4), None);
    let objs = d.objects();
    let positions: Vec<usize> = objs.iter().map(|o| o.0).collect();
    assert_eq!(positions, vec![1, 3, 5]);
    assert_eq!(objs[2].1, "y");
    assert_eq!(*objs[0].2, r(10, 0));
}

#[test]
fn depth_insert_replaces_position() {
    let mut d = Depth::new("p".to_string());
    d.insert("x".to_string(), 2, r(1, 0));
    d.insert("y".to_string(), 2, r(2, 0));
    assert_eq!(d.object("x"), None);
    assert_eq!(d.object("y"), Some(&r(2, 0)));
    assert_eq!(d.objects().len(), 1);
}

#[test]
fn realize_depth_adds_masses_saturating() {
    let q = manifold_at(0xdead_beef_1234);
    assert_eq!(q.dimension(), 0xdead_beef_1234);
    let mut d = Depth::new("a".to_string());
    d.insert("a".to_string(), 0, r(5, 0));
    d.insert("b".to_string(), 1, r(7, 9));
    let got = Direction::realize_depth(&q, &d);
    assert_eq!(got.mass, 12);
    assert_eq!(got.from, 0xdead_beef_1234);
    d.insert("c".to_string(), 2, r(u128::MAX, 0));
    assert_eq!(Direction::realize_depth(&q, &d).mass, u128::MAX);
}

#[test]
fn transit_advances_manifold() {
    let q = genesis_manifold();
    let dim0 = q.dimension();
    let mut d = Depth::new("perm/genesis".to_string());
    d.insert("genesis".to_string(), 0, r(40, dim0));
    d.insert("more".to_string(), 1, r(2, dim0));
    let h = Direction::transit(q, &d, None);
    assert_eq!(h.state.activations, 1);
    assert_eq!(h.state.retained_mass, 42);
    assert_eq!(h.transition.delta, manifold_arc_delta(dim0, h.state.dimension));
    assert_eq!(h.transition.gross_work, saturating_mul_u128(h.transition.tau, h.transition.delta));
    // first transition: no prior structural value, so all of the gross work is paid
    assert_eq!(h.transition.net_work, h.transition.gross_work);
    assert_eq!(h.state.structural_value, h.transition.net_work);

    // the same transition, taken directly on the manifold, agrees
    let mut q2 = genesis_manifold();
    q2.retain(42);
    let g = q2.transition(None);
    assert_eq!(g.tau, h.transition.tau);
    assert_eq!(q2.dimension(), h.state.dimension);
    assert_eq!(q2.structural_value(), h.state.structural_value);
}

#[test]
fn transit_with_seed_differs_from_genesis() {
    let d = Depth::new("x".to_string());
    let a = Direction::transit(genesis_manifold(), &d, None);
    let b = Direction::transit(genesis_manifold(), &d, Some(&b"fork"[..]));
    assert_eq!(a.state.activations, b.state.activations);
    assert_ne!((a.state.dimension, a.transition.tau), (b.state.dimension, b.transition.tau));
}

#[test]
fn arc_delta_matches_calculate_work() {
    let cases = [(0u64, 0u64), (0, u64::MAX), (5, 1 << 40), (u64::MAX, 17), (1 << 63, 1 << 62)];
    for (from, to) in cases {
        let (_, delta, _) = QuantPerm::calculate_work(0, &[0u8; 32], from, to);
        assert_eq!(manifold_arc_delta(from, to), delta);
    }
    assert_eq!(manifold_arc_delta(0, 0), 180);
    assert_eq!(manifold_arc_delta(0, u64::MAX), 180);
}

#[test]
fn saturating_mul_holds_at_max() {
    assert_eq!(saturating_mul_u128(6, 7), 42);
    assert_eq!(saturating_mul_u128(u128::MAX, 2), u128::MAX);
    assert_eq!(saturating_mul_u128(0, u128::MAX), 0);
}

#[test]
fn event_map_reads_heritage() {
    let e = EventMap::now(sample_heritage(), Scale::Global);
    assert_eq!(e.activation(), 3);
    assert_eq!(e.activations(), 3);
    assert_eq!(e.tau(), 11);
    assert_eq!(e.delta(), 180);
    assert_eq!(e.gross_work(), 1980);
    assert_eq!(e.net_work(), 1900);
    assert_eq!(e.dimension(), 77);
    assert_eq!(e.coordinate(), 77);
    assert_eq!(e.structural_value(), 1900);
    assert_eq!(e.scale(), Scale::Global);
    assert_eq!(*e.heritage(), sample_heritage());
    let t = e.runtime();
    assert_eq!(e.runtime(), t);
    assert_eq!(e.into_heritage(), sample_heritage());
}

#[test]
fn direction_reads_and_hands_back() {
    let mut dir = Direction::new(sample_heritage(), Scale::Recursive);
    assert_eq!(dir.activation(), 3);
    assert_eq!(dir.dimension(), 77);
    assert_eq!(dir.net_work(), 1900);
    assert_eq!(dir.tau(), 11);
    assert_eq!(dir.scale(), Scale::Recursive);
    assert_eq!(dir.retain(), Retain { mass: sample_heritage().state.retained_mass, from: 77 });
    dir.event_mut().scale = Scale::Minimal;
    assert_eq!(dir.event().scale, Scale::Minimal);
    let same = Direction::from_heritage(sample_heritage(), Scale::Local);
    assert_eq!(same.heritage(), &sample_heritage());
    assert_eq!(same.into_event().activation, 3);
    assert_eq!(dir.into_heritage(), sample_heritage());
}

#[test]
fn retain_bytes_are_little_endian() {
    let dir = Direction::new(sample_heritage(), Scale::Global);
    let bytes = dir.retain_bytes();
    let mut expected = Vec::new();
    expected.extend_from_slice(&sample_heritage().state.retained_mass.to_le_bytes());
    expected.extend_from_slice(&77u64.to_le_bytes());
    assert_eq!(bytes.to_vec(), expected);
}

#[test]
fn checked_transit_runs_below_the_activation_limit() {
    let mut d = Depth::new("x".to_string());
    d.insert("x".to_string(), 0, r(3, 0));
    let h = Direction::checked_transit(genesis_manifold(), &d, None).unwrap();
    assert_eq!(h.state.activations, 1);
    assert_eq!(h.state.retained_mass, 3);
}

#[test]
fn inserting_at_next_position_becomes_latest() {
    let mut d = Depth::new("x".to_string());
    d.insert("k".to_string(), 4, r(1, 0));
    let p = d.next_position();
    assert_eq!(p, 5);
    d.insert("k".to_string(), p, r(2, 0));
    assert_eq!(d.object("k"), Some(&r(2, 0)));
}

#[test]
fn transit_from_a_moved_manifold_pays_only_net_work() {
    let mut d = Depth::new("w".to_string());
    d.insert("w".to_string(), 0, r(1_000_000, 0));
    let first = Direction::transit(manifold_at(77), &d, None);
    let mut q = manifold_at(77);
    q.retain(1_000_000);
    q.transition(None);
    let sigma0 = q.structural_value();
    let dim0 = q.dimension();
    assert_eq!(sigma0, first.state.structural_value);
    let second = Direction::transit(q, &d, None);
    assert_eq!(second.state.activations, 2);
    assert_eq!(second.state.retained_mass, 2_000_000);
    assert_eq!(second.transition.delta, manifold_arc_delta(dim0, second.state.dimension));
    assert_eq!(second.transition.net_work, second.transition.gross_work.saturating_sub(sigma0));
    assert_eq!(second.state.structural_value, sigma0.saturating_add(second.transition.net_work));
    assert!(second.state.structural_value >= sigma0);
}

#[test]
fn labels_and_objects_share_positions() {
    let mut d = Depth::new("p".to_string());
    d.insert("a".to_string(), 2, r(1, 0));
    d.insert("b".to_string(), 2, r(9, 0));
    d.insert("c".to_string(), 7, r(3, 0));
    for q in 0..10 {
        assert_eq!(d.position(q).is_some(), d.identifier_at(q).is_some());
    }
    assert_eq!(d.position(2), Some(&r(9, 0)));
    assert_eq!(d.identifier_at(2), Some("b"));
}
