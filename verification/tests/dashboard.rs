use qtm_graph::dash::{Dashboard, DashboardBuilder, DashboardView, ViewState};
use qtm_graph::graph::frame::EventMap;
use qtm_graph::graph::manifold::{Heritage, ManifoldState, TransitionReceipt};
use qtm_graph::graph::permdimensions2d::MapPoint;
use qtm_graph::graph::scale::Scale;

fn heritage(activations: u64, sigma: u128) -> Heritage {
    Heritage {
        transition: TransitionReceipt { tau: 3, delta: 180, gross_work: 540, net_work: 500 },
        state: ManifoldState { dimension: 9, structural_value: sigma, retained_mass: 1, activations },
    }
}

#[test]
fn view_variants_and_labels() {
    let v = DashboardView::variants();
    assert_eq!(v.len(), 6);
    assert_eq!(v[0], DashboardView::DimensionNetwork);
    assert_eq!(v[5], DashboardView::DimensionNetworkPoint);
    assert!(!v.contains(&DashboardView::All));
    assert_eq!(DashboardView::DimensionNetwork.label(), "Dimension / Network");
    assert_eq!(DashboardView::DimensionAngle.label(), "Dimension Angle");
    assert_eq!(DashboardView::StructuralValueAngle.label(), "Structural Value Angle");
    assert_eq!(DashboardView::StructuralValueMirror.label(), "Structural Value Mirror");
    assert_eq!(DashboardView::DimensionAngleMirror.label(), "Dimension Angle Mirror");
    assert_eq!(DashboardView::DimensionNetworkPoint.label(), "Dimension / Network Point");
    assert_eq!(DashboardView::All.label(), "All Views");
}

#[test]
fn dashboard_starts_on_dimension_network() {
    let d = Dashboard::new();
    assert_eq!(d.current_view(), DashboardView::DimensionNetwork);
    assert!(!d.state.show_all);
    assert!(d.state.states.is_empty());
    let b = qtm_graph::bootstrap();
    assert_eq!(b.current_view(), DashboardView::DimensionNetwork);
}

#[test]
fn select_view_tracks_show_all() {
    let mut d = Dashboard::new();
    d.select_view(DashboardView::All);
    assert!(d.state.show_all);
    assert_eq!(d.current_view(), DashboardView::All);
    d.select_view(DashboardView::DimensionAngle);
    assert!(!d.state.show_all);
    assert_eq!(d.current_view(), DashboardView::DimensionAngle);
}

#[test]
fn toggle_show_all_round_trip() {
    let mut d = Dashboard::new();
    d.select_view(DashboardView::StructuralValueMirror);
    d.toggle_show_all();
    assert!(d.state.show_all);
    assert_eq!(d.current_view(), DashboardView::All);
    d.toggle_show_all();
    assert!(!d.state.show_all);
    assert_eq!(d.current_view(), DashboardView::DimensionNetwork);
}

#[test]
fn toggle_off_keeps_an_individual_view() {
    let mut d = Dashboard::new();
    d.state.show_all = true;
    d.state.selected_view = DashboardView::DimensionAngle;
    d.toggle_show_all();
    assert!(!d.state.show_all);
    assert_eq!(d.current_view(), DashboardView::DimensionAngle);
}

#[test]
fn journey_records_by_activation() {
    let mut d = Dashboard::new();
    let e1 = EventMap::now(heritage(1, 10), Scale::Global);
    let e2 = EventMap::now(heritage(2, 20), Scale::Global);
    let e1b = EventMap::now(heritage(1, 11), Scale::Global);
    d.journey(&e1);
    d.journey(&e2);
    d.journey(&e1b);
    d.journey(&e1b);
    assert_eq!(d.state.states.len(), 2);
    assert_eq!(
        d.state.states.get(&1),
        Some(&ViewState { structural_value: 11, net_work: 500, tau: 3, activations: 1 })
    );
    assert_eq!(d.state.states.get(&2).unwrap().structural_value, 20);
}

#[test]
fn builder_selects_view() {
    let d = DashboardBuilder::new().view(DashboardView::DimensionAngleMirror).build();
    assert_eq!(d.current_view(), DashboardView::DimensionAngleMirror);
    assert!(!d.state.show_all);
    let d = DashboardBuilder::new().view(DashboardView::DimensionAngle).show_all().build();
    assert_eq!(d.current_view(), DashboardView::All);
    assert!(d.state.show_all);
    let d = DashboardBuilder::new().build();
    assert_eq!(d.current_view(), DashboardView::DimensionNetwork);
    let d = DashboardBuilder::default().view(DashboardView::All).build();
    assert!(d.state.show_all);
}

#[test]
fn map_point_new() {
    let p = MapPoint::new(3, u128::MAX);
    assert_eq!(p.x, 3);
    assert_eq!(p.y, u128::MAX);
}

#[test]
fn set_show_all_selects_aggregate_or_default() {
    let mut d = Dashboard::new();
    d.select_view(DashboardView::DimensionAngle);
    d.set_show_all(true);
    assert!(d.state.show_all);
    assert_eq!(d.current_view(), DashboardView::All);
    d.set_show_all(false);
    assert!(!d.state.show_all);
    assert_eq!(d.current_view(), DashboardView::DimensionNetwork);
}
