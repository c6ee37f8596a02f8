use std::collections::HashMap;

use vstd::prelude::*;

use crate::graph::frame::EventMap;

verus! {

broadcast use vstd::std_specs::hash::group_hash_axioms;

/// The projection windows a dashboard can show, and the aggregate of all.
#[derive(Debug, Clone, Copy, PartialEq, Eq, Structural)]
pub enum DashboardView {
    DimensionNetwork,
    DimensionAngle,
    StructuralValueAngle,
    StructuralValueMirror,
    DimensionAngleMirror,
    DimensionNetworkPoint,
    All,
}

/// The individual windows, in menu order (`All` is an aggregate, not a window).
pub open spec fn window_views() -> Seq<DashboardView> {
    seq![
        DashboardView::DimensionNetwork,
        DashboardView::DimensionAngle,
        DashboardView::StructuralValueAngle,
        DashboardView::StructuralValueMirror,
        DashboardView::DimensionAngleMirror,
        DashboardView::DimensionNetworkPoint,
    ]
}

/// The window list holds every view but the aggregate, each exactly once,
/// and not the aggregate.
pub proof fn lemma_window_views_complete()
    ensures
        window_views().len() == 6,
        forall|w: DashboardView| #[trigger] window_views().contains(w) <==> w != DashboardView::All,
        forall|i: int, j: int|
            0 <= i < j < window_views().len() ==> window_views()[i] != window_views()[j],
{
    let v = window_views();
    assert forall|w: DashboardView| #[trigger] v.contains(w) <==> w != DashboardView::All by {
        match w {
            DashboardView::DimensionNetwork => assert(v[0] == w),
            DashboardView::DimensionAngle => assert(v[1] == w),
            DashboardView::StructuralValueAngle => assert(v[2] == w),
            DashboardView::StructuralValueMirror => assert(v[3] == w),
            DashboardView::DimensionAngleMirror => assert(v[4] == w),
            DashboardView::DimensionNetworkPoint => assert(v[5] == w),
            DashboardView::All => {
                if v.contains(w) {
                    let k = choose|k: int| 0 <= k < v.len() && v[k] == w;
                    assert(v[k] != DashboardView::All);
                }
            },
        }
    }
}

/// The title of each view.
pub open spec fn view_label(v: DashboardView) -> Seq<char> {
    match v {
        DashboardView::DimensionNetwork => "Dimension / Network"@,
        DashboardView::DimensionAngle => "Dimension Angle"@,
        DashboardView::StructuralValueAngle => "Structural Value Angle"@,
        DashboardView::StructuralValueMirror => "Structural Value Mirror"@,
        DashboardView::DimensionAngleMirror => "Dimension Angle Mirror"@,
        DashboardView::DimensionNetworkPoint => "Dimension / Network Point"@,
        DashboardView::All => "All Views"@,
    }
}

/// Different views carry different titles.
pub proof fn lemma_view_labels_distinct(v: DashboardView, w: DashboardView)
    requires
        v != w,
    ensures
        view_label(v) != view_label(w),
{
    reveal_strlit("Dimension / Network");
    reveal_strlit("Dimension Angle");
    reveal_strlit("Structural Value Angle");
    reveal_strlit("Structural Value Mirror");
    reveal_strlit("Dimension Angle Mirror");
    reveal_strlit("Dimension / Network Point");
    reveal_strlit("All Views");
    if view_label(v).len() == view_label(w).len() {
        assert(view_label(v)[0] != view_label(w)[0]);
    }
}

impl DashboardView {
    /// The individual windows, in menu order.
    pub fn variants() -> (v: [DashboardView; 6])
        ensures
            v@ == window_views(),
            forall|w: DashboardView| #[trigger] v@.contains(w) <==> w != DashboardView::All,
            forall|i: int, j: int| 0 <= i < j < 6 ==> v@[i] != v@[j],
    {
        proof {
            lemma_window_views_complete();
        }
        let v = [
            DashboardView::DimensionNetwork,
            DashboardView::DimensionAngle,
            DashboardView::StructuralValueAngle,
            DashboardView::StructuralValueMirror,
            DashboardView::DimensionAngleMirror,
            DashboardView::DimensionNetworkPoint,
        ];
        assert(v@ =~= window_views());
        v
    }

    /// The title of the view.
    pub fn label(&self) -> (r: &'static str)
        ensures
            r@ == view_label(*self),
    {
        match self {
            DashboardView::DimensionNetwork => "Dimension / Network",
            DashboardView::DimensionAngle => "Dimension Angle",
            DashboardView::StructuralValueAngle => "Structural Value Angle",
            DashboardView::StructuralValueMirror => "Structural Value Mirror",
            DashboardView::DimensionAngleMirror => "Dimension Angle Mirror",
            DashboardView::DimensionNetworkPoint => "Dimension / Network Point",
            DashboardView::All => "All Views",
        }
    }
}

/// The live values observed for one activation.
#[derive(Debug, Clone, Copy, PartialEq, Eq, Structural)]
pub struct ViewState {
    pub structural_value: u128,
    pub net_work: u128,
    pub tau: u128,
    pub activations: u64,
}

/// Everything a dashboard holds.
#[derive(Debug)]
pub struct DashState {
    /// Live states, by activation.
    pub states: HashMap<u64, ViewState>,
    /// The window being shown.
    pub selected_view: DashboardView,
    /// Whether every window is shown.
    pub show_all: bool,
}

/// The observer and presentation layer: live view state and view selection.
pub struct Dashboard {
    pub state: DashState,
}

/// The live values that an event shows.
pub open spec fn observed(event: EventMap) -> ViewState {
    ViewState {
        structural_value: event.heritage.state.structural_value,
        net_work: event.heritage.transition.net_work,
        tau: event.heritage.transition.tau,
        activations: event.heritage.state.activations,
    }
}

impl Dashboard {
    /// "Show all" is on exactly when the aggregate view is selected.
    pub open spec fn mode_consistent(&self) -> bool {
        self.state.show_all == (self.state.selected_view == DashboardView::All)
    }

    /// A dashboard with no live state, showing the dimension / network window.
    pub fn new() -> (d: Self)
        ensures
            d.state.states@ == Map::<u64, ViewState>::empty(),
            d.state.selected_view == DashboardView::DimensionNetwork,
            !d.state.show_all,
            d.mode_consistent(),
    {
        Dashboard {
            state: DashState {
                states: HashMap::new(),
                selected_view: DashboardView::DimensionNetwork,
                show_all: false,
            },
        }
    }

    /// Select a view; "show all" follows whether it is the aggregate.
    pub fn select_view(&mut self, view: DashboardView)
        ensures
            final(self).state.selected_view == view,
            final(self).state.show_all == (view == DashboardView::All),
            final(self).state.states@ == old(self).state.states@,
            final(self).mode_consistent(),
    {
        self.state.selected_view = view;
        self.state.show_all = view == DashboardView::All;
    }

    /// Flip "show all": switching it on selects the aggregate; switching it
    /// off while the aggregate is selected falls back to the dimension /
    /// network window.
    pub fn toggle_show_all(&mut self)
        ensures
            final(self).state.show_all == !old(self).state.show_all,
            final(self).state.show_all ==> final(self).state.selected_view == DashboardView::All,
            !final(self).state.show_all ==> final(self).state.selected_view == (
            if old(self).state.selected_view == DashboardView::All {
                DashboardView::DimensionNetwork
            } else {
                old(self).state.selected_view
            }),
            final(self).state.states@ == old(self).state.states@,
            old(self).mode_consistent() ==> final(self).mode_consistent(),
    {
        self.state.show_all = !self.state.show_all;
        if self.state.show_all {
            self.state.selected_view = DashboardView::All;
        } else if self.state.selected_view == DashboardView::All {
            self.state.selected_view = DashboardView::DimensionNetwork;
        }
    }

    /// Set "show all": on selects the aggregate view, off falls back to the
    /// dimension / network window.
    pub fn set_show_all(&mut self, show_all: bool)
        ensures
            final(self).state.show_all == show_all,
            final(self).state.selected_view == (if show_all {
                DashboardView::All
            } else {
                DashboardView::DimensionNetwork
            }),
            final(self).state.states@ == old(self).state.states@,
            final(self).mode_consistent(),
    {
        self.state.show_all = show_all;
        self.state.selected_view = if show_all {
            DashboardView::All
        } else {
            DashboardView::DimensionNetwork
        };
    }

    /// The selected view.
    pub fn current_view(&self) -> (v: DashboardView)
        ensures
            v == self.state.selected_view,
    {
        self.state.selected_view
    }

    /// Observe an event: the live state at its activation count becomes the
    /// event's values; every other activation keeps its state.
    pub fn journey(&mut self, event: &EventMap)
        ensures
            final(self).state.states@ == old(self).state.states@.insert(
                event.heritage.state.activations,
                observed(*event),
            ),
            final(self).state.states@.contains_key(event.heritage.state.activations),
            final(self).state.states@[event.heritage.state.activations].structural_value
                == event.heritage.state.structural_value,
            final(self).state.states@[event.heritage.state.activations].net_work
                == event.heritage.transition.net_work,
            final(self).state.states@[event.heritage.state.activations].tau
                == event.heritage.transition.tau,
            final(self).state.states@[event.heritage.state.activations].activations
                == event.heritage.state.activations,
            forall|a: u64|
                a != event.heritage.state.activations ==> (#[trigger] final(self).state.states@.contains_key(a)
                    == old(self).state.states@.contains_key(a)),
            forall|a: u64|
                a != event.heritage.state.activations && #[trigger] old(self).state.states@.contains_key(a)
                    ==> final(self).state.states@[a] == old(self).state.states@[a],
            final(self).state.selected_view == old(self).state.selected_view,
            final(self).state.show_all == old(self).state.show_all,
    {
        let activations = event.activations();
        let structural_value = event.structural_value();
        let net_work = event.net_work();
        let tau = event.tau();
        self.state.states.insert(
            activations,
            ViewState { structural_value, net_work, tau, activations },
        );
    }
}

/// What an event shows is its own structural value, net work, τ and
/// activation count, each as the event carries it (the full `u128` range).
pub proof fn lemma_observed_shows_event(event: EventMap)
    ensures
        observed(event).structural_value == event.heritage.state.structural_value,
        observed(event).net_work == event.heritage.transition.net_work,
        observed(event).tau == event.heritage.transition.tau,
        observed(event).activations == event.heritage.state.activations,
{
}

/// Observing the same event twice leaves the dashboard as observing it once.
pub proof fn lemma_journey_idempotent(states: Map<u64, ViewState>, event: EventMap)
    ensures
        states.insert(event.heritage.state.activations, observed(event)).insert(
            event.heritage.state.activations,
            observed(event),
        ) == states.insert(event.heritage.state.activations, observed(event)),
{
    assert(states.insert(event.heritage.state.activations, observed(event)).insert(
        event.heritage.state.activations,
        observed(event),
    ) =~= states.insert(event.heritage.state.activations, observed(event)));
}

/// Builds a dashboard with an initial selection.
#[derive(Debug)]
pub struct DashboardBuilder {
    view: Option<DashboardView>,
    show_all: bool,
}

impl Default for DashboardBuilder {
    fn default() -> (b: Self)
        ensures
            b.requested_view() is None,
            !b.requests_all(),
    {
        DashboardBuilder { view: None, show_all: false }
    }
}

impl DashboardBuilder {
    /// The view asked for, if any.
    pub closed spec fn requested_view(&self) -> Option<DashboardView> {
        self.view
    }

    /// Whether "show all" was asked for.
    pub closed spec fn requests_all(&self) -> bool {
        self.show_all
    }

    /// A builder that asks for nothing.
    pub fn new() -> (b: Self)
        ensures
            b.requested_view() is None,
            !b.requests_all(),
    {
        DashboardBuilder { view: None, show_all: false }
    }

    /// Ask for `view`.
    pub fn view(self, view: DashboardView) -> (b: Self)
        ensures
            b.requested_view() == Some(view),
            b.requests_all() == self.requests_all(),
    {
        let mut b = self;
        b.view = Some(view);
        b
    }

    /// Ask for every window.
    pub fn show_all(self) -> (b: Self)
        ensures
            b.requested_view() == self.requested_view(),
            b.requests_all(),
    {
        let mut b = self;
        b.show_all = true;
        b
    }

    /// The dashboard: "show all" wins over a requested view; a requested view
    /// is selected as `select_view` would; otherwise the new dashboard's default.
    pub fn build(self) -> (d: Dashboard)
        ensures
            d.state.states@ == Map::<u64, ViewState>::empty(),
            d.state.selected_view == (if self.requests_all() {
                DashboardView::All
            } else {
                match self.requested_view() {
                    Some(v) => v,
                    None => DashboardView::DimensionNetwork,
                }
            }),
            d.state.show_all == (self.requests_all() || self.requested_view() == Some(
                DashboardView::All,
            )),
            d.mode_consistent(),
    {
        let mut dashboard = Dashboard::new();
        if let Some(view) = self.view {
            dashboard.select_view(view);
        }
        if self.show_all {
            dashboard.state.show_all = true;
            dashboard.state.selected_view = DashboardView::All;
        }
        dashboard
    }
}

} // verus!
