//! QTM graph core: a deterministic event and surface store, the depth and
//! direction boundary into the value manifold, and the dashboard observer state.

pub mod dash;
pub mod graph;

pub use dash::{Dashboard, DashboardBuilder, DashboardView};
pub use graph::permdimensions2d;

use vstd::prelude::*;

verus! {

/// Start a default QTM system: a fresh dashboard.
pub fn bootstrap() -> (d: Dashboard)
    ensures
        d.state.states@ == Map::<u64, dash::ViewState>::empty(),
        d.state.selected_view == DashboardView::DimensionNetwork,
        !d.state.show_all,
{
    Dashboard::new()
}

} // verus!
