//! UI-only state carried alongside a canvas view, separate from graph data.

use vstd::prelude::*;

pub use crate::view_state::{PanZoomState, SelectionState};

verus! {

/// View state separate from the headless graph, reserved for future overlays.
#[derive(Clone, Copy, Debug, Default)]
pub struct NodesViewState {
    pub pan_zoom: PanZoomState,
    pub selection: SelectionState,
}

} // verus!
