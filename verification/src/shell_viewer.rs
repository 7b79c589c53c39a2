//! The shell around a user's node viewer: it remembers which canvas it draws and the current
//! interaction mode, and keeps inspect mode read-only by refusing every edit request.

use vstd::prelude::*;

use egui::Id;

use crate::view_state::InteractionMode;

verus! {

/// egui's null id (`egui::Id::NULL`), the canvas id of a shell that has not drawn yet.
///
/// Nothing is stated of the value: `egui::Id` is opaque here.
#[verifier::external_body]
fn null_id() -> (r: Id) {
    Id::NULL
}

/// Wraps a user's node viewer; while the editor is in [`InteractionMode::Inspect`] the edit
/// requests of the canvas (graph menu, dropped-wire menu, node menu, connect, disconnect,
/// dropping a pin's wires) do not reach it.
pub struct NodesShellViewer<V> {
    pub inner: V,
    canvas_id: Id,
    mode: InteractionMode,
}

impl<V> NodesShellViewer<V> {
    /// The wrapped viewer.
    pub closed spec fn wrapped(self) -> V {
        self.inner
    }

    /// The interaction mode the shell was last prepared with.
    pub closed spec fn current_mode(self) -> InteractionMode {
        self.mode
    }

    /// The canvas the shell was last prepared for.
    pub closed spec fn canvas(self) -> Id {
        self.canvas_id
    }

    /// A shell around `inner`, in [`InteractionMode::Select`], not yet tied to a canvas.
    pub fn new(inner: V) -> (r: Self)
        ensures
            r.wrapped() == inner,
            r.current_mode() == InteractionMode::Select,
    {
        NodesShellViewer { inner, canvas_id: null_id(), mode: InteractionMode::Select }
    }

    /// The interaction mode the shell was last prepared with.
    pub fn mode(&self) -> (r: InteractionMode)
        ensures
            r == self.current_mode(),
    {
        self.mode
    }

    /// Tie the shell to the canvas `canvas_id` and the editor's current `mode`, before the
    /// canvas is drawn.
    pub fn prepare(&mut self, canvas_id: Id, mode: InteractionMode)
        ensures
            final(self).wrapped() == old(self).wrapped(),
            final(self).canvas() == canvas_id,
            final(self).current_mode() == mode,
    {
        self.canvas_id = canvas_id;
        self.mode = mode;
    }

    /// The canvas the shell was last prepared for.
    pub fn canvas_id(&self) -> (r: Id)
        ensures
            r == self.canvas(),
    {
        self.canvas_id
    }

    /// Whether the editor is in inspect mode.
    fn inspect(&self) -> (r: bool)
        ensures
            r == (self.current_mode() == InteractionMode::Inspect),
    {
        self.mode == InteractionMode::Inspect
    }

    /// Whether an edit request of the canvas is passed on to the inner viewer: exactly when
    /// the editor is not in inspect mode.
    pub fn forwards_edits(&self) -> (r: bool)
        ensures
            r == (self.current_mode() != InteractionMode::Inspect),
    {
        !self.inspect()
    }
}

} // verus!
