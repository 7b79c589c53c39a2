//! Editor view state kept apart from the graph: the interaction mode, with inspect mode
//! remembering the mode it was entered from, and placeholders for pan/zoom and selection.

use vstd::prelude::*;

verus! {

/// High-level interaction mode. The canvas still routes pointer input; this value drives
/// policy (e.g. inspect is read-only) and tools.
#[derive(Clone, Copy, Debug, PartialEq, Eq, Structural)]
pub enum InteractionMode {
    Select,
    PanZoom,
    Connect,
    InsertNode,
    EditNode,
    Inspect,
}

impl Default for InteractionMode {
    /// [`InteractionMode::Select`].
    fn default() -> (r: Self)
        ensures
            r == InteractionMode::Select,
    {
        InteractionMode::Select
    }
}

/// The label an editor shows for a mode.
pub open spec fn mode_label_spec(m: InteractionMode) -> Seq<char> {
    match m {
        InteractionMode::Select => "Select"@,
        InteractionMode::PanZoom => "Pan / zoom"@,
        InteractionMode::Connect => "Connect"@,
        InteractionMode::InsertNode => "Insert node"@,
        InteractionMode::EditNode => "Edit node"@,
        InteractionMode::Inspect => "Inspect (read-only)"@,
    }
}

/// The label an editor shows for a mode.
pub fn mode_label(m: InteractionMode) -> (r: &'static str)
    ensures
        r@ == mode_label_spec(m),
{
    match m {
        InteractionMode::Select => "Select",
        InteractionMode::PanZoom => "Pan / zoom",
        InteractionMode::Connect => "Connect",
        InteractionMode::InsertNode => "Insert node",
        InteractionMode::EditNode => "Edit node",
        InteractionMode::Inspect => "Inspect (read-only)",
    }
}

/// The mode after toggling inspect from `mode`, with `before` the mode inspect was entered
/// from: leaving inspect returns to `before` (or [`InteractionMode::Select`]); entering it
/// remembers `mode`.
pub open spec fn toggled(mode: InteractionMode, before: Option<InteractionMode>) -> (InteractionMode, Option<InteractionMode>) {
    if mode == InteractionMode::Inspect {
        (
            match before {
                Some(m) => m,
                None => InteractionMode::Select,
            },
            None,
        )
    } else {
        (InteractionMode::Inspect, Some(mode))
    }
}

/// Placeholder for lifting pan/zoom into app state; the canvas keeps the viewport itself.
#[derive(Clone, Copy, Debug, Default)]
pub struct PanZoomState;

/// Placeholder for selection mirrors; the canvas keeps the selection itself.
#[derive(Clone, Copy, Debug, Default)]
pub struct SelectionState;

/// View state separate from the headless graph: the mode and future overlays.
#[derive(Clone, Debug)]
pub struct NodesViewState {
    pub mode: InteractionMode,
    pub pan_zoom: PanZoomState,
    pub selection: SelectionState,
    inspect_before: Option<InteractionMode>,
}

impl NodesViewState {
    /// The current mode.
    pub closed spec fn current_mode(self) -> InteractionMode {
        self.mode
    }

    /// The mode inspect was entered from, while in inspect mode.
    pub closed spec fn mode_before_inspect(self) -> Option<InteractionMode> {
        self.inspect_before
    }

    /// The current mode.
    pub fn mode(&self) -> (r: InteractionMode)
        ensures
            r == self.current_mode(),
    {
        self.mode
    }

    /// Switch to `mode`.
    pub fn set_mode(&mut self, mode: InteractionMode)
        ensures
            final(self).current_mode() == mode,
            final(self).mode_before_inspect() == old(self).mode_before_inspect(),
    {
        self.mode = mode;
    }

    /// Enter inspect mode, remembering the current mode, or leave it for the remembered mode
    /// ([`InteractionMode::Select`] when none).
    pub fn toggle_inspect(&mut self)
        ensures
            (final(self).current_mode(), final(self).mode_before_inspect()) == toggled(
                old(self).current_mode(),
                old(self).mode_before_inspect(),
            ),
    {
        if self.mode == InteractionMode::Inspect {
            self.mode = match self.inspect_before {
                Some(m) => m,
                None => InteractionMode::Select,
            };
            self.inspect_before = None;
        } else {
            self.inspect_before = Some(self.mode);
            self.mode = InteractionMode::Inspect;
        }
    }

    /// Whether the editor is in inspect mode.
    pub fn is_inspect(&self) -> (r: bool)
        ensures
            r == (self.current_mode() == InteractionMode::Inspect),
    {
        self.mode == InteractionMode::Inspect
    }

    /// Toggling inspect twice from any other mode comes back to that mode, with nothing
    /// remembered.
    pub proof fn lemma_toggle_twice(mode: InteractionMode, before: Option<InteractionMode>)
        requires
            mode != InteractionMode::Inspect,
        ensures
            toggled(toggled(mode, before).0, toggled(mode, before).1) == (mode, None::<InteractionMode>),
    {
    }
}

impl Default for NodesViewState {
    /// Select mode, nothing remembered.
    fn default() -> (r: Self)
        ensures
            r.current_mode() == InteractionMode::Select,
            r.mode_before_inspect() is None,
    {
        NodesViewState {
            mode: InteractionMode::Select,
            pan_zoom: PanZoomState,
            selection: SelectionState,
            inspect_before: None,
        }
    }
}

} // verus!
