//! View state of the node-editor shell: the interaction mode alone, with inspect mode
//! remembering the mode it was entered from.

use vstd::prelude::*;

pub use crate::view_state::{InteractionMode, mode_label, mode_label_spec, toggled};

verus! {

/// View state kept separate from the semantic graph: the mode, and later overlay flags.
#[derive(Clone, Debug)]
pub struct NodesViewState {
    pub mode: InteractionMode,
    inspect_before: Option<InteractionMode>,
}

impl NodesViewState {
    /// The current mode.
    pub closed spec fn current_mode(self) -> InteractionMode {
        self.mode
    }

    /// The mode inspect was entered from, while in inspect mode.
    pub closed spec fn mode_before_inspect(self) -> Option<InteractionMode> {
        self.inspect_before
    }

    /// The current mode.
    pub fn mode(&self) -> (r: InteractionMode)
        ensures
            r == self.current_mode(),
    {
        self.mode
    }

    /// Switch to `mode`.
    pub fn set_mode(&mut self, mode: InteractionMode)
        ensures
            final(self).current_mode() == mode,
            final(self).mode_before_inspect() == old(self).mode_before_inspect(),
    {
        self.mode = mode;
    }

    /// Enter inspect mode, remembering the current mode, or leave it for the remembered mode
    /// ([`InteractionMode::Select`] when none).
    pub fn toggle_inspect(&mut self)
        ensures
            (final(self).current_mode(), final(self).mode_before_inspect()) == toggled(
                old(self).current_mode(),
                old(self).mode_before_inspect(),
            ),
    {
        if self.mode == InteractionMode::Inspect {
            self.mode = match self.inspect_before {
                Some(m) => m,
                None => InteractionMode::Select,
            };
            self.inspect_before = None;
        } else {
            self.inspect_before = Some(self.mode);
            self.mode = InteractionMode::Inspect;
        }
    }

    /// Whether the editor is in inspect mode.
    pub fn is_inspect(&self) -> (r: bool)
        ensures
            r == (self.current_mode() == InteractionMode::Inspect),
    {
        self.mode == InteractionMode::Inspect
    }
}

impl Default for NodesViewState {
    /// Select mode, nothing remembered.
    fn default() -> (r: Self)
        ensures
            r.current_mode() == InteractionMode::Select,
            r.mode_before_inspect() is None,
    {
        NodesViewState { mode: InteractionMode::Select, inspect_before: None }
    }
}

} // verus!
