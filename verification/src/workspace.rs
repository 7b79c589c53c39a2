//! Several independent node graphs behind one tab strip.
//!
//! Each tab owns a [`NodesEditor`], a [`NodesViewState`] and a key: a stable `u64` assigned
//! when the tab is created, never reused in this workspace. The canvas of a tab is identified
//! under the workspace's root id by that key.

use vstd::prelude::*;

use egui::Id;

use crate::editor::NodesEditor;
use crate::view_state::{InteractionMode, NodesViewState};

verus! {

#[verifier::external_type_specification]
#[verifier::external_body]
pub struct ExEguiId(Id);

/// The id that egui derives from `parent` and the salt `(name, key)`.
///
/// Calls `egui::Id::with`. Nothing is stated of the result: egui hashes the parent and the
/// salt with `ahash`, whose output depends on the machine.
#[verifier::external_body]
fn id_with_salt(parent: Id, name: &str, key: u64) -> (r: Id) {
    parent.with((name, key))
}

/// One document: headless graph, view graph, per-tab UI state.
struct NodesWorkspaceTab<N, E> {
    label: String,
    editor: NodesEditor<N, E>,
    view_state: NodesViewState,
    tab_key: u64,
}

/// Tabbed documents: one editor per tab, one of them active.
pub struct NodesWorkspace<N, E> {
    root_id: Id,
    tabs: Vec<NodesWorkspaceTab<N, E>>,
    active: usize,
    next_tab_key: u64,
}

/// The key handed to the tab created `index`-th (counting from 0); keys stop growing at
/// `u64::MAX`.
pub open spec fn key_for_index(index: int) -> u64 {
    if index < u64::MAX {
        index as u64
    } else {
        u64::MAX
    }
}

impl<N, E> NodesWorkspace<N, E> {
    /// The id under which the tabs' canvases are identified.
    pub closed spec fn root(self) -> Id {
        self.root_id
    }

    /// The keys of the tabs, in tab-strip order.
    pub closed spec fn tab_keys(self) -> Seq<u64> {
        self.tabs@.map_values(|t: NodesWorkspaceTab<N, E>| t.tab_key)
    }

    /// The labels of the tabs, in tab-strip order.
    pub closed spec fn labels(self) -> Seq<Seq<char>> {
        self.tabs@.map_values(|t: NodesWorkspaceTab<N, E>| t.label@)
    }

    /// The editors of the tabs, in tab-strip order.
    pub closed spec fn editors(self) -> Seq<NodesEditor<N, E>> {
        self.tabs@.map_values(|t: NodesWorkspaceTab<N, E>| t.editor)
    }

    /// The view states of the tabs, in tab-strip order.
    pub closed spec fn view_states(self) -> Seq<NodesViewState> {
        self.tabs@.map_values(|t: NodesWorkspaceTab<N, E>| t.view_state)
    }

    /// Index of the active tab.
    pub closed spec fn active(self) -> usize {
        self.active
    }

    /// The key the next new tab gets.
    pub closed spec fn next_key(self) -> u64 {
        self.next_tab_key
    }

    /// Number of tabs.
    pub open spec fn tab_count(self) -> nat {
        self.tab_keys().len()
    }

    /// Every tab's key is the one for its creation index, the active tab exists, and every
    /// editor is well formed.
    pub open spec fn wf(self) -> bool {
        &&& self.labels().len() == self.tab_count()
        &&& self.editors().len() == self.tab_count()
        &&& self.view_states().len() == self.tab_count()
        &&& self.active() < self.tab_count()
        &&& self.next_key() == key_for_index(self.tab_count() as int)
        &&& forall|i: int| 0 <= i < self.tab_count() ==> #[trigger] self.tab_keys()[i] == key_for_index(i)
        &&& forall|i: int| 0 <= i < self.tab_count() ==> (#[trigger] self.editors()[i]).wf()
    }

    /// Append a tab with a fresh editor and make it active; returns its key.
    fn push_tab(&mut self, label: String) -> (key: u64)
        requires
            old(self).wf() || old(self).tab_count() == 0 && old(self).next_key() == 0,
        ensures
            key == old(self).next_key(),
            final(self).wf(),
            final(self).root() == old(self).root(),
            final(self).tab_keys() == old(self).tab_keys().push(key),
            final(self).labels() == old(self).labels().push(label@),
            final(self).editors().len() == old(self).editors().len() + 1,
            forall|i: int| 0 <= i < old(self).tab_count() ==> #[trigger] final(self).editors()[i] == old(self).editors()[i],
            final(self).editors().last().headless().nodes@.len() == 0,
            final(self).editors().last().headless().links@.len() == 0,
            final(self).editors().last().in_sync(),
            final(self).view_states() == old(self).view_states().push(final(self).view_states().last()),
            final(self).view_states().last().current_mode() == InteractionMode::Select,
            final(self).view_states().last().mode_before_inspect() is None,
            final(self).active() == old(self).tab_count(),
    {
        let tab_key = self.next_tab_key;
        self.next_tab_key = self.next_tab_key.saturating_add(1);
        self.tabs.push(NodesWorkspaceTab {
            label,
            editor: NodesEditor::new(),
            view_state: NodesViewState::default(),
            tab_key,
        });
        self.active = self.tabs.len() - 1;
        proof {
            let t = self.tabs@;
            let t0 = old(self).tabs@;
            assert(t == t0.push(t.last()));
            assert(self.tab_keys() =~= old(self).tab_keys().push(tab_key));
            assert(self.labels() =~= old(self).labels().push(label@));
            assert(self.view_states() =~= old(self).view_states().push(t.last().view_state));
            assert forall|i: int| 0 <= i < t0.len() implies #[trigger] self.editors()[i] == old(self).editors()[i] by {
                assert(t[i] == t0[i]);
            }
        }
        tab_key
    }

    /// The id under which the tabs' canvases are identified.
    pub fn root_id(&self) -> (r: Id)
        ensures
            r == self.root(),
    {
        self.root_id
    }

    /// Append a new tab labeled `label`, with a fresh editor, and make it active.
    ///
    /// The new tab's view should start where the first tab's is: when there was a tab before,
    /// the result holds the canvas ids to copy the view from and to (the first tab's, then the
    /// new tab's), for the caller to apply to the UI's stored canvas data.
    pub fn add_tab(&mut self, label: String) -> (r: Option<(Id, Id)>)
        requires
            old(self).wf(),
        ensures
            final(self).wf(),
            final(self).root() == old(self).root(),
            final(self).tab_keys() == old(self).tab_keys().push(old(self).next_key()),
            final(self).labels() == old(self).labels().push(label@),
            final(self).editors().len() == old(self).editors().len() + 1,
            forall|i: int| 0 <= i < old(self).tab_count() ==> #[trigger] final(self).editors()[i] == old(self).editors()[i],
            final(self).editors().last().headless().nodes@.len() == 0,
            final(self).editors().last().headless().links@.len() == 0,
            final(self).editors().last().in_sync(),
            final(self).view_states() == old(self).view_states().push(final(self).view_states().last()),
            final(self).view_states().last().current_mode() == InteractionMode::Select,
            final(self).view_states().last().mode_before_inspect() is None,
            final(self).active() == old(self).tab_count(),
            r is Some <==> old(self).tab_count() > 0,
    {
        let template_key = if self.tabs.len() > 0 {
            Some(self.tabs[0].tab_key)
        } else {
            None
        };
        let new_key = self.push_tab(label);
        match template_key {
            Some(tk) => Some((self.tab_canvas_id(tk), self.tab_canvas_id(new_key))),
            None => None,
        }
    }

    /// Index of the active tab (0-based).
    pub fn active_index(&self) -> (r: usize)
        ensures
            r == self.active(),
    {
        self.active
    }

    /// Canvas id of the active tab, if there is one.
    pub fn active_canvas_id(&self) -> (r: Option<Id>)
        ensures
            r is Some <==> self.active() < self.tab_count(),
    {
        self.tab_canvas_id_at(self.active)
    }

    /// Key of the active tab, if there is one.
    pub fn active_tab_key(&self) -> (r: Option<u64>)
        ensures
            r == (if self.active() < self.tab_count() {
                Some(self.tab_keys()[self.active() as int])
            } else {
                None
            }),
    {
        self.tab_key_at(self.active)
    }

    /// Canvas id of the tab at `index`, if there is one.
    pub fn tab_canvas_id_at(&self, index: usize) -> (r: Option<Id>)
        ensures
            r is Some <==> index < self.tab_count(),
    {
        if index < self.tabs.len() {
            Some(self.tab_canvas_id(self.tabs[index].tab_key))
        } else {
            None
        }
    }

    /// Key of the tab at `index`, if there is one.
    pub fn tab_key_at(&self, index: usize) -> (r: Option<u64>)
        ensures
            r == (if index < self.tab_count() {
                Some(self.tab_keys()[index as int])
            } else {
                None
            }),
    {
        if index < self.tabs.len() {
            Some(self.tabs[index].tab_key)
        } else {
            None
        }
    }

    /// Canvas id of the tab with key `tab_key`: the root id salted with the tab's key.
    fn tab_canvas_id(&self, tab_key: u64) -> (r: Id) {
        id_with_salt(self.root_id, "egui-nodes-tab", tab_key)
    }

    /// The active tab's editor, if there is an active tab.
    pub fn active_editor(&self) -> (r: Option<&NodesEditor<N, E>>)
        ensures
            r is Some <==> self.active() < self.tab_count(),
            r matches Some(e) ==> *e == self.editors()[self.active() as int],
    {
        if self.active < self.tabs.len() {
            Some(&self.tabs[self.active].editor)
        } else {
            None
        }
    }

    /// The active tab's editor, for changing it, if there is an active tab. Nothing else in
    /// the workspace changes.
    pub fn active_editor_mut(&mut self) -> (r: Option<&mut NodesEditor<N, E>>)
        ensures
            r is Some <==> old(self).active() < old(self).tab_count(),
            r matches Some(e) ==> *e == old(self).editors()[old(self).active() as int]
                && final(self).editors() == old(self).editors().update(old(self).active() as int, *final(e)),
            r is None ==> final(self).editors() == old(self).editors(),
            final(self).root() == old(self).root(),
            final(self).tab_keys() == old(self).tab_keys(),
            final(self).labels() == old(self).labels(),
            final(self).view_states() == old(self).view_states(),
            final(self).active() == old(self).active(),
            final(self).next_key() == old(self).next_key(),
    {
        if self.active < self.tabs.len() {
            let tab = &mut self.tabs[self.active];
            Some(&mut tab.editor)
        } else {
            None
        }
    }

    /// A workspace with one tab labeled `"Graph 1"`.
    pub fn new(root_id: Id) -> (r: Self)
        ensures
            r.wf(),
            r.root() == root_id,
            r.tab_keys() == seq![0u64],
            r.labels() == seq!["Graph 1"@],
            r.active() == 0,
            r.next_key() == 1,
            r.editors()[0].headless().nodes@.len() == 0,
            r.editors()[0].headless().links@.len() == 0,
            r.editors()[0].in_sync(),
            r.view_states()[0].current_mode() == InteractionMode::Select,
            r.view_states()[0].mode_before_inspect() is None,
    {
        let mut out = NodesWorkspace { root_id, tabs: Vec::new(), active: 0, next_tab_key: 0 };
        proof {
            assert(out.tab_keys() =~= Seq::<u64>::empty());
        }
        out.push_tab("Graph 1".to_owned());
        out
    }

    /// Tab keys are never reused: two tabs created before the key space ran out have
    /// different keys.
    pub proof fn lemma_tab_keys_distinct(self, i: int, j: int)
        requires
            self.wf(),
            0 <= i < j < self.tab_count(),
            j < u64::MAX,
        ensures
            self.tab_keys()[i] != self.tab_keys()[j],
    {
        assert(self.tab_keys()[i] == key_for_index(i));
        assert(self.tab_keys()[j] == key_for_index(j));
    }
}

} // verus!
