//! Handling changes that the platform reports about windows.
use vstd::prelude::*;

use crate::focus_direction::tabbed_ancestor;
use crate::moves::kind_set;
use crate::sync::PendingSync;
use crate::tree::{ContainerKind, ContainerTree, WindowInfo};

verus! {

/// A window's kind with its title replaced.
pub open spec fn with_title(kind: ContainerKind, title: String) -> ContainerKind {
    match kind {
        ContainerKind::TilingWindow(info) => ContainerKind::TilingWindow(WindowInfo { title, ..info }),
        ContainerKind::NonTilingWindow(info) => ContainerKind::NonTilingWindow(WindowInfo { title, ..info }),
        other => other,
    }
}

impl ContainerTree {
    /// Replaces the title of window `w`.
    pub fn set_title(&mut self, w: usize, title: String)
        requires
            old(self).wf(),
            (w as int) < old(self).len(),
        ensures
            final(self).wf(),
            kind_set(old(self), final(self), w as int, with_title(old(self).kind(w as int), title)),
    {
        let ghost before = *self;
        let mut node = self.take_node(w);
        match node.kind {
            ContainerKind::TilingWindow(mut info) => {
                info.title = title;
                node.kind = ContainerKind::TilingWindow(info);
            },
            ContainerKind::NonTilingWindow(mut info) => {
                info.title = title;
                node.kind = ContainerKind::NonTilingWindow(info);
            },
            other => {
                node.kind = other;
            },
        }
        self.put_back(w, node, Ghost(before));
    }
}

/// Records the new title of window `w`, where the platform's window is one
/// of the tree's, and asks for the tab bars to be updated where the window
/// is inside a tabbed container (its other redraws are not needed). Gives
/// back the window whose title-change rules are to run next, one rule at
/// a time through a `RuleRun`.
pub fn handle_window_title_changed(tree: &mut ContainerTree, w: Option<usize>, title: String, sync: &mut PendingSync) -> (r: Option<usize>)
    requires
        old(tree).wf(),
        w matches Some(x) ==> (x as int) < old(tree).len(),
    ensures
        final(tree).wf(),
        r == w,
        w is None ==> final(tree).nodes@ == old(tree).nodes@ && *final(sync) == *old(sync),
        w matches Some(x) ==> kind_set(old(tree), final(tree), x as int, with_title(old(tree).kind(x as int), title)),
        w matches Some(x) ==> final(sync).tab_bar_update == (old(sync).tab_bar_update || tabbed_ancestor(
            old(tree),
            x as int,
            old(tree).len(),
        ) is Some),
        w is Some ==> final(sync).containers_to_redraw@ == old(sync).containers_to_redraw@
            && final(sync).workspaces_to_reorder@ == old(sync).workspaces_to_reorder@
            && final(sync).focus_change == old(sync).focus_change && final(sync).cursor_jump == old(sync).cursor_jump,
{
    let x = match w {
        None => {
            return None;
        },
        Some(x) => x,
    };
    let in_tabs = tree.tabbed_ancestor_of(x).is_some();
    tree.set_title(x, title);
    if in_tabs {
        sync.queue_tab_bar_update();
    }
    Some(x)
}

} // verus!
