//! The work that commands leave for the next synchronisation with the
//! platform: containers to redraw, workspaces to reorder, and whether
//! focus or the cursor need updating.
use vstd::prelude::*;

verus! {

/// Work queued for the next synchronisation.
pub struct PendingSync {
    pub containers_to_redraw: Vec<usize>,
    pub workspaces_to_reorder: Vec<usize>,
    pub focus_change: bool,
    pub cursor_jump: bool,
    pub tab_bar_update: bool,
}

impl PendingSync {
    /// Nothing queued.
    pub fn new() -> (r: PendingSync)
        ensures
            r.containers_to_redraw@.len() == 0,
            r.workspaces_to_reorder@.len() == 0,
            !r.focus_change,
            !r.cursor_jump,
            !r.tab_bar_update,
    {
        PendingSync {
            containers_to_redraw: Vec::new(),
            workspaces_to_reorder: Vec::new(),
            focus_change: false,
            cursor_jump: false,
            tab_bar_update: false,
        }
    }

    /// Queues a container to be redrawn.
    pub fn queue_container_to_redraw(&mut self, c: usize)
        ensures
            final(self).containers_to_redraw@ == old(self).containers_to_redraw@.push(c),
            final(self).workspaces_to_reorder@ == old(self).workspaces_to_reorder@,
            final(self).focus_change == old(self).focus_change,
            final(self).cursor_jump == old(self).cursor_jump,
            final(self).tab_bar_update == old(self).tab_bar_update,
    {
        self.containers_to_redraw.push(c);
    }

    /// Queues containers to be redrawn, in order.
    pub fn queue_containers_to_redraw(&mut self, cs: &Vec<usize>)
        ensures
            final(self).containers_to_redraw@ == old(self).containers_to_redraw@ + cs@,
            final(self).workspaces_to_reorder@ == old(self).workspaces_to_reorder@,
            final(self).focus_change == old(self).focus_change,
            final(self).cursor_jump == old(self).cursor_jump,
            final(self).tab_bar_update == old(self).tab_bar_update,
    {
        let ghost start = self.containers_to_redraw@;
        let mut k: usize = 0;
        while k < cs.len()
            invariant
                k <= cs@.len(),
                self.containers_to_redraw@ == start + cs@.take(k as int),
                self.workspaces_to_reorder@ == old(self).workspaces_to_reorder@,
                self.focus_change == old(self).focus_change,
                self.cursor_jump == old(self).cursor_jump,
                self.tab_bar_update == old(self).tab_bar_update,
                start == old(self).containers_to_redraw@,
            decreases cs@.len() - k,
        {
            self.containers_to_redraw.push(cs[k]);
            k = k + 1;
            proof {
                assert(start + cs@.take(k as int) =~= (start + cs@.take(k - 1)).push(cs@[k - 1]));
            }
        }
        proof {
            assert(cs@.take(cs@.len() as int) =~= cs@);
        }
    }

    /// Queues a workspace to be put back in order among its siblings.
    pub fn queue_workspace_to_reorder(&mut self, w: usize)
        ensures
            final(self).workspaces_to_reorder@ == old(self).workspaces_to_reorder@.push(w),
            final(self).containers_to_redraw@ == old(self).containers_to_redraw@,
            final(self).focus_change == old(self).focus_change,
            final(self).cursor_jump == old(self).cursor_jump,
            final(self).tab_bar_update == old(self).tab_bar_update,
    {
        self.workspaces_to_reorder.push(w);
    }

    /// Asks for the platform's focus to follow the tree's.
    pub fn queue_focus_change(&mut self)
        ensures
            final(self).focus_change,
            final(self).containers_to_redraw@ == old(self).containers_to_redraw@,
            final(self).workspaces_to_reorder@ == old(self).workspaces_to_reorder@,
            final(self).cursor_jump == old(self).cursor_jump,
            final(self).tab_bar_update == old(self).tab_bar_update,
    {
        self.focus_change = true;
    }

    /// Asks for the cursor to jump to the focused container.
    pub fn queue_cursor_jump(&mut self)
        ensures
            final(self).cursor_jump,
            final(self).tab_bar_update == old(self).tab_bar_update,
            final(self).containers_to_redraw@ == old(self).containers_to_redraw@,
            final(self).workspaces_to_reorder@ == old(self).workspaces_to_reorder@,
            final(self).focus_change == old(self).focus_change,
    {
        self.cursor_jump = true;
    }

    /// Asks for the tab bars to be updated.
    pub fn queue_tab_bar_update(&mut self)
        ensures
            final(self).tab_bar_update,
            final(self).containers_to_redraw@ == old(self).containers_to_redraw@,
            final(self).workspaces_to_reorder@ == old(self).workspaces_to_reorder@,
            final(self).focus_change == old(self).focus_change,
            final(self).cursor_jump == old(self).cursor_jump,
    {
        self.tab_bar_update = true;
    }

    /// Whether a focus update is queued.
    pub fn needs_focus_update(&self) -> (r: bool)
        ensures
            r == self.focus_change,
    {
        self.focus_change
    }

    /// Drops everything queued.
    pub fn clear(&mut self)
        ensures
            final(self).containers_to_redraw@.len() == 0,
            final(self).workspaces_to_reorder@.len() == 0,
            !final(self).focus_change,
            !final(self).cursor_jump,
            !final(self).tab_bar_update,
    {
        self.tab_bar_update = false;
        self.containers_to_redraw = Vec::new();
        self.workspaces_to_reorder = Vec::new();
        self.focus_change = false;
        self.cursor_jump = false;
    }
}

} // verus!
