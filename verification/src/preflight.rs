//! Predicting, without touching the tree, where the commands of a window
//! rule take its window and how they change which workspaces are active,
//! shown and focused, so that a rule that moves its window into a side
//! area runs only where its destination can be known beforehand.
use vstd::prelude::*;

use crate::config::{SideArea, WorkspaceConfig};
use crate::monitors::{
    monitor_of, regular_workspaces, spec_displayed_workspace, spec_monitor_in_direction, spec_side_area, workspace_of,
};
use crate::tree::{ContainerTree, Direction};
use crate::text::str_equals;

verus! {

/// The first position of `s` whose element `f` holds of.
pub open spec fn first_index<T>(s: Seq<T>, f: spec_fn(T) -> bool) -> Option<int>
    decreases s.len(),
{
    if s.len() == 0 {
        None
    } else if f(s[0]) {
        Some(0)
    } else {
        match first_index(s.skip(1), f) {
            Some(i) => Some(i + 1),
            None => None,
        }
    }
}

/// `first_index` is the least position whose element `f` holds of, and
/// nothing where `f` holds of none.
pub proof fn lemma_first_index<T>(s: Seq<T>, f: spec_fn(T) -> bool, r: Option<int>)
    requires
        match r {
            Some(i) => 0 <= i < s.len() && f(s[i]) && forall|j: int| 0 <= j < i ==> !f(#[trigger] s[j]),
            None => forall|j: int| 0 <= j < s.len() ==> !f(#[trigger] s[j]),
        },
    ensures
        first_index(s, f) == r,
    decreases s.len(),
{
    if s.len() > 0 {
        if f(s[0]) {
            match r {
                Some(i) => {
                    if i > 0 {
                        assert(!f(s[0]));
                    }
                },
                None => {
                    assert(!f(s[0]));
                },
            }
        } else {
            let t = s.skip(1);
            match r {
                Some(i) => {
                    assert(i != 0);
                    assert forall|j: int| 0 <= j < i - 1 implies !f(#[trigger] t[j]) by {
                        assert(t[j] == s[j + 1]);
                    }
                    assert(t[i - 1] == s[i]);
                    lemma_first_index(t, f, Some(i - 1));
                },
                None => {
                    assert forall|j: int| 0 <= j < t.len() implies !f(#[trigger] t[j]) by {
                        assert(t[j] == s[j + 1]);
                    }
                    lemma_first_index(t, f, None);
                },
            }
        }
    }
}

/// A position as a mathematical integer.
pub open spec fn opt_int(r: Option<usize>) -> Option<int> {
    match r {
        Some(i) => Some(i as int),
        None => None,
    }
}

/// The position that is `next` to (or else before) position `i` of a
/// list of `len` elements, wrapping around at both ends.
pub open spec fn adjacent_index(len: int, i: int, next: bool) -> int {
    if next {
        if i + 1 < len {
            i + 1
        } else {
            0
        }
    } else if i == 0 {
        len - 1
    } else {
        i - 1
    }
}

/// An active workspace as the prediction sees it.
#[derive(Debug)]
pub struct PredictedWorkspace {
    pub name: String,
    pub monitor: usize,
    pub has_children: bool,
    pub keep_alive: bool,
}

impl PredictedWorkspace {
    /// A copy of the workspace.
    pub fn copy(&self) -> (r: PredictedWorkspace)
        ensures
            r == *self,
    {
        PredictedWorkspace {
            name: self.name.clone(),
            monitor: self.monitor,
            has_children: self.has_children,
            keep_alive: self.keep_alive,
        }
    }
}

/// The workspace that a monitor shows, by name.
#[derive(Debug)]
pub struct ShownWorkspace {
    pub monitor: usize,
    pub name: String,
}

/// Why the prediction cannot follow a rule's commands.
#[derive(Clone, Debug, PartialEq, Eq)]
pub enum Unpredictable {
    /// The window is not in a workspace on a monitor.
    WindowLocationUnavailable,
    /// An active workspace has no monitor.
    ActiveWorkspaceWithoutMonitor,
    /// A rename would take the name of another active workspace.
    UpdatedNameExists,
    /// No active workspace has the name.
    ActiveWorkspaceNotFound(String),
    /// No workspace is known to be shown on the monitor.
    NoDisplayedWorkspace(usize),
    /// No configured workspace has the name.
    ConfiguredWorkspaceNotFound(String),
    /// The workspace to activate is not configured.
    NotConfigured(String),
    /// The monitor that would activate the workspace is not known.
    ActivationMonitorUnknown(String),
    /// A window moved before: whether an emptied workspace goes when
    /// focus moves cannot be known.
    FocusAfterWindowMove,
    /// No workspace is known to have focus.
    NoFocusedWorkspace,
    /// No monitor has the index.
    MonitorNotFound(usize),
    /// A directional window move depends on the layout.
    DirectionalMoveLocation,
    /// A directional window move changes focus or workspaces.
    DirectionalMoveFocus,
    /// A focus command that names no workspace or monitor.
    NonWorkspaceFocus,
    /// The side area the window moved to has no monitor.
    SideAreaWithoutMonitor,
    /// A workspace moved to another monitor.
    WorkspaceMoved,
    /// A workspace was renamed.
    WorkspaceRenamed,
    /// A command cycles focus.
    FocusCycle,
    /// The config was reloaded, which can rebuild side areas.
    ConfigReloadLocation,
    /// The config was reloaded, which changes the workspaces.
    ConfigReloadState,
}

/// What the prediction knows of the workspaces.
#[derive(Debug)]
pub struct PredictedWorkspaceState {
    /// The active workspaces, in the order the monitors hold them.
    pub workspaces: Vec<PredictedWorkspace>,
    /// The workspace each monitor shows.
    pub displayed_workspaces: Vec<ShownWorkspace>,
    pub focused_workspace: Option<String>,
    pub recent_workspace: Option<String>,
    /// Whether a focus change can still be followed.
    pub can_focus_workspace: bool,
}

/// Holds of the workspaces named `name`.
pub open spec fn named(name: Seq<char>) -> spec_fn(PredictedWorkspace) -> bool {
    |w: PredictedWorkspace| w.name@ == name
}

/// Holds of the shown workspace of monitor `m`.
pub open spec fn shown_on(m: usize) -> spec_fn(ShownWorkspace) -> bool {
    |d: ShownWorkspace| d.monitor == m
}

/// Holds of the configured workspaces named `name`.
pub open spec fn configured(name: Seq<char>) -> spec_fn(WorkspaceConfig) -> bool {
    |c: WorkspaceConfig| c.name@ == name
}

/// Where a workspace named `name` stands in the config; an unconfigured
/// one comes after all configured ones.
pub open spec fn config_rank(cfg: Seq<WorkspaceConfig>, name: Seq<char>) -> int {
    match first_index(cfg, configured(name)) {
        Some(i) => i,
        None => cfg.len() as int,
    }
}

/// Whether a workspace named `name` is shown on some monitor.
pub open spec fn is_shown_name(ds: Seq<ShownWorkspace>, name: Seq<char>) -> bool {
    exists|k: int| 0 <= k < ds.len() && (#[trigger] ds[k]).name@ == name
}

/// Holds of workspaces that a focus change deactivates: not kept alive,
/// empty and not shown.
pub open spec fn deactivatable(ds: Seq<ShownWorkspace>) -> spec_fn(PredictedWorkspace) -> bool {
    |w: PredictedWorkspace| !w.keep_alive && !w.has_children && !is_shown_name(ds, w.name@)
}

/// The shown workspaces once monitor `m` shows workspace `name`.
pub open spec fn with_shown(ds: Seq<ShownWorkspace>, m: usize, name: String) -> Seq<ShownWorkspace> {
    match first_index(ds, shown_on(m)) {
        Some(i) => ds.update(i, ShownWorkspace { monitor: m, name }),
        None => ds.push(ShownWorkspace { monitor: m, name }),
    }
}

/// The active workspaces once the first one that a focus change
/// deactivates is gone, with every workspace of its name.
pub open spec fn deactivated(ws: Seq<PredictedWorkspace>, ds: Seq<ShownWorkspace>) -> Seq<PredictedWorkspace> {
    match first_index(ws, deactivatable(ds)) {
        Some(i) => without_name(ws, ws[i].name@),
        None => ws,
    }
}

/// The workspaces of `ws` not named `name`, in order.
pub open spec fn without_name(ws: Seq<PredictedWorkspace>, name: Seq<char>) -> Seq<PredictedWorkspace>
    decreases ws.len(),
{
    if ws.len() == 0 {
        ws
    } else {
        let r = without_name(ws.drop_last(), name);
        if ws.last().name@ == name {
            r
        } else {
            r.push(ws.last())
        }
    }
}

/// Where workspace `name` is found in the config (see `config_rank`).
pub fn config_index(cfg: &Vec<WorkspaceConfig>, name: &str) -> (r: usize)
    ensures
        r == config_rank(cfg@, name@),
{
    let mut i: usize = 0;
    while i < cfg.len()
        invariant
            i <= cfg.len(),
            forall|j: int| 0 <= j < i ==> !(configured(name@))(#[trigger] cfg@[j]),
        decreases cfg.len() - i,
    {
        if str_equals(cfg[i].name.as_str(), name) {
            proof {
                lemma_first_index(cfg@, configured(name@), Some(i as int));
            }
            return i;
        }
        i = i + 1;
    }
    proof {
        lemma_first_index(cfg@, configured(name@), None);
    }
    cfg.len()
}

/// The name of the configured workspace next to (or else before)
/// configured workspace `origin`, wrapping around.
pub fn adjacent_configured_workspace(cfg: &Vec<WorkspaceConfig>, origin: &String, next: bool) -> (r: Result<
    Option<String>,
    Unpredictable,
>)
    ensures
        match first_index(cfg@, configured(origin@)) {
            Some(i) => r matches Ok(Some(n)) && n == cfg@[adjacent_index(cfg@.len() as int, i, next)].name,
            None => r == Err::<Option<String>, Unpredictable>(Unpredictable::ConfiguredWorkspaceNotFound(*origin)),
        },
{
    let i = config_index(cfg, origin.as_str());
    if i == cfg.len() {
        proof {
            if let Some(k) = first_index(cfg@, configured(origin@)) {
                lemma_first_index_bound(cfg@, configured(origin@));
            }
        }
        return Err(Unpredictable::ConfiguredWorkspaceNotFound(origin.clone()));
    }
    proof {
        lemma_first_index_bound(cfg@, configured(origin@));
    }
    let n = cfg.len();
    let j = if next {
        if i + 1 < n {
            i + 1
        } else {
            0
        }
    } else if i == 0 {
        n - 1
    } else {
        i - 1
    };
    Ok(Some(cfg[j].name.clone()))
}

/// A position that `first_index` gives lies in the sequence.
pub proof fn lemma_first_index_bound<T>(s: Seq<T>, f: spec_fn(T) -> bool)
    ensures
        first_index(s, f) matches Some(i) ==> 0 <= i < s.len() && f(s[i]) && forall|j: int|
            0 <= j < i ==> !f(#[trigger] s[j]),
        first_index(s, f) is None ==> forall|j: int| 0 <= j < s.len() ==> !f(#[trigger] s[j]),
    decreases s.len(),
{
    if s.len() > 0 && !f(s[0]) {
        let t = s.skip(1);
        lemma_first_index_bound(t, f);
        assert forall|j: int| 0 < j < s.len() implies s[j] == t[j - 1] by {}
        if first_index(t, f) is None {
            assert forall|j: int| 0 <= j < s.len() implies !f(#[trigger] s[j]) by {
                if j > 0 {
                    assert(s[j] == t[j - 1]);
                }
            }
        } else {
            let i = first_index(s, f).unwrap();
            assert forall|j: int| 0 <= j < i implies !f(#[trigger] s[j]) by {
                if j > 0 {
                    assert(s[j] == t[j - 1]);
                }
            }
        }
    }
}

impl PredictedWorkspaceState {
    /// The position of the active workspace named `name`.
    pub fn workspace_by_name(&self, name: &str) -> (r: Option<usize>)
        ensures
            opt_int(r) == first_index(self.workspaces@, named(name@)),
            r matches Some(i) ==> (i as int) < self.workspaces@.len(),
    {
        let mut i: usize = 0;
        while i < self.workspaces.len()
            invariant
                i <= self.workspaces@.len(),
                forall|j: int| 0 <= j < i ==> !(named(name@))(#[trigger] self.workspaces@[j]),
            decreases self.workspaces@.len() - i,
        {
            if str_equals(self.workspaces[i].name.as_str(), name) {
                proof {
                    lemma_first_index(self.workspaces@, named(name@), Some(i as int));
                }
                return Some(i);
            }
            i = i + 1;
        }
        proof {
            lemma_first_index(self.workspaces@, named(name@), None);
        }
        None
    }

    /// The position of the shown workspace of monitor `m`.
    fn displayed_index(&self, m: usize) -> (r: Option<usize>)
        ensures
            opt_int(r) == first_index(self.displayed_workspaces@, shown_on(m)),
            r matches Some(i) ==> (i as int) < self.displayed_workspaces@.len(),
    {
        let mut i: usize = 0;
        while i < self.displayed_workspaces.len()
            invariant
                i <= self.displayed_workspaces@.len(),
                forall|j: int| 0 <= j < i ==> !(shown_on(m))(#[trigger] self.displayed_workspaces@[j]),
            decreases self.displayed_workspaces@.len() - i,
        {
            if self.displayed_workspaces[i].monitor == m {
                proof {
                    lemma_first_index(self.displayed_workspaces@, shown_on(m), Some(i as int));
                }
                return Some(i);
            }
            i = i + 1;
        }
        proof {
            lemma_first_index(self.displayed_workspaces@, shown_on(m), None);
        }
        None
    }

    /// The name of the workspace that monitor `m` is predicted to show.
    pub fn displayed_workspace_name(&self, m: usize) -> (r: Result<String, Unpredictable>)
        ensures
            match first_index(self.displayed_workspaces@, shown_on(m)) {
                Some(i) => r == Ok::<String, Unpredictable>(self.displayed_workspaces@[i].name),
                None => r == Err::<String, Unpredictable>(Unpredictable::NoDisplayedWorkspace(m)),
            },
    {
        match self.displayed_index(m) {
            Some(i) => Ok(self.displayed_workspaces[i].name.clone()),
            None => Err(Unpredictable::NoDisplayedWorkspace(m)),
        }
    }

    /// Predicts that monitor `m` shows workspace `name`.
    pub fn set_displayed_workspace(&mut self, m: usize, name: String)
        ensures
            final(self).displayed_workspaces@ == with_shown(old(self).displayed_workspaces@, m, name),
            final(self).workspaces@ == old(self).workspaces@,
            final(self).focused_workspace == old(self).focused_workspace,
            final(self).recent_workspace == old(self).recent_workspace,
            final(self).can_focus_workspace == old(self).can_focus_workspace,
    {
        match self.displayed_index(m) {
            Some(i) => {
                self.displayed_workspaces.set(i, ShownWorkspace { monitor: m, name });
            },
            None => {
                self.displayed_workspaces.push(ShownWorkspace { monitor: m, name });
            },
        }
    }

    /// Applies a config update of workspace `name` that bears on target
    /// resolution: its keep-alive flag. Answers whether the update renames
    /// the workspace; a rename to the name of another active workspace is
    /// refused.
    pub fn update_workspace_config(&mut self, name: &String, new_name: &Option<String>, keep_alive: Option<bool>) -> (r: Result<
        bool,
        Unpredictable,
    >)
        ensures
            ({
                let renamed = new_name matches Some(n) && n@ != name@;
                if renamed && first_index(old(self).workspaces@, named(new_name.unwrap()@)) is Some {
                    r == Err::<bool, Unpredictable>(Unpredictable::UpdatedNameExists) && final(self).workspaces@
                        == old(self).workspaces@
                } else {
                    match first_index(old(self).workspaces@, named(name@)) {
                        None => r == Err::<bool, Unpredictable>(Unpredictable::ActiveWorkspaceNotFound(*name))
                            && final(self).workspaces@ == old(self).workspaces@,
                        Some(i) => r == Ok::<bool, Unpredictable>(renamed) && final(self).workspaces@ == match keep_alive {
                            Some(k) => old(self).workspaces@.update(
                                i,
                                PredictedWorkspace { keep_alive: k, ..old(self).workspaces@[i] },
                            ),
                            None => old(self).workspaces@,
                        },
                    }
                }
            }),
            final(self).displayed_workspaces@ == old(self).displayed_workspaces@,
            final(self).focused_workspace == old(self).focused_workspace,
            final(self).recent_workspace == old(self).recent_workspace,
            final(self).can_focus_workspace == old(self).can_focus_workspace,
    {
        let renamed = match new_name {
            Some(n) => !str_equals(n.as_str(), name.as_str()),
            None => false,
        };
        if renamed {
            if let Some(n) = new_name {
                if self.workspace_by_name(n.as_str()).is_some() {
                    return Err(Unpredictable::UpdatedNameExists);
                }
            }
        }
        let i = match self.workspace_by_name(name.as_str()) {
            Some(i) => i,
            None => {
                return Err(Unpredictable::ActiveWorkspaceNotFound(name.clone()));
            },
        };
        if let Some(k) = keep_alive {
            let w = self.workspaces[i].copy();
            self.workspaces.set(i, PredictedWorkspace { keep_alive: k, ..w });
        }
        Ok(renamed)
    }

    /// Whether some monitor is predicted to show workspace `name`.
    fn shows_name(&self, name: &str) -> (r: bool)
        ensures
            r == is_shown_name(self.displayed_workspaces@, name@),
    {
        let mut i: usize = 0;
        while i < self.displayed_workspaces.len()
            invariant
                i <= self.displayed_workspaces@.len(),
                forall|j: int| 0 <= j < i ==> (#[trigger] self.displayed_workspaces@[j]).name@ != name@,
            decreases self.displayed_workspaces@.len() - i,
        {
            if str_equals(self.displayed_workspaces[i].name.as_str(), name) {
                return true;
            }
            i = i + 1;
        }
        false
    }

    /// Removes the first active workspace that is not kept alive, empty
    /// and not shown, with every workspace of its name.
    pub fn deactivate_first_empty_hidden_workspace(&mut self)
        ensures
            final(self).workspaces@ == deactivated(old(self).workspaces@, old(self).displayed_workspaces@),
            final(self).displayed_workspaces@ == old(self).displayed_workspaces@,
            final(self).focused_workspace == old(self).focused_workspace,
            final(self).recent_workspace == old(self).recent_workspace,
            final(self).can_focus_workspace == old(self).can_focus_workspace,
    {
        let ghost f = deactivatable(self.displayed_workspaces@);
        let mut i: usize = 0;
        let mut found: Option<usize> = None;
        while found.is_none() && i < self.workspaces.len()
            invariant
                i <= self.workspaces@.len(),
                f == deactivatable(self.displayed_workspaces@),
                match found {
                    Some(k) => (k as int) < self.workspaces@.len() && f(self.workspaces@[k as int]) && forall|j: int|
                        0 <= j < k ==> !f(#[trigger] self.workspaces@[j]),
                    None => forall|j: int| 0 <= j < i ==> !f(#[trigger] self.workspaces@[j]),
                },
            decreases self.workspaces@.len() - i + if found is None { 1int } else { 0int },
        {
            let w = &self.workspaces[i];
            if !w.keep_alive && !w.has_children && !self.shows_name(w.name.as_str()) {
                found = Some(i);
            } else {
                i = i + 1;
            }
        }
        match found {
            Some(k) => {
                proof {
                    lemma_first_index(self.workspaces@, f, Some(k as int));
                }
            },
            None => {
                proof {
                    lemma_first_index(self.workspaces@, f, None);
                }
                return;
            },
        }
        let k = found.unwrap();
        let target = self.workspaces[k].name.clone();
        let mut kept: Vec<PredictedWorkspace> = Vec::new();
        let mut j: usize = 0;
        while j < self.workspaces.len()
            invariant
                j <= self.workspaces@.len(),
                kept@ == without_name(self.workspaces@.take(j as int), target@),
            decreases self.workspaces@.len() - j,
        {
            proof {
                assert(self.workspaces@.take(j + 1).drop_last() =~= self.workspaces@.take(j as int));
                assert(self.workspaces@.take(j + 1).last() == self.workspaces@[j as int]);
            }
            if !str_equals(self.workspaces[j].name.as_str(), target.as_str()) {
                kept.push(self.workspaces[j].copy());
            }
            j = j + 1;
        }
        proof {
            assert(self.workspaces@.take(self.workspaces@.len() as int) =~= self.workspaces@);
        }
        self.workspaces = kept;
    }
}

/// Holds of the workspaces on monitor `m`, or of all where `m` is none.
pub open spec fn on_monitor(m: Option<usize>) -> spec_fn(PredictedWorkspace) -> bool {
    |w: PredictedWorkspace| m matches Some(x) ==> w.monitor == x
}

/// The workspaces of `ws` that `f` holds of, in order.
pub open spec fn kept(ws: Seq<PredictedWorkspace>, f: spec_fn(PredictedWorkspace) -> bool) -> Seq<PredictedWorkspace>
    decreases ws.len(),
{
    if ws.len() == 0 {
        ws
    } else {
        let r = kept(ws.drop_last(), f);
        if f(ws.last()) {
            r.push(ws.last())
        } else {
            r
        }
    }
}

/// Holds of workspaces that come later in the config than rank `k`.
pub open spec fn ranked_after(cfg: Seq<WorkspaceConfig>, k: int) -> spec_fn(PredictedWorkspace) -> bool {
    |w: PredictedWorkspace| config_rank(cfg, w.name@) > k
}

/// `s`, ordered by config rank, with `x` inserted after every workspace
/// that does not come later in the config than it.
pub open spec fn insert_by_rank(cfg: Seq<WorkspaceConfig>, s: Seq<PredictedWorkspace>, x: PredictedWorkspace) -> Seq<PredictedWorkspace> {
    let p = match first_index(s, ranked_after(cfg, config_rank(cfg, x.name@))) {
        Some(j) => j,
        None => s.len() as int,
    };
    s.insert(p, x)
}

/// `s` sorted by config rank, keeping the order of workspaces of equal
/// rank.
pub open spec fn sort_by_rank(cfg: Seq<WorkspaceConfig>, s: Seq<PredictedWorkspace>) -> Seq<PredictedWorkspace>
    decreases s.len(),
{
    if s.len() == 0 {
        s
    } else {
        insert_by_rank(cfg, sort_by_rank(cfg, s.drop_last()), s.last())
    }
}

/// The names of workspaces, in order.
pub open spec fn names_of(s: Seq<PredictedWorkspace>) -> Seq<String> {
    s.map_values(|w: PredictedWorkspace| w.name)
}

/// Inserts `x` into `sorted`, which is ordered by config rank, after
/// every workspace that does not come later in the config than it.
fn insert_ranked(cfg: &Vec<WorkspaceConfig>, sorted: &mut Vec<PredictedWorkspace>, x: PredictedWorkspace)
    ensures
        final(sorted)@ == insert_by_rank(cfg@, old(sorted)@, x),
{
    let k = config_index(cfg, x.name.as_str());
    let ghost f = ranked_after(cfg@, k as int);
    let mut j: usize = 0;
    while j < sorted.len()
        invariant
            j <= sorted@.len(),
            sorted@ == old(sorted)@,
            f == ranked_after(cfg@, k as int),
            k as int == config_rank(cfg@, x.name@),
            forall|q: int| 0 <= q < j ==> !f(#[trigger] sorted@[q]),
        decreases sorted@.len() - j,
    {
        if config_index(cfg, sorted[j].name.as_str()) > k {
            proof {
                lemma_first_index(sorted@, f, Some(j as int));
            }
            sorted.insert(j, x);
            return;
        }
        j = j + 1;
    }
    proof {
        lemma_first_index(sorted@, f, None);
    }
    sorted.push(x);
    proof {
        assert(old(sorted)@.insert(old(sorted)@.len() as int, x) =~= old(sorted)@.push(x));
    }
}

/// The workspaces of `ws` that lie on monitor `m` (all where `m` is
/// none), sorted by config rank.
fn sorted_on_monitor(cfg: &Vec<WorkspaceConfig>, ws: &Vec<PredictedWorkspace>, m: Option<usize>) -> (r: Vec<PredictedWorkspace>)
    ensures
        r@ == sort_by_rank(cfg@, kept(ws@, on_monitor(m))),
{
    let mut sorted: Vec<PredictedWorkspace> = Vec::new();
    let mut i: usize = 0;
    while i < ws.len()
        invariant
            i <= ws@.len(),
            sorted@ == sort_by_rank(cfg@, kept(ws@.take(i as int), on_monitor(m))),
        decreases ws@.len() - i,
    {
        let ghost before = kept(ws@.take(i as int), on_monitor(m));
        proof {
            assert(ws@.take(i + 1).drop_last() =~= ws@.take(i as int));
            assert(ws@.take(i + 1).last() == ws@[i as int]);
        }
        let on = match m {
            Some(x) => ws[i].monitor == x,
            None => true,
        };
        if on {
            proof {
                assert(before.push(ws@[i as int]).drop_last() =~= before);
            }
            insert_ranked(cfg, &mut sorted, ws[i].copy());
        }
        i = i + 1;
    }
    proof {
        assert(ws@.take(ws@.len() as int) =~= ws@);
    }
    sorted
}

/// The names of `s`, in order.
fn names(s: &Vec<PredictedWorkspace>) -> (r: Vec<String>)
    ensures
        r@ == names_of(s@),
{
    let mut r: Vec<String> = Vec::new();
    let mut i: usize = 0;
    while i < s.len()
        invariant
            i <= s@.len(),
            r@ == names_of(s@.take(i as int)),
        decreases s@.len() - i,
    {
        r.push(s[i].name.clone());
        i = i + 1;
        proof {
            assert(names_of(s@.take(i as int)) =~= names_of(s@.take(i - 1)).push(s@[i - 1].name));
        }
    }
    proof {
        assert(s@.take(s@.len() as int) =~= s@);
    }
    r
}

impl PredictedWorkspaceState {
    /// The names of the active workspaces on monitor `m` (all where `m` is
    /// none), in config order.
    pub fn sorted_workspace_names(&self, cfg: &Vec<WorkspaceConfig>, m: Option<usize>) -> (r: Vec<String>)
        ensures
            r@ == names_of(sort_by_rank(cfg@, kept(self.workspaces@, on_monitor(m)))),
    {
        let sorted = sorted_on_monitor(cfg, &self.workspaces, m);
        names(&sorted)
    }
}

/// Holds of `m` alone.
pub open spec fn is_id(m: usize) -> spec_fn(usize) -> bool {
    |id: usize| id == m
}

/// Where monitor `m` stands among `monitors`; after all of them where it
/// is not among them.
pub open spec fn monitor_position(monitors: Seq<usize>, m: usize) -> int {
    match first_index(monitors, is_id(m)) {
        Some(k) => k,
        None => monitors.len() as int,
    }
}

/// Holds of workspaces on a monitor that stands after position `mi`.
pub open spec fn on_later_monitor(monitors: Seq<usize>, mi: int) -> spec_fn(PredictedWorkspace) -> bool {
    |x: PredictedWorkspace| match first_index(monitors, is_id(x.monitor)) {
        Some(k) => k > mi,
        None => false,
    }
}

/// Holds of workspaces not on monitor `m`.
pub open spec fn off_monitor(m: usize) -> spec_fn(PredictedWorkspace) -> bool {
    |x: PredictedWorkspace| x.monitor != m
}

/// Where the workspaces of monitor `m` go in the list of active
/// workspaces: where its first one stands, else before the first one of a
/// later monitor, else at the end.
pub open spec fn insertion_point(ws: Seq<PredictedWorkspace>, monitors: Seq<usize>, m: usize) -> int {
    match first_index(ws, on_monitor(Some(m))) {
        Some(i) => i,
        None => match first_index(ws, on_later_monitor(monitors, monitor_position(monitors, m))) {
            Some(j) => j,
            None => ws.len() as int,
        },
    }
}

/// The active workspaces once `w` is activated: the workspaces of its
/// monitor, with it, sorted by config rank and put back at the monitor's
/// place.
pub open spec fn with_workspace(
    cfg: Seq<WorkspaceConfig>,
    ws: Seq<PredictedWorkspace>,
    monitors: Seq<usize>,
    w: PredictedWorkspace,
) -> Seq<PredictedWorkspace> {
    let rest = kept(ws, off_monitor(w.monitor));
    let p = insertion_point(ws, monitors, w.monitor);
    let q = if p <= rest.len() { p } else { rest.len() as int };
    rest.take(q) + sort_by_rank(cfg, kept(ws, on_monitor(Some(w.monitor))).push(w)) + rest.skip(q)
}

/// The first position of `s` that `f` holds of, or the length.
fn position_where_monitor(s: &Vec<usize>, m: usize) -> (r: usize)
    ensures
        r as int == monitor_position(s@, m),
{
    let ghost f = is_id(m);
    let mut i: usize = 0;
    while i < s.len()
        invariant
            i <= s@.len(),
            f == is_id(m),
            forall|j: int| 0 <= j < i ==> !f(#[trigger] s@[j]),
        decreases s@.len() - i,
    {
        if s[i] == m {
            proof {
                lemma_first_index(s@, f, Some(i as int));
            }
            return i;
        }
        i = i + 1;
    }
    proof {
        lemma_first_index(s@, f, None);
    }
    s.len()
}

/// Where the workspaces of monitor `m` go (see `insertion_point`).
fn find_insertion_point(ws: &Vec<PredictedWorkspace>, monitors: &Vec<usize>, m: usize) -> (r: usize)
    ensures
        r as int == insertion_point(ws@, monitors@, m),
{
    let ghost f = on_monitor(Some(m));
    let mut i: usize = 0;
    while i < ws.len()
        invariant
            i <= ws@.len(),
            f == on_monitor(Some(m)),
            forall|j: int| 0 <= j < i ==> !f(#[trigger] ws@[j]),
        decreases ws@.len() - i,
    {
        if ws[i].monitor == m {
            proof {
                lemma_first_index(ws@, f, Some(i as int));
            }
            return i;
        }
        i = i + 1;
    }
    proof {
        lemma_first_index(ws@, f, None);
    }
    let mi = position_where_monitor(monitors, m);
    let ghost g = on_later_monitor(monitors@, mi as int);
    let mut j: usize = 0;
    while j < ws.len()
        invariant
            j <= ws@.len(),
            g == on_later_monitor(monitors@, mi as int),
            mi as int == monitor_position(monitors@, m),
            first_index(ws@, on_monitor(Some(m))) is None,
            forall|q: int| 0 <= q < j ==> !g(#[trigger] ws@[q]),
        decreases ws@.len() - j,
    {
        let k = position_where_monitor(monitors, ws[j].monitor);
        if k < monitors.len() && k > mi {
            proof {
                lemma_first_index_bound(monitors@, is_id(ws@[j as int].monitor));
                lemma_first_index(ws@, g, Some(j as int));
            }
            return j;
        }
        proof {
            lemma_first_index_bound(monitors@, is_id(ws@[j as int].monitor));
        }
        j = j + 1;
    }
    proof {
        lemma_first_index(ws@, g, None);
    }
    ws.len()
}

/// The workspaces of `ws` not on monitor `m`, in order.
fn off_monitor_of(ws: &Vec<PredictedWorkspace>, m: usize) -> (r: Vec<PredictedWorkspace>)
    ensures
        r@ == kept(ws@, off_monitor(m)),
{
    let mut r: Vec<PredictedWorkspace> = Vec::new();
    let mut i: usize = 0;
    while i < ws.len()
        invariant
            i <= ws@.len(),
            r@ == kept(ws@.take(i as int), off_monitor(m)),
        decreases ws@.len() - i,
    {
        proof {
            assert(ws@.take(i + 1).drop_last() =~= ws@.take(i as int));
            assert(ws@.take(i + 1).last() == ws@[i as int]);
        }
        if ws[i].monitor != m {
            r.push(ws[i].copy());
        }
        i = i + 1;
    }
    proof {
        assert(ws@.take(ws@.len() as int) =~= ws@);
    }
    r
}

impl PredictedWorkspaceState {
    /// Activates `w` in the prediction, in the place that sorting the
    /// workspaces of its monitor gives it (see `with_workspace`).
    /// `monitors` are the monitors in order.
    pub fn insert_workspace(&mut self, cfg: &Vec<WorkspaceConfig>, monitors: &Vec<usize>, w: PredictedWorkspace)
        ensures
            final(self).workspaces@ == with_workspace(cfg@, old(self).workspaces@, monitors@, w),
            final(self).displayed_workspaces@ == old(self).displayed_workspaces@,
            final(self).focused_workspace == old(self).focused_workspace,
            final(self).recent_workspace == old(self).recent_workspace,
            final(self).can_focus_workspace == old(self).can_focus_workspace,
    {
        let ghost ws0 = self.workspaces@;
        let m = w.monitor;
        let p = find_insertion_point(&self.workspaces, monitors, m);
        let mut group = sorted_on_monitor(cfg, &self.workspaces, Some(m));
        proof {
            let s0 = kept(ws0, on_monitor(Some(m)));
            assert(s0.push(w).drop_last() =~= s0);
        }
        insert_ranked(cfg, &mut group, w);
        let rest = off_monitor_of(&self.workspaces, m);
        let q = if p <= rest.len() {
            p
        } else {
            rest.len()
        };
        let mut out: Vec<PredictedWorkspace> = Vec::new();
        let mut i: usize = 0;
        while i < q
            invariant
                i <= q,
                q <= rest@.len(),
                out@ == rest@.take(i as int),
            decreases q - i,
        {
            out.push(rest[i].copy());
            i = i + 1;
            proof {
                assert(out@ =~= rest@.take(i as int));
            }
        }
        let mut k: usize = 0;
        while k < group.len()
            invariant
                k <= group@.len(),
                out@ == rest@.take(q as int) + group@.take(k as int),
            decreases group@.len() - k,
        {
            out.push(group[k].copy());
            k = k + 1;
            proof {
                assert(out@ =~= rest@.take(q as int) + group@.take(k as int));
            }
        }
        let mut j: usize = q;
        while j < rest.len()
            invariant
                q <= j <= rest@.len(),
                out@ == rest@.take(q as int) + group@ + rest@.subrange(q as int, j as int),
            decreases rest@.len() - j,
        {
            proof {
                assert(group@.take(group@.len() as int) =~= group@);
            }
            out.push(rest[j].copy());
            j = j + 1;
            proof {
                assert(out@ =~= rest@.take(q as int) + group@ + rest@.subrange(q as int, j as int));
            }
        }
        proof {
            assert(group@.take(group@.len() as int) =~= group@);
            assert(rest@.subrange(q as int, rest@.len() as int) =~= rest@.skip(q as int));
        }
        self.workspaces = out;
    }
}

/// The workspace a focus or move command names.
#[derive(Clone, Debug, PartialEq, Eq)]
pub enum WorkspaceTarget {
    Name(String),
    Recent,
    NextActive,
    PreviousActive,
    NextActiveInMonitor,
    PreviousActiveInMonitor,
    Next,
    Previous,
    Direction(Direction),
}

/// Holds of names equal to `name`.
pub open spec fn same_name(name: Seq<char>) -> spec_fn(String) -> bool {
    |n: String| n@ == name
}

/// The name next to (or else before) active workspace `origin` among the
/// active workspaces on monitor `m` (all where `m` is none), in config
/// order, wrapping around.
pub open spec fn spec_adjacent_active(
    cfg: Seq<WorkspaceConfig>,
    ws: Seq<PredictedWorkspace>,
    origin: String,
    m: Option<usize>,
    next: bool,
) -> Result<Option<String>, Unpredictable> {
    let ns = names_of(sort_by_rank(cfg, kept(ws, on_monitor(m))));
    match first_index(ns, same_name(origin@)) {
        Some(i) => Ok(Some(ns[adjacent_index(ns.len() as int, i, next)])),
        None => Err(Unpredictable::ActiveWorkspaceNotFound(origin)),
    }
}

/// The name next to (or else before) configured workspace `origin`.
pub open spec fn spec_adjacent_configured(cfg: Seq<WorkspaceConfig>, origin: String, next: bool) -> Result<
    Option<String>,
    Unpredictable,
> {
    match first_index(cfg, configured(origin@)) {
        Some(i) => Ok(Some(cfg[adjacent_index(cfg.len() as int, i, next)].name)),
        None => Err(Unpredictable::ConfiguredWorkspaceNotFound(origin)),
    }
}

/// The workspace that `target` names, from the focused workspace
/// `origin`, where any; naming `origin` itself gives the recent
/// workspace where refocusing toggles, and none otherwise.
pub open spec fn spec_resolve(
    t: &ContainerTree,
    cfg: Seq<WorkspaceConfig>,
    toggle_on_refocus: bool,
    ws: Seq<PredictedWorkspace>,
    ds: Seq<ShownWorkspace>,
    recent: Option<String>,
    origin: String,
    target: WorkspaceTarget,
) -> Result<Option<String>, Unpredictable> {
    match target {
        WorkspaceTarget::Name(name) => if origin@ != name@ {
            Ok(Some(name))
        } else if toggle_on_refocus {
            Ok(recent)
        } else {
            Ok(None)
        },
        WorkspaceTarget::Recent => Ok(recent),
        WorkspaceTarget::NextActive => spec_adjacent_active(cfg, ws, origin, None, true),
        WorkspaceTarget::PreviousActive => spec_adjacent_active(cfg, ws, origin, None, false),
        WorkspaceTarget::NextActiveInMonitor => match first_index(ws, named(origin@)) {
            Some(i) => spec_adjacent_active(cfg, ws, origin, Some(ws[i].monitor), true),
            None => Err(Unpredictable::ActiveWorkspaceNotFound(origin)),
        },
        WorkspaceTarget::PreviousActiveInMonitor => match first_index(ws, named(origin@)) {
            Some(i) => spec_adjacent_active(cfg, ws, origin, Some(ws[i].monitor), false),
            None => Err(Unpredictable::ActiveWorkspaceNotFound(origin)),
        },
        WorkspaceTarget::Next => spec_adjacent_configured(cfg, origin, true),
        WorkspaceTarget::Previous => spec_adjacent_configured(cfg, origin, false),
        WorkspaceTarget::Direction(d) => match first_index(ws, named(origin@)) {
            Some(i) => if ws[i].monitor >= t.len() {
                Err(Unpredictable::ActiveWorkspaceWithoutMonitor)
            } else {
                match spec_monitor_in_direction(t, ws[i].monitor as int, d) {
                    Some(m) => match first_index(ds, shown_on(m)) {
                        Some(k) => Ok(Some(ds[k].name)),
                        None => Err(Unpredictable::NoDisplayedWorkspace(m)),
                    },
                    None => Ok(None),
                }
            },
            None => Err(Unpredictable::ActiveWorkspaceNotFound(origin)),
        },
    }
}

impl PredictedWorkspaceState {
    /// The name next to (or else before) active workspace `origin` (see
    /// `spec_adjacent_active`).
    pub fn adjacent_active_workspace(&self, cfg: &Vec<WorkspaceConfig>, origin: &String, m: Option<usize>, next: bool) -> (r: Result<
        Option<String>,
        Unpredictable,
    >)
        ensures
            r == spec_adjacent_active(cfg@, self.workspaces@, *origin, m, next),
    {
        let ns = self.sorted_workspace_names(cfg, m);
        let ghost f = same_name(origin@);
        let mut i: usize = 0;
        while i < ns.len()
            invariant
                i <= ns@.len(),
                f == same_name(origin@),
                ns@ == names_of(sort_by_rank(cfg@, kept(self.workspaces@, on_monitor(m)))),
                forall|j: int| 0 <= j < i ==> !f(#[trigger] ns@[j]),
            decreases ns@.len() - i,
        {
            if str_equals(ns[i].as_str(), origin.as_str()) {
                proof {
                    lemma_first_index(ns@, f, Some(i as int));
                }
                let n = ns.len();
                let j = if next {
                    if i + 1 < n {
                        i + 1
                    } else {
                        0
                    }
                } else if i == 0 {
                    n - 1
                } else {
                    i - 1
                };
                return Ok(Some(ns[j].clone()));
            }
            i = i + 1;
        }
        proof {
            lemma_first_index(ns@, f, None);
        }
        Err(Unpredictable::ActiveWorkspaceNotFound(origin.clone()))
    }

    /// The workspace that `target` names from `origin` (see
    /// `spec_resolve`).
    pub fn resolve_workspace_target(
        &self,
        t: &ContainerTree,
        cfg: &Vec<WorkspaceConfig>,
        toggle_on_refocus: bool,
        origin: &String,
        target: WorkspaceTarget,
    ) -> (r: Result<Option<String>, Unpredictable>)
        requires
            t.wf(),
        ensures
            r == spec_resolve(
                t,
                cfg@,
                toggle_on_refocus,
                self.workspaces@,
                self.displayed_workspaces@,
                self.recent_workspace,
                *origin,
                target,
            ),
    {
        match target {
            WorkspaceTarget::Name(name) => {
                if !str_equals(origin.as_str(), name.as_str()) {
                    Ok(Some(name))
                } else if toggle_on_refocus {
                    Ok(self.recent_workspace.clone())
                } else {
                    Ok(None)
                }
            },
            WorkspaceTarget::Recent => Ok(self.recent_workspace.clone()),
            WorkspaceTarget::NextActive => self.adjacent_active_workspace(cfg, origin, None, true),
            WorkspaceTarget::PreviousActive => self.adjacent_active_workspace(cfg, origin, None, false),
            WorkspaceTarget::NextActiveInMonitor | WorkspaceTarget::PreviousActiveInMonitor => {
                let next = match target {
                    WorkspaceTarget::NextActiveInMonitor => true,
                    _ => false,
                };
                match self.workspace_by_name(origin.as_str()) {
                    Some(i) => self.adjacent_active_workspace(cfg, origin, Some(self.workspaces[i].monitor), next),
                    None => Err(Unpredictable::ActiveWorkspaceNotFound(origin.clone())),
                }
            },
            WorkspaceTarget::Next => adjacent_configured_workspace(cfg, origin, true),
            WorkspaceTarget::Previous => adjacent_configured_workspace(cfg, origin, false),
            WorkspaceTarget::Direction(d) => match self.workspace_by_name(origin.as_str()) {
                Some(i) => {
                    let m = self.workspaces[i].monitor;
                    if m >= t.nodes.len() {
                        return Err(Unpredictable::ActiveWorkspaceWithoutMonitor);
                    }
                    match t.monitor_in_direction(m, d) {
                        Some(target_monitor) => match self.displayed_workspace_name(target_monitor) {
                            Ok(n) => Ok(Some(n)),
                            Err(e) => Err(e),
                        },
                        None => Ok(None),
                    }
                },
                None => Err(Unpredictable::ActiveWorkspaceNotFound(origin.clone())),
            },
        }
    }
}

/// Whether two predictions hold the same.
pub open spec fn same_prediction(a: &PredictedWorkspaceState, b: &PredictedWorkspaceState) -> bool {
    &&& a.workspaces@ == b.workspaces@
    &&& a.displayed_workspaces@ == b.displayed_workspaces@
    &&& a.focused_workspace == b.focused_workspace
    &&& a.recent_workspace == b.recent_workspace
    &&& a.can_focus_workspace == b.can_focus_workspace
}

/// The monitor that activates configured workspace `c`: the monitor at
/// the index it is bound to, else the monitor of the focused workspace.
pub open spec fn activation_monitor(
    ws: Seq<PredictedWorkspace>,
    focused: Option<String>,
    monitors: Seq<usize>,
    c: WorkspaceConfig,
) -> Option<usize> {
    let bound = match c.bind_to_monitor {
        Some(k) => if (k as int) < monitors.len() {
            Some(monitors[k as int])
        } else {
            None
        },
        None => None,
    };
    match bound {
        Some(m) => Some(m),
        None => match focused {
            Some(f) => match first_index(ws, named(f@)) {
                Some(i) => Some(ws[i].monitor),
                None => None,
            },
            None => None,
        },
    }
}

/// Activating workspace `name` where it is not active: the result (its
/// monitor), the active workspaces and the shown workspaces after.
pub open spec fn spec_ensure_active(
    cfg: Seq<WorkspaceConfig>,
    monitors: Seq<usize>,
    ws: Seq<PredictedWorkspace>,
    ds: Seq<ShownWorkspace>,
    focused: Option<String>,
    name: String,
) -> (Result<usize, Unpredictable>, Seq<PredictedWorkspace>, Seq<ShownWorkspace>) {
    match first_index(ws, named(name@)) {
        Some(i) => (Ok(ws[i].monitor), ws, ds),
        None => match first_index(cfg, configured(name@)) {
            None => (Err(Unpredictable::NotConfigured(name)), ws, ds),
            Some(c) => match activation_monitor(ws, focused, monitors, cfg[c]) {
                None => (Err(Unpredictable::ActivationMonitorUnknown(name)), ws, ds),
                Some(m) => {
                    let w = PredictedWorkspace { name, monitor: m, has_children: false, keep_alive: cfg[c].keep_alive };
                    let ds2 = if first_index(ds, shown_on(m)) is None {
                        with_shown(ds, m, name)
                    } else {
                        ds
                    };
                    (Ok(m), with_workspace(cfg, ws, monitors, w), ds2)
                },
            },
        },
    }
}

/// The position of configured workspace `name`.
fn config_entry(cfg: &Vec<WorkspaceConfig>, name: &str) -> (r: Option<usize>)
    ensures
        opt_int(r) == first_index(cfg@, configured(name@)),
        r matches Some(i) ==> (i as int) < cfg@.len(),
{
    let i = config_index(cfg, name);
    proof {
        lemma_first_index_bound(cfg@, configured(name@));
    }
    if i < cfg.len() {
        Some(i)
    } else {
        None
    }
}

impl PredictedWorkspaceState {
    /// Activates workspace `name` in the prediction where it is not
    /// active, on the monitor that would activate it; a monitor that shows
    /// nothing yet shows it. Gives the workspace's monitor (see
    /// `spec_ensure_active`).
    pub fn ensure_workspace_active(&mut self, cfg: &Vec<WorkspaceConfig>, monitors: &Vec<usize>, name: &String) -> (r: Result<
        usize,
        Unpredictable,
    >)
        ensures
            ({
                let (er, ws1, ds1) = spec_ensure_active(
                    cfg@,
                    monitors@,
                    old(self).workspaces@,
                    old(self).displayed_workspaces@,
                    old(self).focused_workspace,
                    *name,
                );
                &&& r == er
                &&& final(self).workspaces@ == ws1
                &&& final(self).displayed_workspaces@ == ds1
            }),
            final(self).focused_workspace == old(self).focused_workspace,
            final(self).recent_workspace == old(self).recent_workspace,
            final(self).can_focus_workspace == old(self).can_focus_workspace,
    {
        if let Some(i) = self.workspace_by_name(name.as_str()) {
            return Ok(self.workspaces[i].monitor);
        }
        let c = match config_entry(cfg, name.as_str()) {
            Some(c) => c,
            None => {
                return Err(Unpredictable::NotConfigured(name.clone()));
            },
        };
        let bound = match cfg[c].bind_to_monitor {
            Some(k) => if (k as usize) < monitors.len() {
                Some(monitors[k as usize])
            } else {
                None
            },
            None => None,
        };
        let m = match bound {
            Some(m) => m,
            None => {
                let by_focus = match &self.focused_workspace {
                    Some(f) => match self.workspace_by_name(f.as_str()) {
                        Some(i) => Some(self.workspaces[i].monitor),
                        None => None,
                    },
                    None => None,
                };
                match by_focus {
                    Some(m) => m,
                    None => {
                        return Err(Unpredictable::ActivationMonitorUnknown(name.clone()));
                    },
                }
            },
        };
        let w = PredictedWorkspace { name: name.clone(), monitor: m, has_children: false, keep_alive: cfg[c].keep_alive };
        self.insert_workspace(cfg, monitors, w);
        if self.displayed_index(m).is_none() {
            self.set_displayed_workspace(m, name.clone());
        }
        Ok(m)
    }

    /// Follows focus moving to the workspace that `target` names: it is
    /// activated, shown and focused, the first empty hidden workspace goes,
    /// and the workspace focus leaves becomes the recent one. Refused after
    /// a window move, and where no workspace has focus.
    pub fn focus_workspace(
        &mut self,
        t: &ContainerTree,
        cfg: &Vec<WorkspaceConfig>,
        toggle_on_refocus: bool,
        monitors: &Vec<usize>,
        target: WorkspaceTarget,
    ) -> (r: Result<(), Unpredictable>)
        requires
            t.wf(),
        ensures
            !old(self).can_focus_workspace ==> r == Err::<(), Unpredictable>(Unpredictable::FocusAfterWindowMove)
                && same_prediction(old(self), final(self)),
            old(self).can_focus_workspace && old(self).focused_workspace is None ==> r == Err::<(), Unpredictable>(
                Unpredictable::NoFocusedWorkspace,
            ) && same_prediction(old(self), final(self)),
            old(self).can_focus_workspace ==> match old(self).focused_workspace {
            None => true,
            Some(origin) => match spec_resolve(
                t,
                cfg@,
                toggle_on_refocus,
                old(self).workspaces@,
                old(self).displayed_workspaces@,
                old(self).recent_workspace,
                origin,
                target,
            ) {
                Err(e) => r == Err::<(), Unpredictable>(e) && same_prediction(old(self), final(self)),
                Ok(None) => r == Ok::<(), Unpredictable>(()) && same_prediction(old(self), final(self)),
                Ok(Some(name)) => {
                    let (er, ws1, ds1) = spec_ensure_active(
                        cfg@,
                        monitors@,
                        old(self).workspaces@,
                        old(self).displayed_workspaces@,
                        old(self).focused_workspace,
                        name,
                    );
                    match er {
                        Err(e) => r == Err::<(), Unpredictable>(e) && final(self).workspaces@ == ws1
                            && final(self).displayed_workspaces@ == ds1 && final(self).focused_workspace
                            == old(self).focused_workspace && final(self).recent_workspace == old(self).recent_workspace
                            && final(self).can_focus_workspace,
                        Ok(m) => {
                            let ds2 = with_shown(ds1, m, name);
                            &&& r == Ok::<(), Unpredictable>(())
                            &&& final(self).displayed_workspaces@ == ds2
                            &&& final(self).workspaces@ == deactivated(ws1, ds2)
                            &&& final(self).focused_workspace == Some(name)
                            &&& final(self).recent_workspace == Some(origin)
                            &&& final(self).can_focus_workspace
                        },
                    }
                },
            },
            },
    {
        if !self.can_focus_workspace {
            return Err(Unpredictable::FocusAfterWindowMove);
        }
        let origin = match &self.focused_workspace {
            Some(o) => o.clone(),
            None => {
                return Err(Unpredictable::NoFocusedWorkspace);
            },
        };
        let target_name = match self.resolve_workspace_target(t, cfg, toggle_on_refocus, &origin, target) {
            Err(e) => {
                return Err(e);
            },
            Ok(None) => {
                return Ok(());
            },
            Ok(Some(n)) => n,
        };
        let m = match self.ensure_workspace_active(cfg, monitors, &target_name) {
            Err(e) => {
                return Err(e);
            },
            Ok(m) => m,
        };
        self.set_displayed_workspace(m, target_name.clone());
        self.focused_workspace = Some(target_name);
        self.deactivate_first_empty_hidden_workspace();
        self.recent_workspace = Some(origin);
        Ok(())
    }

}

/// The name of workspace `w` in its config.
pub open spec fn ws_name(t: &ContainerTree, w: int) -> String {
    t.workspace_info(w).config.name
}

/// The prediction's view of the regular workspaces `ws` of monitor `m`.
pub open spec fn predicted_of(t: &ContainerTree, m: usize, ws: Seq<usize>) -> Seq<PredictedWorkspace> {
    ws.map_values(
        |w: usize|
            PredictedWorkspace {
                name: ws_name(t, w as int),
                monitor: m,
                has_children: t.ch(w as int).len() > 0,
                keep_alive: t.workspace_info(w as int).config.keep_alive,
            },
    )
}

/// The active workspaces of monitors `ms`, monitor by monitor.
pub open spec fn predicted_all(t: &ContainerTree, ms: Seq<usize>) -> Seq<PredictedWorkspace>
    decreases ms.len(),
{
    if ms.len() == 0 {
        Seq::empty()
    } else {
        predicted_all(t, ms.drop_last()) + predicted_of(t, ms.last(), regular_workspaces(t, t.ch(ms.last() as int)))
    }
}

/// The workspaces that monitors `ms` show, for those that show one.
pub open spec fn shown_all(t: &ContainerTree, ms: Seq<usize>) -> Seq<ShownWorkspace>
    decreases ms.len(),
{
    if ms.len() == 0 {
        Seq::empty()
    } else {
        let r = shown_all(t, ms.drop_last());
        match spec_displayed_workspace(t, ms.last() as int) {
            Some(d) => r.push(ShownWorkspace { monitor: ms.last(), name: ws_name(t, d as int) }),
            None => r,
        }
    }
}

/// The workspace that has focus where container `c` has it: its
/// workspace, or for a side area the workspace its monitor shows.
pub open spec fn focused_name(t: &ContainerTree, c: Option<usize>) -> Option<String> {
    match c {
        Some(x) => if (x as int) < t.len() {
            match workspace_of(t, x as int, t.len()) {
                Some(w) => if t.is_side_area(w as int) {
                    match monitor_of(t, w as int, t.len()) {
                        Some(m) => match spec_displayed_workspace(t, m as int) {
                            Some(d) => Some(ws_name(t, d as int)),
                            None => None,
                        },
                        None => None,
                    }
                } else {
                    Some(ws_name(t, w as int))
                },
                None => None,
            }
        } else {
            None
        },
        None => None,
    }
}

/// Where a rule's window is predicted to be: the monitor, and the
/// regular workspace where it is not in a side area.
#[derive(Clone, Debug, PartialEq, Eq)]
pub struct PredictedWindowLocation {
    pub workspace_name: Option<String>,
    pub monitor: usize,
}

/// The location of a window in workspace `w`, where `w` is on a monitor.
pub open spec fn location_of(t: &ContainerTree, w: int) -> Option<PredictedWindowLocation> {
    match monitor_of(t, w, t.len()) {
        Some(m) => Some(
            PredictedWindowLocation {
                workspace_name: if t.is_side_area(w) {
                    None
                } else {
                    Some(ws_name(t, w))
                },
                monitor: m,
            },
        ),
        None => None,
    }
}

impl ContainerTree {
    /// The name of workspace `w`.
    pub fn workspace_name(&self, w: usize) -> (r: String)
        requires
            (w as int) < self.len(),
            self.is_workspace(w as int),
        ensures
            r == ws_name(self, w as int),
    {
        match &self.nodes[w].kind {
            crate::tree::ContainerKind::Workspace(info) => info.config.name.clone(),
            _ => vstd::pervasive::unreached(),
        }
    }

    /// The location of a window in workspace `w` (see `location_of`).
    pub fn location_in(&self, w: usize) -> (r: Option<PredictedWindowLocation>)
        requires
            self.wf(),
            (w as int) < self.len(),
            self.is_workspace(w as int),
        ensures
            r == location_of(self, w as int),
    {
        let m = match self.monitor(w) {
            Some(m) => m,
            None => {
                return None;
            },
        };
        let name = if self.side(w).is_some() {
            None
        } else {
            Some(self.workspace_name(w))
        };
        Some(PredictedWindowLocation { workspace_name: name, monitor: m })
    }
}

impl PredictedWorkspaceState {
    /// The prediction at the start: the active workspaces of `monitors`
    /// (all monitors, in order), what each shows, the workspace with focus
    /// where container `focused` has focus, and the recent workspace.
    pub fn new(t: &ContainerTree, monitors: &Vec<usize>, focused: Option<usize>, recent: Option<String>) -> (r: PredictedWorkspaceState)
        requires
            t.wf(),
            forall|k: int| 0 <= k < monitors@.len() ==> (#[trigger] monitors@[k] as int) < t.len(),
        ensures
            r.workspaces@ == predicted_all(t, monitors@),
            r.displayed_workspaces@ == shown_all(t, monitors@),
            r.focused_workspace == focused_name(t, focused),
            r.recent_workspace == recent,
            r.can_focus_workspace,
    {
        let mut workspaces: Vec<PredictedWorkspace> = Vec::new();
        let mut shown: Vec<ShownWorkspace> = Vec::new();
        let mut i: usize = 0;
        while i < monitors.len()
            invariant
                t.wf(),
                i <= monitors@.len(),
                forall|k: int| 0 <= k < monitors@.len() ==> (#[trigger] monitors@[k] as int) < t.len(),
                workspaces@ == predicted_all(t, monitors@.take(i as int)),
                shown@ == shown_all(t, monitors@.take(i as int)),
            decreases monitors@.len() - i,
        {
            let m = monitors[i];
            proof {
                assert(monitors@.take(i + 1).drop_last() =~= monitors@.take(i as int));
                assert(monitors@.take(i + 1).last() == m);
            }
            let ws = t.workspaces(m);
            let ghost before = workspaces@;
            let mut j: usize = 0;
            while j < ws.len()
                invariant
                    t.wf(),
                    j <= ws@.len(),
                    ws@ == regular_workspaces(t, t.ch(m as int)),
                    (m as int) < t.len(),
                    workspaces@ == before + predicted_of(t, m, ws@.take(j as int)),
                decreases ws@.len() - j,
            {
                let w = ws[j];
                proof {
                    assert(t.node_wf(m as int));
                    assert forall|k: int| 0 <= k < t.ch(m as int).len() implies (#[trigger] t.ch(m as int)[k] as int)
                        < t.len() by {
                        assert(t.valid(t.ch(m as int)[k] as int));
                    }
                    lemma_regular_in_tree(t, t.ch(m as int), j as int);
                }
                let name = t.workspace_name(w);
                let keep_alive = match &t.nodes[w].kind {
                    crate::tree::ContainerKind::Workspace(info) => info.config.keep_alive,
                    _ => vstd::pervasive::unreached(),
                };
                let has_children = t.nodes[w].children.len() > 0;
                workspaces.push(PredictedWorkspace { name, monitor: m, has_children, keep_alive });
                j = j + 1;
                proof {
                    assert(predicted_of(t, m, ws@.take(j as int)) =~= predicted_of(t, m, ws@.take(j - 1)).push(
                        workspaces@.last(),
                    ));
                    assert(workspaces@ =~= before + predicted_of(t, m, ws@.take(j as int)));
                }
            }
            proof {
                assert(ws@.take(ws@.len() as int) =~= ws@);
            }
            match t.displayed_workspace(m) {
                Some(d) => {
                    shown.push(ShownWorkspace { monitor: m, name: t.workspace_name(d) });
                },
                None => {},
            }
            i = i + 1;
        }
        proof {
            assert(monitors@.take(monitors@.len() as int) =~= monitors@);
        }
        let focused_workspace = match focused {
            Some(c) => if c < t.nodes.len() {
                match t.workspace(c) {
                    Some(w) => if t.side(w).is_some() {
                        match t.monitor(w) {
                            Some(m) => match t.displayed_workspace(m) {
                                Some(d) => Some(t.workspace_name(d)),
                                None => None,
                            },
                            None => None,
                        }
                    } else {
                        Some(t.workspace_name(w))
                    },
                    None => None,
                }
            } else {
                None
            },
            None => None,
        };
        PredictedWorkspaceState {
            workspaces,
            displayed_workspaces: shown,
            focused_workspace,
            recent_workspace: recent,
            can_focus_workspace: true,
        }
    }
}

/// The regular workspaces among `s` are containers of the tree where `s`
/// holds ids of the tree.
pub(crate) proof fn lemma_regular_in_tree(t: &ContainerTree, s: Seq<usize>, j: int)
    requires
        t.wf(),
        forall|k: int| 0 <= k < s.len() ==> (#[trigger] s[k] as int) < t.len(),
        0 <= j < regular_workspaces(t, s).len(),
    ensures
        (regular_workspaces(t, s)[j] as int) < t.len(),
        t.is_regular_workspace(regular_workspaces(t, s)[j] as int),
    decreases s.len(),
{
    let r = regular_workspaces(t, s.drop_last());
    if j < r.len() {
        lemma_regular_in_tree(t, s.drop_last(), j);
    }
}

/// What a prediction holds: active workspaces, shown workspaces, the
/// focused and the recent workspace, and whether focus can be followed.
pub type PredView = (Seq<PredictedWorkspace>, Seq<ShownWorkspace>, Option<String>, Option<String>, bool);

/// The view of a prediction.
pub open spec fn pview(s: &PredictedWorkspaceState) -> PredView {
    (s.workspaces@, s.displayed_workspaces@, s.focused_workspace, s.recent_workspace, s.can_focus_workspace)
}

/// The monitors and config that predictions read.
pub struct RuleContext<'a> {
    pub tree: &'a ContainerTree,
    /// The configured workspaces, in order.
    pub workspaces: &'a Vec<WorkspaceConfig>,
    /// Whether focusing the focused workspace goes to the recent one.
    pub toggle_on_refocus: bool,
    /// The monitors, in order.
    pub monitors: &'a Vec<usize>,
}

/// Following focus to the workspace that `target` names (see
/// `PredictedWorkspaceState::focus_workspace`).
pub open spec fn spec_focus(ctx: &RuleContext, v: PredView, target: WorkspaceTarget) -> Result<PredView, Unpredictable> {
    if !v.4 {
        Err(Unpredictable::FocusAfterWindowMove)
    } else {
        match v.2 {
            None => Err(Unpredictable::NoFocusedWorkspace),
            Some(origin) => match spec_resolve(ctx.tree, ctx.workspaces@, ctx.toggle_on_refocus, v.0, v.1, v.3, origin, target) {
                Err(e) => Err(e),
                Ok(None) => Ok(v),
                Ok(Some(name)) => {
                    let (er, ws1, ds1) = spec_ensure_active(ctx.workspaces@, ctx.monitors@, v.0, v.1, v.2, name);
                    match er {
                        Err(e) => Err(e),
                        Ok(m) => {
                            let ds2 = with_shown(ds1, m, name);
                            Ok((deactivated(ws1, ds2), ds2, Some(name), Some(origin), true))
                        },
                    }
                },
            },
        }
    }
}

/// Following focus to the monitor at `index`.
pub open spec fn spec_focus_monitor(ctx: &RuleContext, v: PredView, index: usize) -> Result<PredView, Unpredictable> {
    if index as int >= ctx.monitors@.len() {
        Err(Unpredictable::MonitorNotFound(index))
    } else {
        let m = ctx.monitors@[index as int];
        match first_index(v.1, shown_on(m)) {
            None => Err(Unpredictable::NoDisplayedWorkspace(m)),
            Some(k) => spec_focus(ctx, v, WorkspaceTarget::Name(v.1[k].name)),
        }
    }
}

/// Predicting a move of the window to the workspace that `target` names:
/// the new location, and the prediction after. Focus can no longer be
/// followed once the window changed workspace.
pub open spec fn spec_predict_move(
    ctx: &RuleContext,
    loc: PredictedWindowLocation,
    v: PredView,
    target: WorkspaceTarget,
) -> (Result<PredictedWindowLocation, Unpredictable>, PredView) {
    let origin = match loc.workspace_name {
        Some(n) => Ok(n),
        None => match first_index(v.1, shown_on(loc.monitor)) {
            Some(k) => Ok(v.1[k].name),
            None => Err(Unpredictable::NoDisplayedWorkspace(loc.monitor)),
        },
    };
    match origin {
        Err(e) => (Err(e), v),
        Ok(o) => match spec_resolve(ctx.tree, ctx.workspaces@, ctx.toggle_on_refocus, v.0, v.1, v.3, o, target) {
            Err(e) => (Err(e), v),
            Ok(None) => (Ok(loc), v),
            Ok(Some(name)) => {
                let (er, ws1, ds1) = spec_ensure_active(ctx.workspaces@, ctx.monitors@, v.0, v.1, v.2, name);
                match er {
                    Err(e) => (Err(e), v),
                    Ok(m) => (
                        Ok(PredictedWindowLocation { workspace_name: Some(name), monitor: m }),
                        (ws1, ds1, v.2, v.3, v.4 && (loc.workspace_name matches Some(n) && n@ == name@)),
                    ),
                }
            },
        },
    }
}

impl PredictedWorkspaceState {
    /// The view of the prediction after following focus to `target`.
    pub fn follow_focus(&mut self, ctx: &RuleContext, target: WorkspaceTarget) -> (r: Result<(), Unpredictable>)
        requires
            ctx.tree.wf(),
        ensures
            match spec_focus(ctx, pview(old(self)), target) {
                Ok(v) => r is Ok && pview(final(self)) == v,
                Err(e) => r == Err::<(), Unpredictable>(e),
            },
    {
        self.focus_workspace(ctx.tree, ctx.workspaces, ctx.toggle_on_refocus, ctx.monitors, target)
    }
}

/// Predicts a move of the window at `loc` to the workspace that `target`
/// names, activating it where needed (see `spec_predict_move`).
pub fn predict_workspace_move(
    ctx: &RuleContext,
    loc: PredictedWindowLocation,
    target: WorkspaceTarget,
    state: &mut PredictedWorkspaceState,
) -> (r: Result<PredictedWindowLocation, Unpredictable>)
    requires
        ctx.tree.wf(),
    ensures
        (r, pview(final(state))) == spec_predict_move(ctx, loc, pview(old(state)), target),
{
    let origin = match &loc.workspace_name {
        Some(n) => n.clone(),
        None => match state.displayed_workspace_name(loc.monitor) {
            Ok(n) => n,
            Err(e) => {
                return Err(e);
            },
        },
    };
    let name = match state.resolve_workspace_target(ctx.tree, ctx.workspaces, ctx.toggle_on_refocus, &origin, target) {
        Err(e) => {
            return Err(e);
        },
        Ok(None) => {
            return Ok(loc);
        },
        Ok(Some(n)) => n,
    };
    let m = match state.ensure_workspace_active(ctx.workspaces, ctx.monitors, &name) {
        Err(e) => {
            return Err(e);
        },
        Ok(m) => m,
    };
    let same = match &loc.workspace_name {
        Some(n) => str_equals(n.as_str(), name.as_str()),
        None => false,
    };
    if !same {
        state.can_focus_workspace = false;
    }
    Ok(PredictedWindowLocation { workspace_name: Some(name), monitor: m })
}

/// A command of a window rule, as far as the prediction reads it.
#[derive(Clone, Debug)]
pub enum RuleCommand {
    /// Move the window: in a direction, to a workspace or into a side area.
    Move { direction: Option<Direction>, workspace: Option<WorkspaceTarget>, side_area: Option<SideArea> },
    /// Move the window's workspace to the monitor in a direction.
    MoveWorkspace(Direction),
    /// Focus a workspace or the monitor at an index.
    Focus { workspace: Option<WorkspaceTarget>, monitor: Option<usize> },
    /// Update the config of a workspace (the window's where none is named).
    UpdateWorkspaceConfig { workspace: Option<String>, name: Option<String>, keep_alive: Option<bool> },
    /// Cycle focus: to the next or previous tab, or between windows.
    CycleFocus,
    /// Reload the config.
    ReloadConfig,
    /// Stop managing the window.
    Ignore,
    /// A command that bears on no prediction.
    Other,
}

/// Why a side-area rule waits.
#[derive(Clone, Debug, PartialEq, Eq)]
pub enum DeferReason {
    /// The monitor where the window is when it moves into the side area
    /// cannot be predicted.
    SideAreaMonitorUnknown(SideArea, Unpredictable),
    /// The predicted monitor has no such side area.
    SideAreaUnavailable(SideArea, usize),
    /// The workspace whose config a command updates cannot be predicted.
    ConfigSubjectUnknown(Unpredictable),
    /// The config update itself cannot be predicted.
    ConfigUpdateUnknown(Unpredictable),
}

/// What a preflight holds: where the window is predicted to be, and the
/// prediction of the workspaces, each where it can be known.
pub type PreflightView = (Result<PredictedWindowLocation, Unpredictable>, Result<PredView, Unpredictable>);

/// A preflight of a rule's commands.
pub struct SideAreaRulePreflight {
    pub location: Result<PredictedWindowLocation, Unpredictable>,
    pub workspace_state: Result<PredictedWorkspaceState, Unpredictable>,
}

/// The view of a preflight.
pub open spec fn pfv(p: &SideAreaRulePreflight) -> PreflightView {
    (
        p.location,
        match p.workspace_state {
            Ok(s) => Ok(pview(&s)),
            Err(r) => Err(r),
        },
    )
}

/// Moving the window into `side`'s area of its predicted monitor: the
/// preflight after, or why the rule waits.
pub open spec fn spec_side_move(t: &ContainerTree, pf: PreflightView, side: SideArea) -> (PreflightView, Option<DeferReason>) {
    match pf.0 {
        Err(r) => (pf, Some(DeferReason::SideAreaMonitorUnknown(side, r))),
        Ok(loc) => if loc.monitor as int >= t.len() {
            (pf, Some(DeferReason::SideAreaUnavailable(side, loc.monitor)))
        } else {
            match spec_side_area(t, loc.monitor as int, side) {
                None => (pf, Some(DeferReason::SideAreaUnavailable(side, loc.monitor))),
                Some(a) => (
                    (
                        match location_of(t, a as int) {
                            Some(l) => Ok(l),
                            None => Err(Unpredictable::SideAreaWithoutMonitor),
                        },
                        match pf.1 {
                            Ok(v) => Ok((v.0, v.1, v.2, v.3, false)),
                            Err(r) => Err(r),
                        },
                    ),
                    None,
                ),
            }
        },
    }
}

/// Moving the window's workspace to the monitor in direction `d`.
pub open spec fn spec_move_workspace(t: &ContainerTree, pf: PreflightView, d: Direction) -> PreflightView {
    match pf.0 {
        Err(_) => pf,
        Ok(cur) => if cur.workspace_name is None || cur.monitor as int >= t.len() {
            pf
        } else {
            match spec_monitor_in_direction(t, cur.monitor as int, d) {
                Some(m) => (Ok(PredictedWindowLocation { monitor: m, ..cur }), Err(Unpredictable::WorkspaceMoved)),
                None => pf,
            }
        },
    }
}

/// A config update of workspace `name`: whether it renames it, and the
/// prediction after (see `PredictedWorkspaceState::update_workspace_config`).
pub open spec fn spec_update_config(v: PredView, name: String, new_name: Option<String>, keep_alive: Option<bool>) -> Result<
    (bool, PredView),
    Unpredictable,
> {
    let renamed = new_name matches Some(n) && n@ != name@;
    if renamed && first_index(v.0, named(new_name.unwrap()@)) is Some {
        Err(Unpredictable::UpdatedNameExists)
    } else {
        match first_index(v.0, named(name@)) {
            None => Err(Unpredictable::ActiveWorkspaceNotFound(name)),
            Some(i) => Ok(
                (
                    renamed,
                    (
                        match keep_alive {
                            Some(k) => v.0.update(i, PredictedWorkspace { keep_alive: k, ..v.0[i] }),
                            None => v.0,
                        },
                        v.1,
                        v.2,
                        v.3,
                        v.4,
                    ),
                ),
            ),
        }
    }
}

/// A config update of workspace `workspace` (the window's where none is
/// named; nothing for a side area): the preflight after, or why the rule
/// waits. A rename stops target resolution from being followed.
pub open spec fn spec_config_step(
    pf: PreflightView,
    workspace: Option<String>,
    new_name: Option<String>,
    keep_alive: Option<bool>,
) -> (PreflightView, Option<DeferReason>) {
    let target = match workspace {
        Some(n) => Ok(Some(n)),
        None => match pf.0 {
            Ok(l) => Ok(l.workspace_name),
            Err(r) => Err(r),
        },
    };
    match target {
        Err(r) => (pf, Some(DeferReason::ConfigSubjectUnknown(r))),
        Ok(None) => (pf, None),
        Ok(Some(name)) => match pf.1 {
            Err(r) => (pf, Some(DeferReason::ConfigUpdateUnknown(r))),
            Ok(v) => match spec_update_config(v, name, new_name, keep_alive) {
                Err(r) => (pf, Some(DeferReason::ConfigUpdateUnknown(r))),
                Ok((renamed, v2)) => ((pf.0, if renamed {
                    Err(Unpredictable::WorkspaceRenamed)
                } else {
                    Ok(v2)
                }), None),
            },
        },
    }
}

/// One command of a rule: the preflight after, why the rule waits where
/// it does, and whether the commands after it do not run.
pub open spec fn spec_step(ctx: &RuleContext, pf: PreflightView, cmd: RuleCommand) -> (PreflightView, Option<DeferReason>, bool) {
    match cmd {
        RuleCommand::Move { direction, workspace, side_area } => if direction is Some {
            ((Err(Unpredictable::DirectionalMoveLocation), Err(Unpredictable::DirectionalMoveFocus)), None, false)
        } else {
            match workspace {
                Some(target) => match pf.0 {
                    Err(r) => ((Err(r), pf.1), None, false),
                    Ok(cur) => match pf.1 {
                        Err(r) => ((Err(r), pf.1), None, false),
                        Ok(v) => {
                            let (l2, v2) = spec_predict_move(ctx, cur, v, target);
                            ((l2, Ok(v2)), None, false)
                        },
                    },
                },
                None => match side_area {
                    Some(side) => {
                        let (pf2, reason) = spec_side_move(ctx.tree, pf, side);
                        (pf2, reason, false)
                    },
                    None => (pf, None, false),
                },
            }
        },
        RuleCommand::MoveWorkspace(d) => (spec_move_workspace(ctx.tree, pf, d), None, false),
        RuleCommand::Focus { workspace, monitor } => match pf.1 {
            Err(_) => (pf, None, false),
            Ok(v) => {
                let res = match workspace {
                    Some(target) => spec_focus(ctx, v, target),
                    None => match monitor {
                        Some(i) => spec_focus_monitor(ctx, v, i),
                        None => Err(Unpredictable::NonWorkspaceFocus),
                    },
                };
                ((pf.0, res), None, false)
            },
        },
        RuleCommand::UpdateWorkspaceConfig { workspace, name, keep_alive } => {
            let (pf2, reason) = spec_config_step(pf, workspace, name, keep_alive);
            (pf2, reason, false)
        },
        RuleCommand::CycleFocus => ((pf.0, Err(Unpredictable::FocusCycle)), None, false),
        RuleCommand::ReloadConfig => (
            (Err(Unpredictable::ConfigReloadLocation), Err(Unpredictable::ConfigReloadState)),
            None,
            false,
        ),
        RuleCommand::Ignore => (pf, None, true),
        RuleCommand::Other => (pf, None, false),
    }
}

/// Running the preflight over `cmds`: the first reason to wait, if any.
pub open spec fn spec_run(ctx: &RuleContext, pf: PreflightView, cmds: Seq<RuleCommand>) -> Option<DeferReason>
    decreases cmds.len(),
{
    if cmds.len() == 0 {
        None
    } else {
        let (pf2, reason, stop) = spec_step(ctx, pf, cmds[0]);
        if reason is Some {
            reason
        } else if stop {
            None
        } else {
            spec_run(ctx, pf2, cmds.skip(1))
        }
    }
}

impl Unpredictable {
    /// A copy of the reason.
    pub fn copy(&self) -> (r: Unpredictable)
        ensures
            r == *self,
    {
        match self {
            Unpredictable::WindowLocationUnavailable => Unpredictable::WindowLocationUnavailable,
            Unpredictable::ActiveWorkspaceWithoutMonitor => Unpredictable::ActiveWorkspaceWithoutMonitor,
            Unpredictable::UpdatedNameExists => Unpredictable::UpdatedNameExists,
            Unpredictable::ActiveWorkspaceNotFound(n) => Unpredictable::ActiveWorkspaceNotFound(n.clone()),
            Unpredictable::NoDisplayedWorkspace(m) => Unpredictable::NoDisplayedWorkspace(*m),
            Unpredictable::ConfiguredWorkspaceNotFound(n) => Unpredictable::ConfiguredWorkspaceNotFound(n.clone()),
            Unpredictable::NotConfigured(n) => Unpredictable::NotConfigured(n.clone()),
            Unpredictable::ActivationMonitorUnknown(n) => Unpredictable::ActivationMonitorUnknown(n.clone()),
            Unpredictable::FocusAfterWindowMove => Unpredictable::FocusAfterWindowMove,
            Unpredictable::NoFocusedWorkspace => Unpredictable::NoFocusedWorkspace,
            Unpredictable::MonitorNotFound(i) => Unpredictable::MonitorNotFound(*i),
            Unpredictable::DirectionalMoveLocation => Unpredictable::DirectionalMoveLocation,
            Unpredictable::DirectionalMoveFocus => Unpredictable::DirectionalMoveFocus,
            Unpredictable::NonWorkspaceFocus => Unpredictable::NonWorkspaceFocus,
            Unpredictable::SideAreaWithoutMonitor => Unpredictable::SideAreaWithoutMonitor,
            Unpredictable::WorkspaceMoved => Unpredictable::WorkspaceMoved,
            Unpredictable::WorkspaceRenamed => Unpredictable::WorkspaceRenamed,
            Unpredictable::FocusCycle => Unpredictable::FocusCycle,
            Unpredictable::ConfigReloadLocation => Unpredictable::ConfigReloadLocation,
            Unpredictable::ConfigReloadState => Unpredictable::ConfigReloadState,
        }
    }
}

impl WorkspaceTarget {
    /// A copy of the target.
    pub fn copy(&self) -> (r: WorkspaceTarget)
        ensures
            r == *self,
    {
        match self {
            WorkspaceTarget::Name(n) => WorkspaceTarget::Name(n.clone()),
            WorkspaceTarget::Recent => WorkspaceTarget::Recent,
            WorkspaceTarget::NextActive => WorkspaceTarget::NextActive,
            WorkspaceTarget::PreviousActive => WorkspaceTarget::PreviousActive,
            WorkspaceTarget::NextActiveInMonitor => WorkspaceTarget::NextActiveInMonitor,
            WorkspaceTarget::PreviousActiveInMonitor => WorkspaceTarget::PreviousActiveInMonitor,
            WorkspaceTarget::Next => WorkspaceTarget::Next,
            WorkspaceTarget::Previous => WorkspaceTarget::Previous,
            WorkspaceTarget::Direction(d) => WorkspaceTarget::Direction(*d),
        }
    }
}

/// A copy of an optional name.
fn copy_name(n: &Option<String>) -> (r: Option<String>)
    ensures
        r == *n,
{
    match n {
        Some(x) => Some(x.clone()),
        None => None,
    }
}

impl PredictedWorkspaceState {
    /// Follows focus moving to the monitor at `index` (see
    /// `spec_focus_monitor`).
    pub fn focus_monitor(&mut self, ctx: &RuleContext, index: usize) -> (r: Result<(), Unpredictable>)
        requires
            ctx.tree.wf(),
        ensures
            match spec_focus_monitor(ctx, pview(old(self)), index) {
                Ok(v) => r is Ok && pview(final(self)) == v,
                Err(e) => r == Err::<(), Unpredictable>(e),
            },
    {
        if index >= ctx.monitors.len() {
            return Err(Unpredictable::MonitorNotFound(index));
        }
        let name = match self.displayed_workspace_name(ctx.monitors[index]) {
            Ok(n) => n,
            Err(e) => {
                return Err(e);
            },
        };
        self.follow_focus(ctx, WorkspaceTarget::Name(name))
    }
}

impl SideAreaRulePreflight {
    /// Takes the prediction of the workspaces out, leaving a placeholder.
    fn take_state(&mut self) -> (r: Result<PredictedWorkspaceState, Unpredictable>)
        ensures
            r == old(self).workspace_state,
            final(self).location == old(self).location,
    {
        let mut st: Result<PredictedWorkspaceState, Unpredictable> = Err(Unpredictable::FocusCycle);
        core::mem::swap(&mut st, &mut self.workspace_state);
        st
    }

    /// Takes the predicted location out, leaving a placeholder.
    fn take_location(&mut self) -> (r: Result<PredictedWindowLocation, Unpredictable>)
        ensures
            r == old(self).location,
            final(self).workspace_state == old(self).workspace_state,
    {
        let mut loc: Result<PredictedWindowLocation, Unpredictable> = Err(Unpredictable::FocusCycle);
        core::mem::swap(&mut loc, &mut self.location);
        loc
    }

    /// Follows the window into `side`'s area of its predicted monitor (see
    /// `spec_side_move`).
    fn move_window_to_side_area(&mut self, t: &ContainerTree, side: SideArea) -> (r: Option<DeferReason>)
        requires
            t.wf(),
        ensures
            ({
                let (pf2, reason) = spec_side_move(t, pfv(old(self)), side);
                &&& r == reason
                &&& reason is None ==> pfv(final(self)) == pf2
            }),
    {
        let m = match &self.location {
            Err(r) => {
                return Some(DeferReason::SideAreaMonitorUnknown(side, r.copy()));
            },
            Ok(loc) => loc.monitor,
        };
        if m >= t.nodes.len() {
            return Some(DeferReason::SideAreaUnavailable(side, m));
        }
        let a = match t.side_area(m, side) {
            None => {
                return Some(DeferReason::SideAreaUnavailable(side, m));
            },
            Some(a) => a,
        };
        self.location = match t.location_in(a) {
            Some(l) => Ok(l),
            None => Err(Unpredictable::SideAreaWithoutMonitor),
        };
        let st = self.take_state();
        self.workspace_state = match st {
            Ok(mut s) => {
                s.can_focus_workspace = false;
                Ok(s)
            },
            Err(r) => Err(r),
        };
        None
    }

    /// Follows one command (see `spec_step`): gives the reason the rule
    /// waits, where it does, and whether the commands after it do not run.
    pub fn step(&mut self, ctx: &RuleContext, cmd: &RuleCommand) -> (r: (Option<DeferReason>, bool))
        requires
            ctx.tree.wf(),
        ensures
            ({
                let (pf2, reason, stop) = spec_step(ctx, pfv(old(self)), *cmd);
                &&& r.0 == reason
                &&& r.1 == stop
                &&& reason is None ==> pfv(final(self)) == pf2
            }),
    {
        match cmd {
            RuleCommand::Move { direction, workspace, side_area } => {
                if direction.is_some() {
                    self.location = Err(Unpredictable::DirectionalMoveLocation);
                    self.workspace_state = Err(Unpredictable::DirectionalMoveFocus);
                    return (None, false);
                }
                match workspace {
                    Some(target) => {
                        let loc = self.take_location();
                        match loc {
                            Err(r) => {
                                self.location = Err(r);
                            },
                            Ok(cur) => {
                                let st = self.take_state();
                                match st {
                                    Err(r) => {
                                        self.location = Err(r.copy());
                                        self.workspace_state = Err(r);
                                    },
                                    Ok(mut s) => {
                                        let l2 = predict_workspace_move(ctx, cur, target.copy(), &mut s);
                                        self.location = l2;
                                        self.workspace_state = Ok(s);
                                    },
                                }
                            },
                        }
                        (None, false)
                    },
                    None => match side_area {
                        Some(side) => (self.move_window_to_side_area(ctx.tree, *side), false),
                        None => (None, false),
                    },
                }
            },
            RuleCommand::MoveWorkspace(d) => {
                let target = match &self.location {
                    Ok(cur) => if cur.workspace_name.is_some() && cur.monitor < ctx.tree.nodes.len() {
                        ctx.tree.monitor_in_direction(cur.monitor, *d)
                    } else {
                        None
                    },
                    Err(_) => None,
                };
                if let Some(m) = target {
                    let loc = self.take_location();
                    if let Ok(cur) = loc {
                        self.location = Ok(PredictedWindowLocation { monitor: m, ..cur });
                    }
                    self.workspace_state = Err(Unpredictable::WorkspaceMoved);
                }
                (None, false)
            },
            RuleCommand::Focus { workspace, monitor } => {
                let st = self.take_state();
                match st {
                    Err(r) => {
                        self.workspace_state = Err(r);
                    },
                    Ok(mut s) => {
                        let res = match workspace {
                            Some(target) => s.follow_focus(ctx, target.copy()),
                            None => match monitor {
                                Some(i) => s.focus_monitor(ctx, *i),
                                None => Err(Unpredictable::NonWorkspaceFocus),
                            },
                        };
                        self.workspace_state = match res {
                            Ok(()) => Ok(s),
                            Err(r) => Err(r),
                        };
                    },
                }
                (None, false)
            },
            RuleCommand::UpdateWorkspaceConfig { workspace, name, keep_alive } => {
                let target: String = match workspace {
                    Some(n) => n.clone(),
                    None => match &self.location {
                        Ok(l) => match &l.workspace_name {
                            Some(n) => n.clone(),
                            None => {
                                return (None, false);
                            },
                        },
                        Err(r) => {
                            return (Some(DeferReason::ConfigSubjectUnknown(r.copy())), false);
                        },
                    },
                };
                let st = self.take_state();
                match st {
                    Err(r) => {
                        return (Some(DeferReason::ConfigUpdateUnknown(r)), false);
                    },
                    Ok(mut s) => {
                        let new_name = copy_name(name);
                        match s.update_workspace_config(&target, &new_name, *keep_alive) {
                            Err(r) => {
                                return (Some(DeferReason::ConfigUpdateUnknown(r)), false);
                            },
                            Ok(renamed) => {
                                self.workspace_state = if renamed {
                                    Err(Unpredictable::WorkspaceRenamed)
                                } else {
                                    Ok(s)
                                };
                            },
                        }
                    },
                }
                (None, false)
            },
            RuleCommand::CycleFocus => {
                self.workspace_state = Err(Unpredictable::FocusCycle);
                (None, false)
            },
            RuleCommand::ReloadConfig => {
                self.location = Err(Unpredictable::ConfigReloadLocation);
                self.workspace_state = Err(Unpredictable::ConfigReloadState);
                (None, false)
            },
            RuleCommand::Ignore => (None, true),
            RuleCommand::Other => (None, false),
        }
    }
}

/// Whether a command of `cmds` moves the window into a side area.
pub open spec fn has_side_area_move(cmds: Seq<RuleCommand>) -> bool {
    exists|k: int| 0 <= k < cmds.len() && (#[trigger] cmds[k]) matches RuleCommand::Move { side_area: Some(_), .. }
}

/// Where the preflight starts: the location of window `w`, and the
/// prediction of `PredictedWorkspaceState::new`.
pub open spec fn initial_preflight(ctx: &RuleContext, w: int, focused: Option<usize>, recent: Option<String>) -> PreflightView {
    let t = ctx.tree;
    (
        match workspace_of(t, w, t.len()) {
            Some(x) => match location_of(t, x as int) {
                Some(l) => Ok(l),
                None => Err(Unpredictable::WindowLocationUnavailable),
            },
            None => Err(Unpredictable::WindowLocationUnavailable),
        },
        Ok((predicted_all(t, ctx.monitors@), shown_all(t, ctx.monitors@), focused_name(t, focused), recent, true)),
    )
}

/// Why a rule with commands `cmds` for window `w` waits, if it must (see
/// `side_area_rule_defer_reason`).
pub open spec fn rule_defer(
    ctx: &RuleContext,
    w: usize,
    focused: Option<usize>,
    recent: Option<String>,
    cmds: Seq<RuleCommand>,
) -> Option<DeferReason> {
    if has_side_area_move(cmds) {
        spec_run(ctx, initial_preflight(ctx, w as int, focused, recent), cmds)
    } else {
        None
    }
}

/// Why a rule with commands `cmds` for window `w` waits, if it must: a
/// rule that moves its window into a side area runs only where the
/// commands before each such move let its monitor be predicted, and
/// where config updates can be predicted (see `spec_run`). `focused` is
/// the focused container and `recent` the recent workspace.
pub fn side_area_rule_defer_reason(
    ctx: &RuleContext,
    w: usize,
    focused: Option<usize>,
    recent: Option<String>,
    cmds: &Vec<RuleCommand>,
) -> (r: Option<DeferReason>)
    requires
        ctx.tree.wf(),
        (w as int) < ctx.tree.len(),
        forall|k: int| 0 <= k < ctx.monitors@.len() ==> (#[trigger] ctx.monitors@[k] as int) < ctx.tree.len(),
    ensures
        r == rule_defer(ctx, w, focused, recent, cmds@),
{
    let mut k: usize = 0;
    let mut any = false;
    while k < cmds.len() && !any
        invariant
            k <= cmds@.len(),
            any ==> has_side_area_move(cmds@),
            !any ==> forall|j: int| 0 <= j < k ==> !((#[trigger] cmds@[j]) matches RuleCommand::Move { side_area: Some(_), .. }),
        decreases cmds@.len() - k,
    {
        if let RuleCommand::Move { side_area: Some(_), .. } = &cmds[k] {
            any = true;
        }
        k = k + 1;
    }
    if !any {
        return None;
    }
    let t = ctx.tree;
    let location = match t.workspace(w) {
        Some(x) => match t.location_in(x) {
            Some(l) => Ok(l),
            None => Err(Unpredictable::WindowLocationUnavailable),
        },
        None => Err(Unpredictable::WindowLocationUnavailable),
    };
    let state = PredictedWorkspaceState::new(t, ctx.monitors, focused, recent);
    let mut pf = SideAreaRulePreflight { location, workspace_state: Ok(state) };
    let ghost total = spec_run(ctx, initial_preflight(ctx, w as int, focused, recent), cmds@);
    proof {
        assert(cmds@.skip(0) =~= cmds@);
        assert(pfv(&pf) == initial_preflight(ctx, w as int, focused, recent));
    }
    let mut i: usize = 0;
    while i < cmds.len()
        invariant
            ctx.tree.wf(),
            i <= cmds@.len(),
            has_side_area_move(cmds@),
            total == spec_run(ctx, initial_preflight(ctx, w as int, focused, recent), cmds@),
            spec_run(ctx, pfv(&pf), cmds@.skip(i as int)) == total,
        decreases cmds@.len() - i,
    {
        let ghost before = pfv(&pf);
        let ghost rest = cmds@.skip(i as int);
        proof {
            assert(rest[0] == cmds@[i as int]);
            assert(rest.skip(1) =~= cmds@.skip(i + 1));
        }
        let (reason, stop) = pf.step(ctx, &cmds[i]);
        proof {
            let (pf2, rs, st) = spec_step(ctx, before, cmds@[i as int]);
            assert(spec_run(ctx, before, rest) == if rs is Some {
                rs
            } else if st {
                None
            } else {
                spec_run(ctx, pf2, rest.skip(1))
            });
        }
        if reason.is_some() {
            return reason;
        }
        if stop {
            return None;
        }
        i = i + 1;
    }
    None
}

} // verus!
