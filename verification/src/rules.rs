//! Running the pending window rules of a window: which rules apply, when a
//! rule waits, the layout commands among a rule's commands (moves into a
//! side area), and handing the other commands to the caller.
use vstd::prelude::*;

use crate::attach::TreeError;
use crate::config::{SideArea, SideAreasConfig, WindowRuleConfig, WindowRuleEvent, WorkspaceConfig};
use crate::matching::{optional_matches, MatchType, WindowMatchConfig};
use crate::moves::{move_window_to_side_area, side_area_move_outcome};
use crate::preflight::{rule_defer, side_area_rule_defer_reason, DeferReason, RuleCommand, RuleContext};
use crate::sync::PendingSync;
use crate::tab_commands::sync_unchanged;
use crate::monitor_ops::windows_in;
use crate::side_areas::walk;
use crate::tree::{ContainerKind, ContainerTree};

verus! {

/// Where running the pending window rules of a window stands.
pub struct RuleRun {
    /// The window that the rules apply to now; a command may replace it.
    pub subject: usize,
    /// The run-once rules recorded as done, oldest first.
    pub done: Vec<usize>,
}

/// What comes of a pending rule before its commands.
#[derive(Clone, Copy, Debug, PartialEq, Eq, Structural)]
pub enum RuleStart {
    /// The rule waits for a later run; none of its commands runs.
    Deferred,
    /// The caller runs the rule's commands on the subject, one by one.
    RunCommands,
}

impl RuleRun {
    /// A run over the rules of `subject` that already has `done` recorded.
    pub fn new(subject: usize, done: Vec<usize>) -> (r: RuleRun)
        ensures
            r.subject == subject,
            r.done@ == done@,
    {
        RuleRun { subject, done }
    }

    /// A pending rule comes up, with `defer` what
    /// `side_area_rule_defer_reason` gave for it: a rule with a reason to
    /// wait is deferred before any of its commands runs; the others run.
    pub fn start_rule(&self, defer: &Option<DeferReason>) -> (r: RuleStart)
        ensures
            defer is Some ==> r == RuleStart::Deferred,
            defer is None ==> r == RuleStart::RunCommands,
    {
        match defer {
            Some(_) => RuleStart::Deferred,
            None => RuleStart::RunCommands,
        }
    }

    /// A command of the rule has run. Where it left the subject detached
    /// (its kind changed), the run goes on with `replacement`, the window
    /// that now stands for the same native window, and stops where there
    /// is none. Gives whether the run goes on.
    pub fn after_command(&mut self, detached: bool, replacement: Option<usize>) -> (r: bool)
        ensures
            final(self).done@ == old(self).done@,
            !detached ==> r && final(self).subject == old(self).subject,
            detached ==> r == (replacement is Some),
            detached ==> (replacement matches Some(x) ==> final(self).subject == x),
            detached && replacement is None ==> final(self).subject == old(self).subject,
    {
        if !detached {
            return true;
        }
        match replacement {
            Some(x) => {
                self.subject = x;
                true
            },
            None => false,
        }
    }

    /// All commands of `rule` have run: a run-once rule is recorded as
    /// done for the subject.
    pub fn finish_rule(&mut self, rule: usize, run_once: bool)
        ensures
            final(self).subject == old(self).subject,
            run_once ==> final(self).done@ == old(self).done@.push(rule),
            !run_once ==> final(self).done@ == old(self).done@,
    {
        if run_once {
            self.done.push(rule);
        }
    }
}


/// A result with its value dropped.
pub open spec fn unit_result<T>(r: Result<T, TreeError>) -> Result<(), TreeError> {
    match r {
        Ok(_) => Ok(()),
        Err(e) => Err(e),
    }
}

/// What running one command of a rule came to.
#[derive(Clone, Copy, Debug, PartialEq, Eq, Structural)]
pub enum CommandRun {
    /// The layout ran the command on the subject.
    Ran,
    /// The command is not a layout command: the caller runs it.
    HandedOver,
}

/// Runs command `cmd` of a rule on window `subject`. A move into a side
/// area (with no direction and no workspace given) moves the window there,
/// as `move_window_to_side_area` does; its error is the command's error.
/// Any other command is handed to the caller and changes nothing here.
pub fn run_rule_command(
    tree: &mut ContainerTree,
    subject: usize,
    cmd: &RuleCommand,
    config: &SideAreasConfig,
    sync: &mut PendingSync,
) -> (r: Result<CommandRun, TreeError>)
    requires
        old(tree).wf(),
        (subject as int) < old(tree).len(),
        old(tree).is_window(subject as int),
    ensures
        final(tree).wf(),
        final(tree).len() == old(tree).len(),
        r is Ok ==> final(tree).is_window(subject as int),
        match *cmd {
            RuleCommand::Move { direction: None, workspace: None, side_area: Some(side) } => {
                &&& side_area_move_outcome(
                    old(tree),
                    final(tree),
                    subject,
                    side,
                    *config,
                    *old(sync),
                    *final(sync),
                    unit_result(r),
                )
                &&& r is Ok ==> r == Ok::<CommandRun, TreeError>(CommandRun::Ran)
            },
            _ => r == Ok::<CommandRun, TreeError>(CommandRun::HandedOver) && final(tree).nodes@ == old(tree).nodes@
                && sync_unchanged(*old(sync), *final(sync)),
        },
{
    match cmd {
        RuleCommand::Move { direction: None, workspace: None, side_area: Some(side) } => {
            let r0 = move_window_to_side_area(tree, subject, *side, config, sync);
            match r0 {
                Ok(u) => {
                    assert(r0 == Ok::<(), TreeError>(u));
                    assert(unit_result(Ok::<CommandRun, TreeError>(CommandRun::Ran)) == r0);
                    Ok(CommandRun::Ran)
                },
                Err(e) => {
                    assert(unit_result(Err::<CommandRun, TreeError>(e)) == r0);
                    Err(e)
                },
            }
        },
        _ => Ok(CommandRun::HandedOver),
    }
}

/// The side area that command `c` moves its window into, where it is a
/// move into a side area with no direction and no workspace given.
pub open spec fn side_move_of(c: RuleCommand) -> Option<SideArea> {
    match c {
        RuleCommand::Move { direction: None, workspace: None, side_area: Some(side) } => Some(side),
        _ => None,
    }
}

/// Command `c` moved window `w` from `t0` to `t1` (and the pending sync
/// from `s0` to `s1`): it is a move into a side area, and the move went
/// through.
pub open spec fn command_step(
    t0: &ContainerTree,
    t1: &ContainerTree,
    s0: PendingSync,
    s1: PendingSync,
    w: usize,
    c: RuleCommand,
    config: SideAreasConfig,
) -> bool {
    &&& side_move_of(c) is Some
    &&& side_area_move_outcome(t0, t1, w, side_move_of(c).unwrap(), config, s0, s1, Ok(()))
}

/// `trees` and `syncs` are what the first `k` commands among `cmds` left,
/// each run on window `w` by the layout (`command_step`).
pub open spec fn commands_ran(
    trees: Seq<ContainerTree>,
    syncs: Seq<PendingSync>,
    w: usize,
    cmds: Seq<RuleCommand>,
    config: SideAreasConfig,
    k: int,
) -> bool {
    &&& 0 <= k <= cmds.len()
    &&& trees.len() == k + 1
    &&& syncs.len() == k + 1
    &&& forall|j: int| 0 <= j < k ==> #[trigger] command_step(&trees[j], &trees[j + 1], syncs[j], syncs[j + 1], w, cmds[j], config)
}

/// How running the commands of one rule ended.
#[derive(Clone, Copy, Debug, PartialEq, Eq, Structural)]
pub enum RuleEnd {
    /// The rule waits for a later run; none of its commands ran.
    Deferred,
    /// All its commands ran; a run-once rule is recorded as done.
    Finished,
    /// Command `k` of the rule is not a layout command: those before it
    /// ran, and the caller runs it and those after it.
    HandedOver(usize),
}

/// What running rule `rule` (its commands `cmds`, with `defer` what held
/// it back, if anything) on window `w` comes to (`RuleRun::run_rule`):
/// the tree `new` from `old`, the pending sync `s1` from `s0`, the done
/// rules `done1` from `done0`, and the result `r`.
pub open spec fn rule_ran(
    old: &ContainerTree,
    new: &ContainerTree,
    w: usize,
    done0: Seq<usize>,
    done1: Seq<usize>,
    rule: usize,
    run_once: bool,
    cmds: Seq<RuleCommand>,
    defer: Option<DeferReason>,
    config: SideAreasConfig,
    s0: PendingSync,
    s1: PendingSync,
    r: Result<RuleEnd, TreeError>,
) -> bool {
    &&& defer is Some ==> r == Ok::<RuleEnd, TreeError>(RuleEnd::Deferred) && new.nodes@ == old.nodes@
        && s1 == s0 && done1 == done0
    &&& defer is None ==> exists|trees: Seq<ContainerTree>, syncs: Seq<PendingSync>, k: int|
        {
            &&& #[trigger] commands_ran(trees, syncs, w, cmds, config, k)
            &&& trees[0] == *old
            &&& syncs[0] == s0
            &&& r != Ok::<RuleEnd, TreeError>(RuleEnd::Deferred)
            &&& r == Ok::<RuleEnd, TreeError>(RuleEnd::Finished) ==> {
                &&& k == cmds.len()
                &&& new.nodes@ == trees[k].nodes@
                &&& s1 == syncs[k]
                &&& run_once ==> done1 == done0.push(rule)
                &&& !run_once ==> done1 == done0
            }
            &&& r matches Ok(RuleEnd::HandedOver(h)) ==> {
                &&& h == k
                &&& k < cmds.len()
                &&& side_move_of(cmds[k]) is None
                &&& new.nodes@ == trees[k].nodes@
                &&& sync_unchanged(syncs[k], s1)
                &&& done1 == done0
            }
            &&& r matches Err(e) ==> {
                &&& k < cmds.len()
                &&& side_move_of(cmds[k]) matches Some(side)
                &&& side_area_move_outcome(&trees[k], new, w, side, config, syncs[k], s1, Err(e))
                &&& done1 == done0
            }
        }
}

impl RuleRun {
    /// Runs rule `rule`, with commands `cmds`, on the subject, where
    /// `defer` (what `side_area_rule_defer_reason` gave for it) lets it
    /// run: its layout commands run in order (`run_rule_command`) up to
    /// the first command that is not one, which is handed to the caller,
    /// or the first that fails, whose error is the result. Where all of
    /// them ran, a run-once rule is recorded as done (`finish_rule`).
    #[verifier::rlimit(60)]
    pub fn run_rule(
        &mut self,
        tree: &mut ContainerTree,
        rule: usize,
        run_once: bool,
        cmds: &Vec<RuleCommand>,
        defer: &Option<DeferReason>,
        config: &SideAreasConfig,
        sync: &mut PendingSync,
    ) -> (r: Result<RuleEnd, TreeError>)
        requires
            old(tree).wf(),
            (old(self).subject as int) < old(tree).len(),
            old(tree).is_window(old(self).subject as int),
        ensures
            final(tree).wf(),
            final(tree).len() == old(tree).len(),
            final(self).subject == old(self).subject,
            r is Ok ==> final(tree).is_window(old(self).subject as int),
            rule_ran(
                old(tree),
                final(tree),
                old(self).subject,
                old(self).done@,
                final(self).done@,
                rule,
                run_once,
                cmds@,
                *defer,
                *config,
                *old(sync),
                *final(sync),
                r,
            ),
    {
        if defer.is_some() {
            return Ok(RuleEnd::Deferred);
        }
        let ghost t0 = *tree;
        let ghost s0 = *sync;
        let ghost mut trees: Seq<ContainerTree> = seq![*tree];
        let ghost mut syncs: Seq<PendingSync> = seq![*sync];
        let mut k: usize = 0;
        while k < cmds.len()
            invariant
                defer is None,
                tree.len() == t0.len(),
                t0 == *old(tree),
                s0 == *old(sync),
                tree.wf(),
                (self.subject as int) < tree.len(),
                tree.is_window(self.subject as int),
                self.subject == old(self).subject,
                self.done@ == old(self).done@,
                k <= cmds@.len(),
                commands_ran(trees, syncs, self.subject, cmds@, *config, k as int),
                trees[0] == t0,
                syncs[0] == s0,
                trees.last() == *tree,
                syncs.last() == *sync,
            decreases cmds@.len() - k,
        {
            let ghost before = *tree;
            let ghost sbefore = *sync;
            let ran = run_rule_command(tree, self.subject, &cmds[k], config, sync);
            match ran {
                Ok(CommandRun::Ran) => {
                    proof {
                        assert(command_step(&before, tree, sbefore, *sync, self.subject, cmds@[k as int], *config));
                        let nt = trees.push(*tree);
                        let ns = syncs.push(*sync);
                        assert forall|j: int| 0 <= j < k + 1 implies #[trigger] command_step(&nt[j], &nt[j + 1], ns[j], ns[j + 1], self.subject, cmds@[j], *config) by {
                            if j < k {
                                assert(nt[j] == trees[j] && nt[j + 1] == trees[j + 1]);
                                assert(ns[j] == syncs[j] && ns[j + 1] == syncs[j + 1]);
                            }
                        }
                        trees = nt;
                        syncs = ns;
                    }
                },
                Ok(CommandRun::HandedOver) => {
                    proof {
                        assert(trees[k as int] == before);
                        assert(syncs[k as int] == sbefore);
                        assert(side_move_of(cmds@[k as int]) is None);
                        assert(commands_ran(trees, syncs, old(self).subject, cmds@, *config, k as int));
                        assert(trees[0] == *old(tree));
                        assert(syncs[0] == *old(sync));
                        assert(tree.nodes@ == trees[k as int].nodes@);
                        assert(sync_unchanged(syncs[k as int], *sync));
                        assert(self.done@ == old(self).done@);
                    }
                    return Ok(RuleEnd::HandedOver(k));
                },
                Err(e) => {
                    proof {
                        assert(trees[k as int] == before);
                        assert(syncs[k as int] == sbefore);
                        assert(side_move_of(cmds@[k as int]) is Some);
                        assert(side_area_move_outcome(&trees[k as int], tree, old(self).subject, side_move_of(cmds@[k as int]).unwrap(), *config, syncs[k as int], *sync, Err(e)));
                        assert(commands_ran(trees, syncs, old(self).subject, cmds@, *config, k as int));
                    }
                    return Err(e);
                },
            }
            k = k + 1;
        }
        self.finish_rule(rule, run_once);
        proof {
            assert(commands_ran(trees, syncs, old(self).subject, cmds@, *config, k as int));
        }
        Ok(RuleEnd::Finished)
    }
}

/// Why a rule with commands `cmds` for window `w` waits on layout `t`, if
/// it must (`rule_defer`), with no recent workspace known.
pub open spec fn rule_defer_on<'a>(
    t: &'a ContainerTree,
    workspaces: &'a Vec<WorkspaceConfig>,
    toggle_on_refocus: bool,
    monitors: &'a Vec<usize>,
    w: usize,
    focused: Option<usize>,
    cmds: Seq<RuleCommand>,
) -> Option<DeferReason> {
    rule_defer(&RuleContext { tree: t, workspaces, toggle_on_refocus, monitors }, w, focused, None, cmds)
}

/// Pending rule `rule` was deferred or ran to its end on window `w`
/// (`rule_ran`), its reason to wait taken on the layout `t0` it met.
pub open spec fn rule_step<'a>(
    t0: &'a ContainerTree,
    t1: &ContainerTree,
    s0: PendingSync,
    s1: PendingSync,
    done0: Seq<usize>,
    done1: Seq<usize>,
    w: usize,
    workspaces: &'a Vec<WorkspaceConfig>,
    toggle_on_refocus: bool,
    monitors: &'a Vec<usize>,
    focused: Option<usize>,
    rules: Seq<WindowRuleConfig>,
    commands: Seq<Vec<RuleCommand>>,
    rule: usize,
    config: SideAreasConfig,
) -> bool {
    let defer = rule_defer_on(t0, workspaces, toggle_on_refocus, monitors, w, focused, commands[rule as int]@);
    ||| rule_ran(t0, t1, w, done0, done1, rule, rules[rule as int].run_once, commands[rule as int]@, defer, config, s0, s1, Ok(RuleEnd::Finished))
    ||| rule_ran(t0, t1, w, done0, done1, rule, rules[rule as int].run_once, commands[rule as int]@, defer, config, s0, s1, Ok(RuleEnd::Deferred))
}

/// `trees`, `syncs` and `dones` are what the first `j` of the `pending`
/// rules left, one `rule_step` each.
pub open spec fn rules_ran<'a>(
    trees: Seq<ContainerTree>,
    syncs: Seq<PendingSync>,
    dones: Seq<Seq<usize>>,
    w: usize,
    workspaces: &'a Vec<WorkspaceConfig>,
    toggle_on_refocus: bool,
    monitors: &'a Vec<usize>,
    focused: Option<usize>,
    rules: Seq<WindowRuleConfig>,
    commands: Seq<Vec<RuleCommand>>,
    pending: Seq<usize>,
    config: SideAreasConfig,
    j: int,
) -> bool {
    &&& 0 <= j <= pending.len()
    &&& trees.len() == j + 1
    &&& syncs.len() == j + 1
    &&& dones.len() == j + 1
    &&& forall|i: int|
        0 <= i < j ==> #[trigger] rule_step(
            &trees[i],
            &trees[i + 1],
            syncs[i],
            syncs[i + 1],
            dones[i],
            dones[i + 1],
            w,
            workspaces,
            toggle_on_refocus,
            monitors,
            focused,
            rules,
            commands,
            pending[i],
            config,
        )
}

/// Where running the pending rules of a window stopped.
#[derive(Clone, Copy, Debug, PartialEq, Eq, Structural)]
pub enum RulesEnd {
    /// Each pending rule ran to its end or was deferred.
    Finished,
    /// Command `command` of the pending rule at `position` is not a layout
    /// command: the rules before it ran, and so did that rule's commands
    /// before it; the caller runs it and goes on from there.
    HandedOver { position: usize, command: usize },
}

/// Runs the `pending` rules (indices into `rules`, with `commands[k]` the
/// parsed commands of rule `k`) on the subject of `run`, in order: each
/// waits where `side_area_rule_defer_reason` gives a reason on the layout
/// as it stands then, or else runs (`RuleRun::run_rule`). Stops at the
/// first command that the layout does not run, handing it to the caller,
/// and at the first error.
pub fn run_window_rules(
    tree: &mut ContainerTree,
    run: &mut RuleRun,
    workspaces: &Vec<WorkspaceConfig>,
    toggle_on_refocus: bool,
    monitors: &Vec<usize>,
    focused: Option<usize>,
    rules: &Vec<WindowRuleConfig>,
    commands: &Vec<Vec<RuleCommand>>,
    pending: &Vec<usize>,
    config: &SideAreasConfig,
    sync: &mut PendingSync,
) -> (r: Result<RulesEnd, TreeError>)
    requires
        old(tree).wf(),
        (old(run).subject as int) < old(tree).len(),
        old(tree).is_window(old(run).subject as int),
        forall|k: int| 0 <= k < monitors@.len() ==> (#[trigger] monitors@[k] as int) < old(tree).len(),
        forall|k: int| 0 <= k < pending@.len() ==> (#[trigger] pending@[k] as int) < rules@.len() && (pending@[k] as int) < commands@.len(),
    ensures
        final(tree).wf(),
        final(run).subject == old(run).subject,
        exists|trees: Seq<ContainerTree>, syncs: Seq<PendingSync>, dones: Seq<Seq<usize>>, j: int|
            {
                &&& #[trigger] rules_ran(
                    trees,
                    syncs,
                    dones,
                    old(run).subject,
                    workspaces,
                    toggle_on_refocus,
                    monitors,
                    focused,
                    rules@,
                    commands@,
                    pending@,
                    *config,
                    j,
                )
                &&& trees[0] == *old(tree)
                &&& syncs[0] == *old(sync)
                &&& dones[0] == old(run).done@
                &&& r == Ok::<RulesEnd, TreeError>(RulesEnd::Finished) ==> {
                    &&& j == pending@.len()
                    &&& final(tree).nodes@ == trees[j].nodes@
                    &&& *final(sync) == syncs[j]
                    &&& final(run).done@ == dones[j]
                }
                &&& r matches Ok(RulesEnd::HandedOver { position, command }) ==> {
                    &&& position == j
                    &&& j < pending@.len()
                    &&& rule_ran(
                        &trees[j],
                        final(tree),
                        old(run).subject,
                        dones[j],
                        final(run).done@,
                        pending@[j],
                        rules@[pending@[j] as int].run_once,
                        commands@[pending@[j] as int]@,
                        rule_defer_on(&trees[j], workspaces, toggle_on_refocus, monitors, old(run).subject, focused, commands@[pending@[j] as int]@),
                        *config,
                        syncs[j],
                        *final(sync),
                        Ok(RuleEnd::HandedOver(command)),
                    )
                }
                &&& r matches Err(e) ==> {
                    &&& j < pending@.len()
                    &&& rule_ran(
                        &trees[j],
                        final(tree),
                        old(run).subject,
                        dones[j],
                        final(run).done@,
                        pending@[j],
                        rules@[pending@[j] as int].run_once,
                        commands@[pending@[j] as int]@,
                        rule_defer_on(&trees[j], workspaces, toggle_on_refocus, monitors, old(run).subject, focused, commands@[pending@[j] as int]@),
                        *config,
                        syncs[j],
                        *final(sync),
                        Err(e),
                    )
                }
            },
{
    let ghost t0 = *tree;
    let ghost s0 = *sync;
    let ghost mut trees: Seq<ContainerTree> = seq![*tree];
    let ghost mut syncs: Seq<PendingSync> = seq![*sync];
    let ghost mut dones: Seq<Seq<usize>> = seq![run.done@];
    let mut i: usize = 0;
    while i < pending.len()
        invariant
            tree.wf(),
            tree.len() == t0.len(),
            t0 == *old(tree),
            s0 == *old(sync),
            (run.subject as int) < tree.len(),
            tree.is_window(run.subject as int),
            run.subject == old(run).subject,
            forall|k: int| 0 <= k < monitors@.len() ==> (#[trigger] monitors@[k] as int) < old(tree).len(),
            forall|k: int| 0 <= k < pending@.len() ==> (#[trigger] pending@[k] as int) < rules@.len() && (pending@[k] as int) < commands@.len(),
            i <= pending@.len(),
            rules_ran(trees, syncs, dones, old(run).subject, workspaces, toggle_on_refocus, monitors, focused, rules@, commands@, pending@, *config, i as int),
            trees[0] == t0,
            syncs[0] == s0,
            dones[0] == old(run).done@,
            trees.last() == *tree,
            syncs.last() == *sync,
            dones.last() == run.done@,
        decreases pending@.len() - i,
    {
        let rule = pending[i];
        let defer = {
            let ctx = RuleContext { tree: &*tree, workspaces, toggle_on_refocus, monitors };
            side_area_rule_defer_reason(&ctx, run.subject, focused, None, &commands[rule])
        };
        let ghost before = *tree;
        let ghost sbefore = *sync;
        let ghost dbefore = run.done@;
        proof {
            assert(defer == rule_defer_on(&before, workspaces, toggle_on_refocus, monitors, run.subject, focused, commands@[rule as int]@));
        }
        let end = run.run_rule(tree, rule, rules[rule].run_once, &commands[rule], &defer, config, sync);
        match end {
            Ok(RuleEnd::HandedOver(k)) => {
                proof {
                    assert(trees[i as int] == before);
                    assert(syncs[i as int] == sbefore);
                    assert(dones[i as int] == dbefore);
                }
                return Ok(RulesEnd::HandedOver { position: i, command: k });
            },
            Err(e) => {
                proof {
                    assert(trees[i as int] == before);
                    assert(syncs[i as int] == sbefore);
                    assert(dones[i as int] == dbefore);
                }
                return Err(e);
            },
            Ok(_) => {
                proof {
                    assert(rule_step(&before, tree, sbefore, *sync, dbefore, run.done@, run.subject, workspaces, toggle_on_refocus, monitors, focused, rules@, commands@, rule, *config));
                    let nt = trees.push(*tree);
                    let ns = syncs.push(*sync);
                    let nd = dones.push(run.done@);
                    assert forall|q: int| 0 <= q < i + 1 implies #[trigger] rule_step(
                        &nt[q],
                        &nt[q + 1],
                        ns[q],
                        ns[q + 1],
                        nd[q],
                        nd[q + 1],
                        old(run).subject,
                        workspaces,
                        toggle_on_refocus,
                        monitors,
                        focused,
                        rules@,
                        commands@,
                        pending@[q],
                        *config,
                    ) by {
                        if q < i {
                            assert(nt[q] == trees[q] && nt[q + 1] == trees[q + 1]);
                            assert(ns[q] == syncs[q] && ns[q + 1] == syncs[q + 1]);
                            assert(nd[q] == dones[q] && nd[q + 1] == dones[q + 1]);
                        }
                    }
                    trees = nt;
                    syncs = ns;
                    dones = nd;
                }
            },
        }
        i = i + 1;
    }
    Ok(RulesEnd::Finished)
}

/// Whether a window with process `process`, class `class` and title
/// `title` meets condition `c`: each part given holds.
pub open spec fn window_meets(c: WindowMatchConfig, process: Seq<char>, class: Seq<char>, title: Seq<char>) -> bool {
    &&& optional_matches(c.window_process, process)
    &&& optional_matches(c.window_class, class)
    &&& optional_matches(c.window_title, title)
}

/// Whether rule `rule` applies on `event` to such a window: it runs on
/// that event and one of its conditions holds.
pub open spec fn rule_applies(rule: WindowRuleConfig, event: WindowRuleEvent, process: Seq<char>, class: Seq<char>, title: Seq<char>) -> bool {
    &&& rule.on@.contains(event)
    &&& exists|k: int| 0 <= k < rule.match_window@.len() && #[trigger] window_meets(rule.match_window@[k], process, class, title)
}

/// The pending rules among the first `n` of `rules`, by index, in order:
/// those that apply and are not among `done`.
pub open spec fn pending_prefix(
    rules: Seq<WindowRuleConfig>,
    n: int,
    event: WindowRuleEvent,
    process: Seq<char>,
    class: Seq<char>,
    title: Seq<char>,
    done: Seq<usize>,
) -> Seq<usize>
    decreases n,
{
    if n <= 0 {
        Seq::empty()
    } else {
        let before = pending_prefix(rules, n - 1, event, process, class, title, done);
        if rule_applies(rules[n - 1], event, process, class, title) && !done.contains((n - 1) as usize) {
            before.push((n - 1) as usize)
        } else {
            before
        }
    }
}

/// Whether condition part `m` holds of `value`, no part always holding.
fn optional_is_match(m: &Option<MatchType>, value: &str) -> (r: bool)
    ensures
        r == optional_matches(*m, value@),
{
    match m {
        None => true,
        Some(t) => t.is_match(value),
    }
}

/// Whether a window meets condition `c` (see `window_meets`).
pub fn window_meets_condition(c: &WindowMatchConfig, process: &str, class: &str, title: &str) -> (r: bool)
    ensures
        r == window_meets(*c, process@, class@, title@),
{
    optional_is_match(&c.window_process, process) && optional_is_match(&c.window_class, class) && optional_is_match(
        &c.window_title,
        title,
    )
}

/// Whether rule `rule` applies on `event` to a window (see `rule_applies`).
pub fn rule_applies_to(rule: &WindowRuleConfig, event: WindowRuleEvent, process: &str, class: &str, title: &str) -> (r: bool)
    ensures
        r == rule_applies(*rule, event, process@, class@, title@),
{
    let mut on = false;
    let mut i: usize = 0;
    while i < rule.on.len()
        invariant
            i <= rule.on@.len(),
            on == exists|j: int| 0 <= j < i && rule.on@[j] == event,
        decreases rule.on@.len() - i,
    {
        if rule.on[i] == event {
            on = true;
        }
        i = i + 1;
    }
    proof {
        if on {
            let j = choose|j: int| 0 <= j < i && rule.on@[j] == event;
            assert(rule.on@.contains(event));
        }
    }
    if !on {
        return false;
    }
    let mut k: usize = 0;
    while k < rule.match_window.len()
        invariant
            k <= rule.match_window@.len(),
            rule.on@.contains(event),
            forall|j: int| 0 <= j < k ==> !#[trigger] window_meets(rule.match_window@[j], process@, class@, title@),
        decreases rule.match_window@.len() - k,
    {
        if window_meets_condition(&rule.match_window[k], process, class, title) {
            proof {
                assert(window_meets(rule.match_window@[k as int], process@, class@, title@));
                assert(rule.on@.contains(event));
            }
            return true;
        }
        k = k + 1;
    }
    false
}

/// The rules among `rules` that are pending for a window on `event`, by
/// index, in order: those that apply to it and have not run on it yet
/// (`done` holds the run-once rules that already ran).
pub fn pending_window_rules(
    rules: &Vec<WindowRuleConfig>,
    event: WindowRuleEvent,
    process: &str,
    class: &str,
    title: &str,
    done: &Vec<usize>,
) -> (r: Vec<usize>)
    ensures
        r@ == pending_prefix(rules@, rules@.len() as int, event, process@, class@, title@, done@),
{
    let mut r: Vec<usize> = Vec::new();
    let mut i: usize = 0;
    while i < rules.len()
        invariant
            i <= rules@.len(),
            r@ == pending_prefix(rules@, i as int, event, process@, class@, title@, done@),
        decreases rules@.len() - i,
    {
        let applies = rule_applies_to(&rules[i], event, process, class, title);
        if applies && !crate::tabs::vec_contains(done, i) {
            r.push(i);
        }
        i = i + 1;
    }
    r
}


/// The rules to run again on window `w` of `t` after a reload: its
/// pending rules on `Manage`, with none recorded as done.
pub open spec fn rerun_rules_of(t: &ContainerTree, rules: Seq<WindowRuleConfig>, w: usize) -> Seq<usize> {
    let info = t.window_info(w as int);
    pending_prefix(
        rules,
        rules.len() as int,
        WindowRuleEvent::Manage,
        info.process_name@,
        info.class_name@,
        info.title@,
        Seq::empty(),
    )
}

/// The rules that a reload runs again, window by window: each window
/// below `root`, depth first, with its done rules cleared and its pending
/// rules on `Manage` (`rerun_rules_of`).
pub fn rules_to_rerun(t: &ContainerTree, root: usize, rules: &Vec<WindowRuleConfig>) -> (r: Vec<(usize, Vec<usize>)>)
    requires
        t.wf(),
        (root as int) < t.len(),
    ensures
        r@.len() == windows_in(t, walk(t, seq![root], t.len())).len(),
        forall|k: int|
            0 <= k < r@.len() ==> (#[trigger] r@[k]).0 == windows_in(t, walk(t, seq![root], t.len()))[k] && r@[k].1@
                == rerun_rules_of(t, rules@, r@[k].0),
{
    let ws = t.windows_within(root);
    let none: Vec<usize> = Vec::new();
    let mut r: Vec<(usize, Vec<usize>)> = Vec::new();
    let mut k: usize = 0;
    while k < ws.len()
        invariant
            ws@ == windows_in(t, walk(t, seq![root], t.len())),
            forall|q: int| 0 <= q < ws@.len() ==> (#[trigger] ws@[q] as int) < t.len() && t.is_window(ws@[q] as int),
            none@ == Seq::<usize>::empty(),
            k <= ws@.len(),
            r@.len() == k,
            forall|j: int| 0 <= j < k ==> (#[trigger] r@[j]).0 == ws@[j] && r@[j].1@ == rerun_rules_of(t, rules@, r@[j].0),
        decreases ws@.len() - k,
    {
        let w = ws[k];
        let pending = match &t.nodes[w].kind {
            ContainerKind::TilingWindow(info) => pending_window_rules(
                rules,
                WindowRuleEvent::Manage,
                info.process_name.as_str(),
                info.class_name.as_str(),
                info.title.as_str(),
                &none,
            ),
            ContainerKind::NonTilingWindow(info) => pending_window_rules(
                rules,
                WindowRuleEvent::Manage,
                info.process_name.as_str(),
                info.class_name.as_str(),
                info.title.as_str(),
                &none,
            ),
            _ => Vec::new(),
        };
        r.push((w, pending));
        k = k + 1;
    }
    r
}

} // verus!
