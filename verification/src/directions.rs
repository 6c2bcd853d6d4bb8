//! Tiling directions: toggling or setting the direction in which a
//! window's layout slot is split.
use vstd::prelude::*;

use crate::attach::TreeError;
use crate::splits::flatten_split_outcome;
use crate::tab_commands::tiling_of;
use crate::tabs::wrap_outcome;
use crate::tree::{ContainerKind, ContainerTree, TilingDirection};

verus! {

/// The nearest workspace or split among `c` and its ancestors, looking at
/// most `fuel` parents up.
pub open spec fn direction_container_of(t: &ContainerTree, c: int, fuel: nat) -> Option<usize>
    decreases fuel,
{
    if t.is_direction_container(c) {
        Some(c as usize)
    } else if fuel == 0 {
        None
    } else {
        match t.parent_of(c) {
            None => None,
            Some(p) => direction_container_of(t, p as int, (fuel - 1) as nat),
        }
    }
}

/// `new` is `old` with a detached, empty split container of direction
/// `dir` appended.
pub open spec fn split_appended(old: &ContainerTree, new: &ContainerTree, dir: TilingDirection) -> bool {
    &&& new.nodes@.drop_last() == old.nodes@
    &&& new.len() == old.len() + 1
    &&& new.is_split(old.len() as int)
    &&& new.direction(old.len() as int) == dir
    &&& new.parent_of(old.len() as int) is None
    &&& new.ch(old.len() as int).len() == 0
    &&& new.fo(old.len() as int).len() == 0
}

/// `new` is `old` after a new split container of direction `dir` was
/// appended and asked to wrap `w`, a child of `p`; `r` names the new split
/// or carries the refusal.
pub open spec fn wrapped_in_new_split(
    old: &ContainerTree,
    new: &ContainerTree,
    p: int,
    w: usize,
    dir: TilingDirection,
    r: Result<usize, TreeError>,
) -> bool {
    exists|added: ContainerTree, r0: Result<(), TreeError>| {
        &&& #[trigger] split_appended(old, &added, dir)
        &&& #[trigger] wrap_outcome(&added, new, old.len() as int, p, seq![w], r0)
        &&& r0 is Ok ==> r == Ok::<usize, TreeError>(old.len() as usize)
        &&& r0 matches Err(e) ==> r == Err::<usize, TreeError>(e)
    }
}

/// `new` is `old` with only the direction of `c` changed, to `dir`.
pub open spec fn direction_set(old: &ContainerTree, new: &ContainerTree, c: int, dir: TilingDirection) -> bool {
    &&& new.len() == old.len()
    &&& new.direction(c) == dir
    &&& forall|y: int|
        0 <= y < new.len() ==> {
            &&& (#[trigger] new.nodes@[y]).kind == old.nodes@[y].kind
            &&& new.nodes@[y].parent == old.nodes@[y].parent
            &&& new.nodes@[y].children@ == old.nodes@[y].children@
            &&& new.nodes@[y].focus_order@ == old.nodes@[y].focus_order@
            &&& new.nodes@[y].tiling_size == old.nodes@[y].tiling_size
            &&& y != c ==> new.nodes@[y].tiling_direction == old.nodes@[y].tiling_direction
        }
}

/// What `toggle_window_direction` does to tiling window `w`.
pub open spec fn window_direction_toggled(old: &ContainerTree, new: &ContainerTree, w: int, r: Result<usize, TreeError>) -> bool {
    match direction_container_of(old, w, old.len()) {
        None => r == Err::<usize, TreeError>(TreeError::NoDirectionContainer) && new.nodes@ == old.nodes@,
        Some(dc) => if old.parent_of(w) is Some && old.is_tabbed(old.parent_of(w).unwrap() as int) {
            wrapped_in_new_split(
                old,
                new,
                old.parent_of(w).unwrap() as int,
                w as usize,
                old.direction(dc as int).spec_inverse(),
                r,
            )
        } else {
            if tiling_of(old, old.ch(old.parent_of(w).unwrap() as int)).len() <= 1 {
                if old.is_workspace(dc as int) {
                    r == Ok::<usize, TreeError>(dc) && direction_set(old, new, dc as int, old.direction(dc as int).spec_inverse())
                } else {
                    exists|r0: Result<(), TreeError>| {
                        &&& #[trigger] flatten_split_outcome(old, new, dc as int, r0)
                        &&& r0 matches Err(e) ==> r == Err::<usize, TreeError>(e)
                        &&& r0 is Ok ==> r == match direction_container_of(new, w, new.len()) {
                            Some(d) => Ok::<usize, TreeError>(d),
                            None => Err::<usize, TreeError>(TreeError::NoDirectionContainer),
                        }
                    }
                }
            } else {
                wrapped_in_new_split(old, new, dc as int, w as usize, old.direction(dc as int).spec_inverse(), r)
            }
        },
    }
}

/// What `toggle_tiling_direction` does from container `c`.
pub open spec fn tiling_direction_toggled(old: &ContainerTree, new: &ContainerTree, c: int, r: Result<Option<usize>, TreeError>) -> bool {
    if old.is_tiling_window(c) {
        exists|r0: Result<usize, TreeError>| {
            &&& #[trigger] window_direction_toggled(old, new, c, r0)
            &&& r0 matches Ok(d) ==> r == Ok::<Option<usize>, TreeError>(Some(d))
            &&& r0 matches Err(e) ==> r == Err::<Option<usize>, TreeError>(e)
        }
    } else if old.is_workspace(c) {
        r == Ok::<Option<usize>, TreeError>(Some(c as usize)) && direction_set(old, new, c, old.direction(c).spec_inverse())
    } else {
        r == Ok::<Option<usize>, TreeError>(None) && new.nodes@ == old.nodes@
    }
}

impl ContainerTree {
    /// The nearest workspace or split among `c` and its ancestors.
    pub fn direction_container(&self, c: usize) -> (r: Option<usize>)
        requires
            self.wf(),
            (c as int) < self.len(),
        ensures
            r == direction_container_of(self, c as int, self.len()),
            r matches Some(x) ==> (x as int) < self.len() && self.is_direction_container(x as int),
    {
        let n = self.nodes.len();
        let mut cur = c;
        let mut fuel = n;
        while !(self.workspace_node(cur) || self.split(cur)) && fuel > 0
            invariant
                self.wf(),
                (cur as int) < self.len(),
                fuel <= n,
                n == self.len(),
                direction_container_of(self, cur as int, fuel as nat) == direction_container_of(self, c as int, n as nat),
            decreases fuel,
        {
            match self.nodes[cur].parent {
                None => {
                    return None;
                },
                Some(p) => {
                    proof {
                        assert(self.node_wf(cur as int));
                    }
                    cur = p;
                    fuel = fuel - 1;
                },
            }
        }
        if self.workspace_node(cur) || self.split(cur) {
            Some(cur)
        } else {
            None
        }
    }

    /// Appends a detached, empty split container of direction `dir` and
    /// wraps `w`, a child of `p`, in it.
    fn wrap_in_new_split(&mut self, p: usize, w: usize, dir: TilingDirection) -> (r: Result<usize, TreeError>)
        requires
            old(self).wf(),
            (p as int) < old(self).len(),
            (w as int) < old(self).len(),
        ensures
            final(self).wf(),
            wrapped_in_new_split(old(self), final(self), p as int, w, dir, r),
    {
        let ghost t0 = *old(self);
        let split = self.add_node(ContainerKind::Split, dir);
        let ghost added = *self;
        let mut targets: Vec<usize> = Vec::new();
        targets.push(w);
        proof {
            assert(added.nodes@.drop_last() =~= t0.nodes@);
            assert(targets@ =~= seq![w]);
        }
        let r0 = self.wrap_in_split_container(split, p, &targets);
        proof {
            assert(split_appended(&t0, &added, dir));
            assert(wrap_outcome(&added, self, t0.len() as int, p as int, seq![w], r0));
        }
        match r0 {
            Ok(()) => Ok(split),
            Err(e) => Err(e),
        }
    }
}

/// Wraps tiling window `w`, a tab, in a new split container of direction
/// `dir` that takes its place in the tabbed container. Refused with
/// `NoTabbedParent` where `w`'s parent is not a tabbed container.
pub fn wrap_tab_in_split(tree: &mut ContainerTree, w: usize, dir: TilingDirection) -> (r: Result<usize, TreeError>)
    requires
        old(tree).wf(),
        (w as int) < old(tree).len(),
    ensures
        final(tree).wf(),
        old(tree).parent_of(w as int) is Some && old(tree).is_tabbed(old(tree).parent_of(w as int).unwrap() as int)
            ==> wrapped_in_new_split(old(tree), final(tree), old(tree).parent_of(w as int).unwrap() as int, w, dir, r),
        !(old(tree).parent_of(w as int) is Some && old(tree).is_tabbed(old(tree).parent_of(w as int).unwrap() as int))
            ==> r == Err::<usize, TreeError>(TreeError::NoTabbedParent) && final(tree).nodes@ == old(tree).nodes@,
{
    let p = match tree.nodes[w].parent {
        None => {
            return Err(TreeError::NoTabbedParent);
        },
        Some(p) => p,
    };
    proof {
        assert(tree.node_wf(w as int));
    }
    if !tree.tabbed(p) {
        return Err(TreeError::NoTabbedParent);
    }
    tree.wrap_in_new_split(p, w, dir)
}

/// Toggles the direction around tiling window `w`. A tab is wrapped in a
/// new split of the inverse of its direction container's direction. A
/// window without tiling siblings inverts its workspace's direction, or
/// flattens its split parent. Any other window is wrapped in a new split
/// of the inverse direction. The direction container that changed is
/// returned.
pub fn toggle_window_direction(tree: &mut ContainerTree, w: usize) -> (r: Result<usize, TreeError>)
    requires
        old(tree).wf(),
        (w as int) < old(tree).len(),
        old(tree).is_tiling_window(w as int),
    ensures
        final(tree).wf(),
        window_direction_toggled(old(tree), final(tree), w as int, r),
{
    let ghost t0 = *old(tree);
    let dc = match tree.direction_container(w) {
        None => {
            return Err(TreeError::NoDirectionContainer);
        },
        Some(dc) => dc,
    };
    let dir = tree.nodes[dc].tiling_direction.inverse();
    let parent = tree.nodes[w].parent;
    match parent {
        Some(p) => {
            proof {
                assert(tree.node_wf(w as int));
            }
            if tree.tabbed(p) {
                return tree.wrap_in_new_split(p, w, dir);
            }
        },
        None => {},
    }
    proof {
        // A tiling window with no parent is its own direction container,
        // which it is not.
        if t0.parent_of(w as int) is None {
            assert(direction_container_of(&t0, w as int, t0.len()) is None);
        }
    }
    let p = parent.unwrap();
    let siblings = tree.tiling_children(p);
    if siblings.len() <= 1 {
        if tree.workspace_node(dc) {
            tree.set_tiling_direction_of(dc, dir);
            return Ok(dc);
        }
        let r0 = tree.flatten_split_container(dc);
        proof {
            assert(flatten_split_outcome(&t0, tree, dc as int, r0));
        }
        return match r0 {
            Err(e) => Err(e),
            Ok(()) => match tree.direction_container(w) {
                Some(d) => Ok(d),
                None => Err(TreeError::NoDirectionContainer),
            },
        };
    }
    tree.wrap_in_new_split(dc, w, dir)
}

/// Toggles the tiling direction from container `c`: from a tiling window
/// as `toggle_window_direction` does, and from a workspace by inverting
/// its direction. Other containers are left alone (`Ok(None)`). The
/// direction container that changed is returned.
pub fn toggle_tiling_direction(tree: &mut ContainerTree, c: usize) -> (r: Result<Option<usize>, TreeError>)
    requires
        old(tree).wf(),
        (c as int) < old(tree).len(),
    ensures
        final(tree).wf(),
        tiling_direction_toggled(old(tree), final(tree), c as int, r),
{
    let ghost t0 = *old(tree);
    if tree.tiling_window(c) {
        let r0 = toggle_window_direction(tree, c);
        proof {
            assert(window_direction_toggled(&t0, tree, c as int, r0));
        }
        return match r0 {
            Ok(d) => Ok(Some(d)),
            Err(e) => Err(e),
        };
    }
    if tree.workspace_node(c) {
        let d = tree.nodes[c].tiling_direction.inverse();
        tree.set_tiling_direction_of(c, d);
        return Ok(Some(c));
    }
    Ok(None)
}

/// Sets the tiling direction from container `c` to `dir`. A tab is
/// wrapped in a new split of direction `dir`; otherwise the direction is
/// toggled (`toggle_tiling_direction`) unless the nearest workspace or
/// split among `c` and its ancestors already has it. Refused with
/// `NoDirectionContainer` where there is none.
pub fn set_tiling_direction(tree: &mut ContainerTree, c: usize, dir: TilingDirection) -> (r: Result<Option<usize>, TreeError>)
    requires
        old(tree).wf(),
        (c as int) < old(tree).len(),
    ensures
        final(tree).wf(),
        (old(tree).is_tiling_window(c as int) && old(tree).parent_of(c as int) is Some && old(tree).is_tabbed(
            old(tree).parent_of(c as int).unwrap() as int,
        )) ==> exists|r0: Result<usize, TreeError>| {
            &&& #[trigger] wrapped_in_new_split(old(tree), final(tree), old(tree).parent_of(c as int).unwrap() as int, c, dir, r0)
            &&& r0 matches Ok(d) ==> r == Ok::<Option<usize>, TreeError>(Some(d))
            &&& r0 matches Err(e) ==> r == Err::<Option<usize>, TreeError>(e)
        },
        !(old(tree).is_tiling_window(c as int) && old(tree).parent_of(c as int) is Some && old(tree).is_tabbed(
            old(tree).parent_of(c as int).unwrap() as int,
        )) ==> match direction_container_of(old(tree), c as int, old(tree).len()) {
            None => r == Err::<Option<usize>, TreeError>(TreeError::NoDirectionContainer) && final(tree).nodes@ == old(tree).nodes@,
            Some(dc) => if old(tree).direction(dc as int) == dir {
                r == Ok::<Option<usize>, TreeError>(None) && final(tree).nodes@ == old(tree).nodes@
            } else {
                tiling_direction_toggled(old(tree), final(tree), c as int, r)
            },
        },
{
    let ghost t0 = *old(tree);
    if tree.tiling_window(c) {
        match tree.nodes[c].parent {
            Some(p) => {
                proof {
                    assert(tree.node_wf(c as int));
                }
                if tree.tabbed(p) {
                    let r0 = wrap_tab_in_split(tree, c, dir);
                    proof {
                        assert(wrapped_in_new_split(&t0, tree, p as int, c, dir, r0));
                    }
                    return match r0 {
                        Ok(d) => Ok(Some(d)),
                        Err(e) => Err(e),
                    };
                }
            },
            None => {},
        }
    }
    let dc = match tree.direction_container(c) {
        None => {
            return Err(TreeError::NoDirectionContainer);
        },
        Some(dc) => dc,
    };
    if tree.nodes[dc].tiling_direction == dir {
        return Ok(None);
    }
    toggle_tiling_direction(tree, c)
}

} // verus!
