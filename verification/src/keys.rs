//! The session's reactions to user input: cursor movement, focus cycling,
//! and the toggles over categories, subsystems, the exclude list and the
//! tree. The terminal front end translates raw events into these calls.
use crate::scanner::{flatten_visible, spec_flatten, spec_set_expanded, spec_toggle,
    toggle_node_expanded, collapse_all, expand_all};
use crate::strutil::views;
use crate::types::{
    node_view, remove_first, spec_cat_list_len, AppState, Category, Focus, Subsystem,
};
use vstd::prelude::*;

verus! {

/// One cursor step within a list of `len` rows: down saturates at the last
/// row, up at the first; an empty list pins the cursor to 0.
pub open spec fn spec_step(cursor: int, down: bool, len: int) -> int {
    if len <= 0 {
        0
    } else {
        if down {
            let up = if cursor + 1 > usize::MAX as int {
                usize::MAX as int
            } else {
                cursor + 1
            };
            if up > len - 1 {
                len - 1
            } else {
                up
            }
        } else {
            if cursor >= 1 {
                cursor - 1
            } else {
                0
            }
        }
    }
}

/// Moves a cursor one step within a list of `len` rows.
pub fn step(cursor: usize, down: bool, len: usize) -> (r: usize)
    ensures
        r as int == spec_step(cursor as int, down, len as int),
{
    if len == 0 {
        return 0;
    }
    let max = len - 1;
    if down {
        let up = cursor.saturating_add(1);
        if up > max {
            max
        } else {
            up
        }
    } else {
        cursor.saturating_sub(1)
    }
}

/// Where the focus moves next: categories to subsystems when any exist,
/// else to the tree; subsystems to the tree; the tree and the exclude
/// list back to categories.
pub open spec fn spec_cycle_focus(s: AppState) -> Focus {
    match s.focus {
        Focus::Categories => {
            if s.subsystems@.len() == 0 {
                Focus::Tree
            } else {
                Focus::Subsystems
            }
        },
        Focus::Subsystems => Focus::Tree,
        Focus::Tree => Focus::Categories,
        Focus::Exclude => Focus::Categories,
    }
}

/// Moves the focus to the next panel.
pub fn cycle_focus(state: &mut AppState)
    ensures
        *final(state) == (AppState { focus: spec_cycle_focus(*old(state)), ..*old(state) }),
{
    state.focus = match state.focus {
        Focus::Categories => {
            if state.subsystems.is_empty() {
                Focus::Tree
            } else {
                Focus::Subsystems
            }
        },
        Focus::Subsystems => Focus::Tree,
        Focus::Tree => Focus::Categories,
        Focus::Exclude => Focus::Categories,
    };
}

/// Leaves the exclude list for the categories; anywhere else stays.
pub fn escape_focus(state: &mut AppState)
    ensures
        *final(state) == (AppState {
            focus: if old(state).focus is Exclude {
                Focus::Categories
            } else {
                old(state).focus
            },
            ..*old(state)
        }),
{
    if state.focus == Focus::Exclude {
        state.focus = Focus::Categories;
    }
}

/// Moves the focused panel's cursor one step.
pub fn move_cursor(state: &mut AppState, down: bool)
    ensures
        old(state).focus is Categories ==> *final(state) == (AppState {
            cat_cursor: spec_step(
                old(state).cat_cursor as int,
                down,
                spec_cat_list_len(*old(state)),
            ) as usize,
            ..*old(state)
        }),
        old(state).focus is Subsystems ==> *final(state) == (AppState {
            sub_cursor: spec_step(
                old(state).sub_cursor as int,
                down,
                old(state).subsystems@.len() as int,
            ) as usize,
            ..*old(state)
        }),
        old(state).focus is Exclude ==> *final(state) == (AppState {
            exclude_cursor: spec_step(
                old(state).exclude_cursor as int,
                down,
                old(state).exclude@.len() as int,
            ) as usize,
            ..*old(state)
        }),
        old(state).focus is Tree ==> *final(state) == (AppState {
            tree_cursor: spec_step(
                old(state).tree_cursor as int,
                down,
                spec_flatten(node_view(old(state).tree), 0).len() as int,
            ) as usize,
            ..*old(state)
        }),
{
    match state.focus {
        Focus::Categories => {
            let len = state.cat_list_len();
            state.cat_cursor = step(state.cat_cursor, down, len);
        },
        Focus::Subsystems => {
            let len = state.subsystems.len();
            state.sub_cursor = step(state.sub_cursor, down, len);
        },
        Focus::Exclude => {
            let len = state.exclude.len();
            state.exclude_cursor = step(state.exclude_cursor, down, len);
        },
        Focus::Tree => {
            let flat = flatten_visible(&state.tree);
            proof {
                assert(crate::scanner::flats_view(flat@).len() == flat@.len());
            }
            let len = flat.len();
            let next = step(state.tree_cursor(), down, len);
            state.set_tree_cursor(next);
        },
    }
}

/// Flips the ignore-file toggle, where an ignore file exists.
pub fn toggle_gitignore(state: &mut AppState)
    ensures
        *final(state) == (AppState {
            respect_gitignore: if old(state).has_gitignore {
                !old(state).respect_gitignore
            } else {
                old(state).respect_gitignore
            },
            ..*old(state)
        }),
{
    if state.has_gitignore {
        state.respect_gitignore = !state.respect_gitignore;
    }
}

/// How the category panel's current row acts on the state: row 0
/// collapses or expands the whole tree, row 1 selects or deselects every
/// category, the optional ignore row flips the ignore toggle, and a
/// category row flips that category.
pub open spec fn toggle_cat_post(pre: AppState, post: AppState) -> bool {
    &&& pre.cat_cursor == 0 ==> {
        &&& post == (AppState { all_collapsed: !pre.all_collapsed, tree: post.tree, ..pre })
        &&& node_view(post.tree) == spec_set_expanded(node_view(pre.tree), pre.all_collapsed)
    }
    &&& pre.cat_cursor == 1 ==> {
        &&& post == (AppState { categories: post.categories, ..pre })
        &&& post.categories@.len() == pre.categories@.len()
        &&& forall|i: int|
            0 <= i < pre.categories@.len() ==> post.categories@[i] == (Category {
                enabled: !(forall|j: int|
                    0 <= j < pre.categories@.len() ==> (#[trigger] pre.categories@[j]).enabled),
                ..pre.categories@[i]
            })
    }
    &&& pre.cat_cursor == 2 && pre.has_gitignore ==> post == (AppState {
        respect_gitignore: !pre.respect_gitignore,
        ..pre
    })
    &&& pre.cat_cursor > 2 && pre.has_gitignore ==> {
        let idx = pre.cat_cursor - 3;
        &&& post == (AppState { categories: post.categories, ..pre })
        &&& if idx < pre.categories@.len() {
            post.categories@ == pre.categories@.update(
                idx as int,
                Category {
                    enabled: !pre.categories@[idx as int].enabled,
                    ..pre.categories@[idx as int]
                },
            )
        } else {
            post.categories@ == pre.categories@
        }
    }
    &&& pre.cat_cursor >= 2 && !pre.has_gitignore ==> {
        let idx = pre.cat_cursor - 2;
        &&& post == (AppState { categories: post.categories, ..pre })
        &&& if idx < pre.categories@.len() {
            post.categories@ == pre.categories@.update(
                idx as int,
                Category {
                    enabled: !pre.categories@[idx as int].enabled,
                    ..pre.categories@[idx as int]
                },
            )
        } else {
            post.categories@ == pre.categories@
        }
    }
}

/// Acts on the category panel's current row.
pub fn toggle_cat(state: &mut AppState)
    ensures
        toggle_cat_post(*old(state), *final(state)),
{
    let cursor = state.cat_cursor;
    if cursor == 0 {
        state.all_collapsed = !state.all_collapsed;
        if state.all_collapsed {
            collapse_all(&mut state.tree);
        } else {
            expand_all(&mut state.tree);
        }
        return ;
    }
    if cursor == 1 {
        let target = !state.are_all_selected();
        let n = state.categories.len();
        let mut i: usize = 0;
        while i < n
            invariant
                i <= n,
                n == state.categories@.len() == old(state).categories@.len(),
                *state == (AppState { categories: state.categories, ..*old(state) }),
                forall|k: int|
                    i <= k < n ==> state.categories@[k] == old(state).categories@[k],
                forall|k: int|
                    0 <= k < i ==> state.categories@[k] == (Category {
                        enabled: target,
                        ..old(state).categories@[k]
                    }),
            decreases n - i,
        {
            state.categories[i].enabled = target;
            i = i + 1;
        }
        return ;
    }
    let base = cursor - 2;
    if state.has_gitignore {
        if base == 0 {
            state.respect_gitignore = !state.respect_gitignore;
        } else {
            let idx = base - 1;
            if idx < state.categories.len() {
                let cur = state.categories[idx].enabled;
                state.categories[idx].enabled = !cur;
                proof {
                    assert(state.categories@ =~= old(state).categories@.update(
                        idx as int,
                        Category {
                            enabled: !old(state).categories@[idx as int].enabled,
                            ..old(state).categories@[idx as int]
                        },
                    ));
                }
            }
        }
    } else {
        if base < state.categories.len() {
            let cur = state.categories[base].enabled;
            state.categories[base].enabled = !cur;
            proof {
                assert(state.categories@ =~= old(state).categories@.update(
                    base as int,
                    Category {
                        enabled: !old(state).categories@[base as int].enabled,
                        ..old(state).categories@[base as int]
                    },
                ));
            }
        }
    }
}

/// Acts on the focused panel's current row: the category panel via
/// `toggle_cat`, the subsystem panel by flipping the current subsystem.
pub fn toggle_current(state: &mut AppState)
    ensures
        old(state).focus is Categories ==> toggle_cat_post(*old(state), *final(state)),
        old(state).focus is Subsystems ==> {
            &&& *final(state) == (AppState { subsystems: final(state).subsystems, ..*old(state) })
            &&& if old(state).sub_cursor < old(state).subsystems@.len() {
                final(state).subsystems@ == old(state).subsystems@.update(
                    old(state).sub_cursor as int,
                    Subsystem {
                        enabled: !old(state).subsystems@[old(state).sub_cursor as int].enabled,
                        ..old(state).subsystems@[old(state).sub_cursor as int]
                    },
                )
            } else {
                final(state).subsystems@ == old(state).subsystems@
            }
        },
        old(state).focus is Exclude || old(state).focus is Tree ==> *final(state) == *old(state),
{
    match state.focus {
        Focus::Categories => {
            toggle_cat(state);
        },
        Focus::Subsystems => {
            let idx = state.sub_cursor;
            if idx < state.subsystems.len() {
                let cur = state.subsystems[idx].enabled;
                state.subsystems[idx].enabled = !cur;
                proof {
                    assert(state.subsystems@ =~= old(state).subsystems@.update(
                        idx as int,
                        Subsystem {
                            enabled: !old(state).subsystems@[idx as int].enabled,
                            ..old(state).subsystems@[idx as int]
                        },
                    ));
                }
            }
        },
        Focus::Exclude => {},
        Focus::Tree => {},
    }
}

/// Toggles the exclude mark of the tree row under the cursor.
pub fn exclude_at_cursor(state: &mut AppState)
    ensures
        *final(state) == (AppState { exclude: final(state).exclude, ..*old(state) }),
        ({
            let fl = spec_flatten(node_view(old(state).tree), 0);
            if old(state).tree_cursor < fl.len() {
                let path = fl[old(state).tree_cursor as int].path;
                if views(old(state).exclude@).contains(path) {
                    views(final(state).exclude@) == remove_first(
                        views(old(state).exclude@),
                        path,
                    )
                } else {
                    views(final(state).exclude@) == views(old(state).exclude@).push(path)
                }
            } else {
                views(final(state).exclude@) == views(old(state).exclude@)
            }
        }),
{
    let flat = flatten_visible(&state.tree);
    proof {
        assert(crate::scanner::flats_view(flat@).len() == flat@.len());
    }
    let tc = state.tree_cursor();
    if tc < flat.len() {
        proof {
            assert(crate::scanner::flats_view(flat@)[tc as int] == crate::scanner::flat_view(
                flat@[tc as int],
            ));
        }
        let path = flat[tc].path.clone();
        state.exclude.toggle(path);
    }
}

/// Removes the exclude entry under the cursor, while the exclude list has
/// the focus.
pub fn unexclude_current(state: &mut AppState)
    ensures
        *final(state) == (AppState { exclude: final(state).exclude, ..*old(state) }),
        ({
            if old(state).focus is Exclude && old(state).exclude_cursor < old(
                state,
            ).exclude@.len() {
                let path = views(old(state).exclude@)[old(state).exclude_cursor as int];
                if views(old(state).exclude@).contains(path) {
                    views(final(state).exclude@) == remove_first(
                        views(old(state).exclude@),
                        path,
                    )
                } else {
                    views(final(state).exclude@) == views(old(state).exclude@).push(path)
                }
            } else {
                views(final(state).exclude@) == views(old(state).exclude@)
            }
        }),
{
    if state.focus != Focus::Exclude {
        return ;
    }
    let ec = state.exclude_cursor;
    if ec < state.exclude.len() {
        let path = state.exclude.item_at(ec).clone();
        state.exclude.toggle(path);
    }
}

/// Expands or collapses the directory row under the tree cursor.
pub fn toggle_expand(state: &mut AppState)
    ensures
        *final(state) == (AppState { tree: final(state).tree, ..*old(state) }),
        ({
            let fl = spec_flatten(node_view(old(state).tree), 0);
            if old(state).focus is Tree && old(state).tree_cursor < fl.len() && fl[old(
                state,
            ).tree_cursor as int].is_dir {
                node_view(final(state).tree) == spec_toggle(
                    node_view(old(state).tree),
                    fl[old(state).tree_cursor as int].path,
                )
            } else {
                node_view(final(state).tree) == node_view(old(state).tree)
            }
        }),
{
    if state.focus != Focus::Tree {
        return ;
    }
    let flat = flatten_visible(&state.tree);
    proof {
        assert(crate::scanner::flats_view(flat@).len() == flat@.len());
    }
    let tc = state.tree_cursor();
    if tc < flat.len() {
        proof {
            assert(crate::scanner::flats_view(flat@)[tc as int] == crate::scanner::flat_view(
                flat@[tc as int],
            ));
        }
        if flat[tc].is_dir {
            let path = flat[tc].path.clone();
            toggle_node_expanded(&mut state.tree, path.as_str());
        }
    }
}

/// Records a typed manual include: a non-empty path joins the list once.
pub fn add_manual_include(state: &mut AppState, path: String)
    ensures
        *final(state) == (AppState {
            manual_includes: final(state).manual_includes,
            ..*old(state)
        }),
        final(state).manual_includes@ == if path@.len() > 0 && !views(
            old(state).manual_includes@,
        ).contains(path@) {
            old(state).manual_includes@.push(path)
        } else {
            old(state).manual_includes@
        },
{
    if path.as_str().unicode_len() > 0 && !crate::strutil::contains_path(
        &state.manual_includes,
        path.as_str(),
    ) {
        state.manual_includes.push(path);
    }
}

} // verus!
