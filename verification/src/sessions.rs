//! Decisions of the sessions menu: which session is current, whether the
//! sessions list is worth opening, and what a key or a menu item does.
use vstd::prelude::*;
use crate::paths::{path_eq, paths_equal};

verus! {

/// For each session's project directory, whether it is the current project
/// (the two name the same path).
pub fn session_flags(project_paths: &Vec<String>, current_project: &str) -> (r: Vec<bool>)
    ensures
        r@.len() == project_paths@.len(),
        forall|i: int| 0 <= i < r@.len() ==> #[trigger] r@[i] == path_eq(project_paths@[i]@, current_project@),
{
    let mut r: Vec<bool> = Vec::new();
    let mut i: usize = 0;
    while i < project_paths.len()
        invariant
            i <= project_paths@.len(),
            r@.len() == i,
            forall|k: int| 0 <= k < i ==> #[trigger] r@[k] == path_eq(project_paths@[k]@, current_project@),
        decreases project_paths@.len() - i,
    {
        r.push(paths_equal(project_paths[i].as_str(), current_project));
        i = i + 1;
    }
    r
}

/// Where the sessions list opens: `None` (it is not shown) unless some
/// session other than the current one exists; then on the first current
/// session, or on the first session when none is current.
pub fn sessions_modal_cursor(is_current: &Vec<bool>) -> (r: Option<usize>)
    ensures
        r is Some <==> exists|i: int| 0 <= i < is_current@.len() && !#[trigger] is_current@[i],
        r matches Some(c) ==> c < is_current@.len(),
        r matches Some(c) ==> (is_current@[c as int] && forall|k: int| 0 <= k < c ==> !#[trigger] is_current@[k])
            || (c == 0 && forall|k: int| 0 <= k < is_current@.len() ==> !#[trigger] is_current@[k]),
{
    let mut other = false;
    let mut first_current: Option<usize> = None;
    let mut i: usize = 0;
    while i < is_current.len()
        invariant
            i <= is_current@.len(),
            other <==> exists|k: int| 0 <= k < i && !#[trigger] is_current@[k],
            match first_current {
                Some(c) => c < i && is_current@[c as int] && forall|k: int| 0 <= k < c ==> !#[trigger] is_current@[k],
                None => forall|k: int| 0 <= k < i ==> !#[trigger] is_current@[k],
            },
        decreases is_current@.len() - i,
    {
        if is_current[i] {
            if first_current.is_none() {
                first_current = Some(i);
            }
        } else {
            other = true;
        }
        i = i + 1;
    }
    if !other {
        return None;
    }
    match first_current {
        Some(c) => Some(c),
        None => Some(0),
    }
}

/// What the generic submenu navigation made of a key.
pub enum SubmenuNavAction {
    Close,
    Execute,
    Right,
    Left,
    Rename,
    Edit,
    Delete,
    NoAction,
}

/// What a key does in the sessions submenu.
pub enum SessionsMenuStep {
    CloseMenu,
    ExecuteSelected,
    NextMenu,
    PreviousMenu,
    Stay,
}

/// A key in the sessions submenu: close, run the selected item, move to the
/// next or previous menu; renaming, editing and deleting do nothing there.
pub fn sessions_submenu_step(action: SubmenuNavAction) -> (r: SessionsMenuStep)
    ensures
        r == match action {
            SubmenuNavAction::Close => SessionsMenuStep::CloseMenu,
            SubmenuNavAction::Execute => SessionsMenuStep::ExecuteSelected,
            SubmenuNavAction::Right => SessionsMenuStep::NextMenu,
            SubmenuNavAction::Left => SessionsMenuStep::PreviousMenu,
            _ => SessionsMenuStep::Stay,
        },
{
    match action {
        SubmenuNavAction::Close => SessionsMenuStep::CloseMenu,
        SubmenuNavAction::Execute => SessionsMenuStep::ExecuteSelected,
        SubmenuNavAction::Right => SessionsMenuStep::NextMenu,
        SubmenuNavAction::Left => SessionsMenuStep::PreviousMenu,
        SubmenuNavAction::Rename | SubmenuNavAction::Edit | SubmenuNavAction::Delete
        | SubmenuNavAction::NoAction => SessionsMenuStep::Stay,
    }
}

/// The positions of the sessions submenu's items.
pub struct SessionsSubmenuItems {
    pub new_session: usize,
    pub switch_session: usize,
    pub change_root: usize,
}

/// What running a sessions submenu item does (after closing the menu).
pub enum SessionsSubmenuAction {
    /// Pick a directory for a new session.
    NewSession,
    /// Open the list of sessions.
    SwitchSession,
    /// Pick a new root directory for the current session.
    ChangeRoot,
}

/// The action of the selected sessions submenu item, if it names one; the
/// first matching item wins.
pub fn sessions_submenu_action(selected: usize, items: &SessionsSubmenuItems) -> (r: Option<SessionsSubmenuAction>)
    ensures
        r == (if selected == items.new_session {
            Some(SessionsSubmenuAction::NewSession)
        } else if selected == items.switch_session {
            Some(SessionsSubmenuAction::SwitchSession)
        } else if selected == items.change_root {
            Some(SessionsSubmenuAction::ChangeRoot)
        } else {
            None
        }),
{
    if selected == items.new_session {
        Some(SessionsSubmenuAction::NewSession)
    } else if selected == items.switch_session {
        Some(SessionsSubmenuAction::SwitchSession)
    } else if selected == items.change_root {
        Some(SessionsSubmenuAction::ChangeRoot)
    } else {
        None
    }
}

} // verus!
