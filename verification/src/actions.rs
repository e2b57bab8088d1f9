//! The actions that are always on offer, whatever is installed.

use crate::entry::{Entry, EntryView};
use vstd::prelude::*;

verus! {

/// A built-in action: it has its own description, runs outside a terminal
/// and asks for no confirmation.
pub open spec fn action_view(
    id: Seq<char>,
    title: Seq<char>,
    description: Seq<char>,
    icon: Seq<char>,
    command: Seq<char>,
) -> EntryView {
    EntryView {
        id,
        title,
        generic_name: None,
        description: Some(description),
        icon: Some(icon),
        launch_command: Some(command),
        is_terminal: false,
        user_confirm: false,
    }
}

/// The three built-in actions, in the order they are offered: log out, shut
/// down, restart.
pub open spec fn builtin_actions() -> Seq<EntryView> {
    seq![
        action_view(
            "launcher:action:logout"@,
            "Logout"@,
            "Log out of the currently active session"@,
            "system-log-out"@,
            "sh -c 'loginctl terminate-session $XDG_SESSION_ID'"@,
        ),
        action_view(
            "launcher:action:shutdown"@,
            "Shutdown"@,
            "Shut down the system"@,
            "system-shutdown"@,
            "shutdown now"@,
        ),
        action_view(
            "launcher:action:restart"@,
            "Restart"@,
            "Restart the system"@,
            "system-reboot"@,
            "shutdown -r now"@,
        ),
    ]
}

/// Builds one action.
fn action(id: &str, title: &str, description: &str, icon: &str, command: &str) -> (r: Entry)
    ensures
        r@ == action_view(id@, title@, description@, icon@, command@),
{
    Entry::builder()
        .id(id)
        .title(title)
        .description(Some(description))
        .icon(Some(icon))
        .launch_command(Some(command))
        .is_terminal(false)
        .build()
}

/// The built-in actions. They do not depend on the file system.
pub fn get_builtin_actions() -> (r: Vec<Entry>)
    ensures
        r.deep_view() == builtin_actions(),
{
    let mut actions: Vec<Entry> = Vec::new();
    actions.push(
        action(
            "launcher:action:logout",
            "Logout",
            "Log out of the currently active session",
            "system-log-out",
            "sh -c 'loginctl terminate-session $XDG_SESSION_ID'",
        ),
    );
    actions.push(
        action(
            "launcher:action:shutdown",
            "Shutdown",
            "Shut down the system",
            "system-shutdown",
            "shutdown now",
        ),
    );
    actions.push(
        action(
            "launcher:action:restart",
            "Restart",
            "Restart the system",
            "system-reboot",
            "shutdown -r now",
        ),
    );
    assert(actions.deep_view() =~= builtin_actions());
    actions
}

} // verus!
