use launcher::actions::get_builtin_actions;
use launcher::data::{parse_desktop_entry, DesktopEntry};
use launcher::launch::plan_launch;
use launcher::state::State;

#[test]
fn there_are_three_actions() {
    let actions = get_builtin_actions();
    let ids: Vec<&str> = actions.iter().map(|a| a.id()).collect();
    assert_eq!(
        ids,
        vec!["launcher:action:logout", "launcher:action:shutdown", "launcher:action:restart"]
    );
    let titles: Vec<&str> = actions.iter().map(|a| a.title()).collect();
    assert_eq!(titles, vec!["Logout", "Shutdown", "Restart"]);
}

#[test]
fn actions_are_fully_described() {
    let actions = get_builtin_actions();
    assert_eq!(actions[0].description(), Some("Log out of the currently active session"));
    assert_eq!(actions[0].icon(), Some("system-log-out"));
    assert_eq!(
        actions[0].launch_command(),
        Some("sh -c 'loginctl terminate-session $XDG_SESSION_ID'")
    );
    assert_eq!(actions[1].description(), Some("Shut down the system"));
    assert_eq!(actions[1].icon(), Some("system-shutdown"));
    assert_eq!(actions[1].launch_command(), Some("shutdown now"));
    assert_eq!(actions[2].description(), Some("Restart the system"));
    assert_eq!(actions[2].icon(), Some("system-reboot"));
    assert_eq!(actions[2].launch_command(), Some("shutdown -r now"));
    for action in &actions {
        assert_eq!(action.generic_name(), None);
        assert!(!action.is_terminal());
        assert!(!action.user_confirm());
    }
}

#[test]
fn actions_can_be_planned() {
    let actions = get_builtin_actions();
    let plan = plan_launch(&actions[2]).unwrap();
    assert_eq!(plan.program, "shutdown");
    assert_eq!(plan.arguments, vec!["-r".to_string(), "now".to_string()]);
}

#[test]
fn a_refresh_appends_the_actions() {
    let found: Vec<DesktopEntry> = vec![
        parse_desktop_entry("/d/z.desktop", b"[Desktop Entry]\nName=Zed\nExec=zed\n").unwrap(),
        parse_desktop_entry("/d/a.desktop", b"[Desktop Entry]\nName=Ark\nExec=ark\n").unwrap(),
    ];
    let mut state = State::new();
    state.refresh_entries(&found);
    let ids: Vec<&str> = state.entries().iter().map(|e| e.id()).collect();
    assert_eq!(
        ids,
        vec![
            "/d/z.desktop",
            "/d/a.desktop",
            "launcher:action:logout",
            "launcher:action:shutdown",
            "launcher:action:restart",
        ]
    );
    let shown: Vec<&str> = state.filtered_entries().iter().map(|e| e.title()).collect();
    assert_eq!(shown, vec!["Ark", "Logout", "Restart", "Shutdown", "Zed"]);
}

#[test]
fn a_refresh_without_descriptors_still_has_the_actions() {
    let mut state = State::new();
    state.refresh_entries(&vec![]);
    assert_eq!(state.entries().len(), 3);
    assert_eq!(state.filtered_entries().len(), 3);
}
