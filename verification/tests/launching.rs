use launcher::entry::Entry;
use launcher::launch::{expand_field_codes, plan_launch, plan_words, LaunchError};
use launcher::state::State;

fn command(line: &str) -> Entry {
    Entry::builder().title("x").launch_command(Some(line)).build()
}

fn strings(items: &[&str]) -> Vec<String> {
    items.iter().map(|s| s.to_string()).collect()
}

fn argv(entry: &Entry) -> Vec<String> {
    let plan = plan_launch(entry).unwrap();
    let mut all = vec![plan.program];
    all.extend(plan.arguments);
    all
}

#[test]
fn a_field_code_is_dropped() {
    let entry = command("app %f --flag");
    assert_eq!(argv(&entry), strings(&["app", "--flag"]));
    let plan = plan_launch(&entry).unwrap();
    assert_eq!(plan.program, "app");
    assert_eq!(plan.arguments, strings(&["--flag"]));
    assert!(!plan.in_terminal);
    assert!(!plan.needs_confirmation);
}

#[test]
fn a_double_percent_is_a_literal_percent() {
    assert_eq!(argv(&command("printf %% done")), strings(&["printf", "%", "done"]));
    assert_eq!(argv(&command("app %u %% %F")), strings(&["app", "%"]));
}

#[test]
fn no_command_is_an_error() {
    let entry = Entry::builder().title("x").build();
    assert_eq!(plan_launch(&entry).err(), Some(LaunchError::NoCommand));
    let terminal = Entry::builder().title("x").is_terminal(true).build();
    assert_eq!(plan_launch(&terminal).err(), Some(LaunchError::NoCommand));
}

#[test]
fn quotes_and_escapes_are_honoured() {
    assert_eq!(
        argv(&command("sh -c 'loginctl terminate-session $XDG_SESSION_ID'")),
        strings(&["sh", "-c", "loginctl terminate-session $XDG_SESSION_ID"])
    );
    assert_eq!(argv(&command("a \"b c\" d\\ e")), strings(&["a", "b c", "d e"]));
    assert_eq!(argv(&command("  spaced\t out \n")), strings(&["spaced", "out"]));
}

#[test]
fn nothing_is_expanded_but_field_codes() {
    assert_eq!(argv(&command("echo $HOME ~ *.txt")), strings(&["echo", "$HOME", "~", "*.txt"]));
}

#[test]
fn only_a_leading_percent_makes_a_field_code() {
    assert_eq!(argv(&command("app 100% a%f %")), strings(&["app", "100%", "a%f"]));
    assert_eq!(argv(&command("app %%% %%f")), strings(&["app"]));
    assert_eq!(argv(&command("app '%f' \"%%\"")), strings(&["app", "%"]));
}

#[test]
fn an_open_quote_is_an_invalid_command() {
    assert_eq!(plan_launch(&command("app 'unclosed")).err(), Some(LaunchError::InvalidCommand));
    assert_eq!(plan_launch(&command("app \"unclosed")).err(), Some(LaunchError::InvalidCommand));
}

#[test]
fn a_command_without_words_is_empty() {
    assert_eq!(plan_launch(&command("")).err(), Some(LaunchError::EmptyCommand));
    assert_eq!(plan_launch(&command("   ")).err(), Some(LaunchError::EmptyCommand));
    assert_eq!(plan_launch(&command("%f %u")).err(), Some(LaunchError::EmptyCommand));
    assert_eq!(plan_launch(&command("# only a comment")).err(), Some(LaunchError::EmptyCommand));
}

#[test]
fn a_terminal_command_runs_under_the_launcher() {
    let entry = Entry::builder().launch_command(Some("top -d 1 %f")).is_terminal(true).build();
    let plan = plan_launch(&entry).unwrap();
    assert_eq!(plan.program, "xdg-terminal");
    assert_eq!(plan.arguments, strings(&["top", "-d", "1"]));
    assert!(plan.in_terminal);
}

#[test]
fn a_terminal_without_words_is_still_a_plan() {
    let entry = Entry::builder().launch_command(Some("%f")).is_terminal(true).build();
    let plan = plan_launch(&entry).unwrap();
    assert_eq!(plan.program, "xdg-terminal");
    assert_eq!(plan.arguments, Vec::<String>::new());
}

#[test]
fn confirmation_is_passed_on() {
    let entry = Entry::builder().launch_command(Some("shutdown now")).user_confirm(true).build();
    let plan = plan_launch(&entry).unwrap();
    assert!(plan.needs_confirmation);
    assert_eq!(plan.program, "shutdown");
    assert_eq!(plan.arguments, strings(&["now"]));
}

#[test]
fn expansion_word_by_word() {
    assert_eq!(expand_field_codes(&strings(&[])), strings(&[]));
    assert_eq!(
        expand_field_codes(&strings(&["a", "%f", "%%", "", "%", "b%", "%%%"])),
        strings(&["a", "%", "", "b%"])
    );
}

#[test]
fn planning_from_words() {
    let plan = plan_words(&strings(&["%i", "prog", "%c", "arg"]), false, true).unwrap();
    assert_eq!(plan.program, "prog");
    assert_eq!(plan.arguments, strings(&["arg"]));
    assert!(plan.needs_confirmation);
    assert!(!plan.in_terminal);
    assert_eq!(plan_words(&strings(&["%i"]), false, false).err(), Some(LaunchError::EmptyCommand));
    assert_eq!(plan_words(&strings(&[]), false, false).err(), Some(LaunchError::EmptyCommand));
    let plan = plan_words(&strings(&[]), true, false).unwrap();
    assert_eq!(plan.program, "xdg-terminal");
}

#[test]
fn an_empty_word_can_be_the_program() {
    let plan = plan_launch(&command("'' arg")).unwrap();
    assert_eq!(plan.program, "");
    assert_eq!(plan.arguments, strings(&["arg"]));
}

#[test]
fn errors_have_messages() {
    assert_eq!(LaunchError::NoCommand.message(), "the entry has no command");
    assert_eq!(LaunchError::InvalidCommand.message(), "the command has an unclosed quote");
    assert_eq!(LaunchError::EmptyCommand.message(), "the command names no program");
}

#[test]
fn launching_without_confirmation_plans_at_once() {
    let mut state = State::new();
    let outcome = state.launch_entry(command("app %f --flag"));
    let plan = outcome.unwrap().unwrap();
    assert_eq!(plan.program, "app");
    assert_eq!(plan.arguments, strings(&["--flag"]));
    assert!(state.confirming_entry().is_none());
}

#[test]
fn launching_with_confirmation_waits() {
    let mut state = State::new();
    let entry = Entry::builder().title("Off").launch_command(Some("shutdown now")).user_confirm(
        true,
    ).build();
    assert!(state.launch_entry(entry).is_none());
    assert_eq!(state.confirming_entry().map(|e| e.title()), Some("Off"));
    let plan = state.confirm_launch().unwrap().unwrap();
    assert_eq!(plan.program, "shutdown");
    assert_eq!(plan.arguments, strings(&["now"]));
    assert!(plan.needs_confirmation);
    state.cancel_confirmation();
    assert!(state.confirming_entry().is_none());
    assert!(state.confirm_launch().is_none());
}

#[test]
fn launching_what_cannot_run_reports_why() {
    let mut state = State::new();
    let outcome = state.launch_entry(Entry::builder().title("x").build());
    assert_eq!(outcome.unwrap().err(), Some(LaunchError::NoCommand));
    let parked = Entry::builder().title("x").user_confirm(true).build();
    assert!(state.launch_entry(parked).is_none());
    assert_eq!(state.confirm_launch().unwrap().err(), Some(LaunchError::NoCommand));
}

#[test]
fn executing_ignores_the_confirmation_gate() {
    let state = State::new();
    let entry = Entry::builder().launch_command(Some("reboot")).user_confirm(true).build();
    let plan = state.execute_entry(&entry).unwrap();
    assert_eq!(plan.program, "reboot");
    assert!(state.confirming_entry().is_none());
}
