use launcher::entry::{Entry, EntryBuilder};

#[test]
fn builder_starts_unnamed() {
    let entry = Entry::builder().build();
    assert_eq!(entry.id(), "");
    assert_eq!(entry.title(), "Unnamed");
    assert_eq!(entry.generic_name(), None);
    assert_eq!(entry.description(), None);
    assert_eq!(entry.icon(), None);
    assert_eq!(entry.launch_command(), None);
    assert!(!entry.is_terminal());
    assert!(!entry.user_confirm());
}

#[test]
fn default_entry_is_the_unnamed_entry() {
    let entry = Entry::default();
    assert_eq!(entry.title(), "Unnamed");
    assert_eq!(entry.id(), "");
    assert_eq!(entry.launch_command(), None);
}

#[test]
fn builder_new_equals_entry_builder() {
    let a = EntryBuilder::new().build();
    let b = Entry::builder().build();
    assert_eq!(a.title(), b.title());
    assert_eq!(a.id(), b.id());
}

#[test]
fn builder_sets_every_field() {
    let entry = Entry::builder()
        .id("/usr/share/applications/firefox.desktop")
        .title("Firefox")
        .generic_name(Some("Web Browser"))
        .description(Some("Browse the Web"))
        .icon(Some("firefox"))
        .launch_command(Some("firefox %u"))
        .is_terminal(true)
        .user_confirm(true)
        .build();
    assert_eq!(entry.id(), "/usr/share/applications/firefox.desktop");
    assert_eq!(entry.title(), "Firefox");
    assert_eq!(entry.generic_name(), Some("Web Browser"));
    assert_eq!(entry.description(), Some("Browse the Web"));
    assert_eq!(entry.icon(), Some("firefox"));
    assert_eq!(entry.launch_command(), Some("firefox %u"));
    assert!(entry.is_terminal());
    assert!(entry.user_confirm());
}

#[test]
fn builder_clears_optional_fields() {
    let entry = Entry::builder()
        .generic_name(Some("a"))
        .generic_name(None)
        .icon(Some("b"))
        .icon(None)
        .launch_command(Some("c"))
        .launch_command(None)
        .description(Some("d"))
        .description(None)
        .build();
    assert_eq!(entry.generic_name(), None);
    assert_eq!(entry.icon(), None);
    assert_eq!(entry.launch_command(), None);
    assert_eq!(entry.description(), None);
}

#[test]
fn description_prefers_its_own_text() {
    let entry = Entry::builder()
        .generic_name(Some("Web Browser"))
        .description(Some("Browse the Web"))
        .build();
    assert_eq!(entry.description(), Some("Browse the Web"));
}

#[test]
fn description_falls_back_to_generic_name() {
    let entry = Entry::builder().generic_name(Some("Web Browser")).build();
    assert_eq!(entry.description(), Some("Web Browser"));
    assert_eq!(entry.generic_name(), Some("Web Browser"));
}

#[test]
fn description_is_absent_without_both() {
    let entry = Entry::builder().title("Plain").build();
    assert_eq!(entry.description(), None);
}

#[test]
fn empty_description_is_still_a_description() {
    let entry = Entry::builder()
        .generic_name(Some("Generic"))
        .description(Some(""))
        .build();
    assert_eq!(entry.description(), Some(""));
}

#[test]
fn clone_keeps_every_field() {
    let entry = Entry::builder()
        .id("id")
        .title("Title")
        .generic_name(Some("Generic"))
        .description(Some("Text"))
        .icon(Some("icon"))
        .launch_command(Some("run"))
        .is_terminal(true)
        .user_confirm(true)
        .build();
    let copy = entry.clone();
    assert_eq!(copy.id(), "id");
    assert_eq!(copy.title(), "Title");
    assert_eq!(copy.generic_name(), Some("Generic"));
    assert_eq!(copy.description(), Some("Text"));
    assert_eq!(copy.icon(), Some("icon"));
    assert_eq!(copy.launch_command(), Some("run"));
    assert!(copy.is_terminal());
    assert!(copy.user_confirm());
}
