use launcher::entry::Entry;
use launcher::search::{combine_scores, rank, Candidate};
use launcher::state::{filter_entries, score_entry, State};

fn titled(title: &str) -> Entry {
    Entry::builder().id(title).title(title).build()
}

fn named(title: &str, generic: &str) -> Entry {
    Entry::builder().id(title).title(title).generic_name(Some(generic)).build()
}

fn titles(entries: &Vec<Entry>) -> Vec<&str> {
    entries.iter().map(|e| e.title()).collect()
}

fn candidate(title: &str, score: Option<i64>) -> Candidate {
    Candidate { title: title.to_string(), score }
}

fn state_with(entries: Vec<Entry>) -> State {
    let mut state = State::new();
    state.set_entries(entries);
    state
}

#[test]
fn the_empty_query_keeps_every_entry() {
    let state = state_with(vec![titled("Firefox"), titled("Files"), titled("Terminal")]);
    let shown = titles(state.filtered_entries());
    assert_eq!(shown.len(), 3);
    assert!(shown.contains(&"Firefox"));
    assert!(shown.contains(&"Files"));
    assert!(shown.contains(&"Terminal"));
    assert_eq!(shown, vec!["Files", "Firefox", "Terminal"]);
}

#[test]
fn the_empty_query_leaves_a_sorted_list_alone() {
    let state = state_with(vec![titled("Files"), titled("Firefox"), titled("Terminal")]);
    assert_eq!(titles(state.filtered_entries()), vec!["Files", "Firefox", "Terminal"]);
    assert_eq!(titles(state.entries()), vec!["Files", "Firefox", "Terminal"]);
}

#[test]
fn a_query_drops_what_does_not_match() {
    let mut state = state_with(vec![titled("GIMP"), titled("Files"), titled("Firefox")]);
    state.set_query("fi".to_string());
    assert_eq!(titles(state.filtered_entries()), vec!["Files", "Firefox"]);
    assert_eq!(state.query(), "fi");
    assert_eq!(titles(state.entries()), vec!["GIMP", "Files", "Firefox"]);
}

#[test]
fn equal_scores_resolve_alphabetically() {
    let files = titled("Files");
    let firefox = titled("Firefox");
    assert_eq!(score_entry(&files, "fi"), score_entry(&firefox, "fi"));
    let shown = filter_entries(&vec![firefox, files], "fi");
    assert_eq!(titles(&shown), vec!["Files", "Firefox"]);
}

#[test]
fn a_higher_score_comes_first() {
    let far = titled("a-long-name-with-term-late");
    let near = titled("term");
    let low = score_entry(&far, "term").unwrap();
    let high = score_entry(&near, "term").unwrap();
    assert!(high > low);
    let shown = filter_entries(&vec![far, near], "term");
    assert_eq!(titles(&shown), vec!["term", "a-long-name-with-term-late"]);
}

#[test]
fn the_generic_name_is_searched_too() {
    let entries = vec![named("Nautilus", "Files"), titled("GIMP")];
    let shown = filter_entries(&entries, "fil");
    assert_eq!(titles(&shown), vec!["Nautilus"]);
}

#[test]
fn the_better_of_two_names_scores() {
    let by_title = titled("Files");
    let by_generic = named("Nautilus", "Files");
    let by_both = named("Files", "Files manager");
    let title_score = score_entry(&by_title, "files").unwrap();
    assert_eq!(score_entry(&by_generic, "files"), Some(title_score));
    assert!(score_entry(&by_both, "files").unwrap() >= title_score);
    assert_eq!(score_entry(&titled("GIMP"), "files"), None);
    assert_eq!(score_entry(&named("GIMP", "Image Editor"), "files"), None);
}

#[test]
fn the_empty_query_scores_zero() {
    assert_eq!(score_entry(&titled("Anything"), ""), Some(0));
    assert_eq!(score_entry(&titled(""), ""), Some(0));
}

#[test]
fn matching_ignores_case_for_lower_case_queries() {
    let upper = titled("FIREFOX");
    let lower = titled("files");
    assert!(score_entry(&upper, "fi").is_some());
    assert!(score_entry(&lower, "fi") > score_entry(&upper, "fi"));
    let shown = filter_entries(&vec![upper, lower], "fi");
    assert_eq!(titles(&shown), vec!["files", "FIREFOX"]);
}

#[test]
fn matching_ignores_case_for_upper_case_queries() {
    let shown = filter_entries(&vec![titled("files"), titled("GIMP"), titled("Firefox")], "FI");
    let mut found = titles(&shown);
    found.sort();
    assert_eq!(found, vec!["Firefox", "files"]);
    assert!(score_entry(&titled("gimp"), "GIMP").is_some());
    assert!(score_entry(&titled("GIMP"), "gimp").is_some());
}

#[test]
fn only_ascii_letters_lose_their_case() {
    assert!(score_entry(&titled("Éclair"), "é").is_none());
    assert!(score_entry(&titled("éclair"), "é").is_some());
    assert!(score_entry(&titled("\u{212a}"), "k").is_none());
    assert!(score_entry(&titled("a[b"), "a{b").is_none());
    assert!(score_entry(&titled("a@b"), "a`b").is_none());
}

fn appears(pattern: &str, text: &str) -> bool {
    let mut wanted = pattern.chars().peekable();
    for letter in text.chars() {
        match wanted.peek() {
            Some(next) if next.to_ascii_lowercase() == letter.to_ascii_lowercase() => {
                wanted.next();
            }
            _ => {}
        }
    }
    wanted.peek().is_none()
}

#[test]
fn there_is_a_score_exactly_for_letters_in_order() {
    let texts = [
        "", "a", "A", "ab", "ba", "aXb", "Firefox", "files", "GIMP", "Web Browser", "aa", "aaa",
        "abcabc", "ß", "é", "Z", "z", "[", "{", "@", "`",
    ];
    let patterns = [
        "a", "A", "ab", "AB", "ba", "aa", "aaa", "fi", "FI", "fx", "xf", "wb", "gp", "pg", "ß",
        "É", "z", "Z", "[", "{", "@", "`", "abcabc", "abccba",
    ];
    for text in texts {
        for pattern in patterns {
            assert_eq!(
                score_entry(&titled(text), pattern).is_some(),
                appears(pattern, text),
                "{:?} in {:?}",
                pattern,
                text
            );
        }
    }
}

#[test]
fn characters_must_come_in_order() {
    let shown = filter_entries(&vec![titled("if"), titled("f-i"), titled("xfxix")], "fi");
    let mut found = titles(&shown);
    found.sort();
    assert_eq!(found, vec!["f-i", "xfxix"]);
}

#[test]
fn combining_scores() {
    assert_eq!(combine_scores(Some(3), Some(7)), Some(7));
    assert_eq!(combine_scores(Some(7), Some(3)), Some(7));
    assert_eq!(combine_scores(Some(-5), Some(-9)), Some(-5));
    assert_eq!(combine_scores(Some(4), None), Some(4));
    assert_eq!(combine_scores(None, Some(4)), Some(4));
    assert_eq!(combine_scores(None, None), None);
}

#[test]
fn rank_orders_by_score_then_title_then_position() {
    let candidates = vec![
        candidate("beta", Some(10)),
        candidate("alpha", Some(10)),
        candidate("gone", None),
        candidate("zeta", Some(50)),
        candidate("alpha", Some(10)),
        candidate("low", Some(-3)),
        candidate("alph", Some(10)),
    ];
    assert_eq!(rank(&candidates), vec![3, 6, 1, 4, 0, 5]);
}

#[test]
fn rank_of_nothing_is_nothing() {
    assert_eq!(rank(&vec![]), Vec::<usize>::new());
    assert_eq!(rank(&vec![candidate("a", None)]), Vec::<usize>::new());
}

#[test]
fn titles_order_by_code_point() {
    let candidates = vec![
        candidate("b", Some(0)),
        candidate("a", Some(0)),
        candidate("B", Some(0)),
        candidate("é", Some(0)),
        candidate("", Some(0)),
        candidate("ab", Some(0)),
    ];
    assert_eq!(rank(&candidates), vec![4, 2, 1, 5, 0, 3]);
}

#[test]
fn a_new_query_resets_the_selection() {
    let mut state = state_with(vec![titled("a"), titled("b"), titled("c")]);
    state.set_selection_index(2);
    assert_eq!(state.selection_index(), 2);
    state.set_query("b".to_string());
    assert_eq!(state.selection_index(), 0);
    assert_eq!(titles(state.filtered_entries()), vec!["b"]);
    assert_eq!(state.get_selected_entry().map(|e| e.title()), Some("b"));
}

#[test]
fn the_selection_stays_inside_the_view() {
    let mut state = state_with(vec![titled("a"), titled("b"), titled("c")]);
    state.set_selection_index(1);
    assert_eq!(state.selection_index(), 1);
    state.set_selection_index(3);
    assert_eq!(state.selection_index(), 2);
    state.set_selection_index(usize::MAX);
    assert_eq!(state.selection_index(), 2);
    state.set_selection_index(0);
    assert_eq!(state.selection_index(), 0);
}

#[test]
fn the_selection_moves_by_steps() {
    let mut state = state_with(vec![titled("a"), titled("b"), titled("c")]);
    state.add_selection_index(1);
    assert_eq!(state.selection_index(), 1);
    state.add_selection_index(1);
    assert_eq!(state.selection_index(), 2);
    state.add_selection_index(1);
    assert_eq!(state.selection_index(), 2);
    state.add_selection_index(-1);
    assert_eq!(state.selection_index(), 1);
    state.add_selection_index(-5);
    assert_eq!(state.selection_index(), 0);
    state.add_selection_index(isize::MAX);
    assert_eq!(state.selection_index(), 2);
    state.add_selection_index(isize::MIN);
    assert_eq!(state.selection_index(), 0);
    state.add_selection_index(0);
    assert_eq!(state.selection_index(), 0);
}

#[test]
fn an_empty_view_selects_nothing() {
    let mut state = State::new();
    assert_eq!(state.selection_index(), 0);
    assert!(state.get_selected_entry().is_none());
    state.set_selection_index(4);
    assert_eq!(state.selection_index(), 0);
    state.add_selection_index(3);
    assert_eq!(state.selection_index(), 0);
    state.add_selection_index(-3);
    assert_eq!(state.selection_index(), 0);
    assert!(state.get_selected_entry().is_none());
}

#[test]
fn the_selected_entry_is_the_one_under_the_selection() {
    let mut state = state_with(vec![titled("b"), titled("a"), titled("c")]);
    assert_eq!(state.get_selected_entry().map(|e| e.title()), Some("a"));
    state.add_selection_index(2);
    assert_eq!(state.get_selected_entry().map(|e| e.title()), Some("c"));
}

#[test]
fn a_stale_selection_selects_nothing() {
    let mut state = state_with(vec![titled("a"), titled("b"), titled("c")]);
    state.set_selection_index(2);
    state.set_entries(vec![titled("only")]);
    assert_eq!(state.selection_index(), 2);
    assert!(state.get_selected_entry().is_none());
}

#[test]
fn a_query_that_matches_nothing_empties_the_view() {
    let mut state = state_with(vec![titled("a"), titled("b")]);
    state.set_query("zzz".to_string());
    assert_eq!(state.filtered_entries().len(), 0);
    assert!(state.get_selected_entry().is_none());
    state.set_query(String::new());
    assert_eq!(titles(state.filtered_entries()), vec!["a", "b"]);
}

#[test]
fn recomputing_changes_nothing_by_itself() {
    let mut state = state_with(vec![titled("b"), titled("a")]);
    state.set_query("a".to_string());
    state.update_filtered_entries();
    assert_eq!(titles(state.filtered_entries()), vec!["a"]);
    assert_eq!(state.query(), "a");
}

#[test]
fn a_fresh_state_is_empty() {
    let state = State::default();
    assert_eq!(state.entries().len(), 0);
    assert_eq!(state.filtered_entries().len(), 0);
    assert_eq!(state.query(), "");
    assert_eq!(state.selection_index(), 0);
    assert!(state.confirming_entry().is_none());
}
