use launcher::data::{FixedIconSize, Icon, IconSize};
use launcher::entry::Entry;
use launcher::icons::{
    icon_path, is_absolute_path, resolve, resolve_step, select_best, theme_candidates,
    theme_chain, IconMap, IconStep,
};
use launcher::state::State;

fn strings(items: &[&str]) -> Vec<String> {
    items.iter().map(|s| s.to_string()).collect()
}

fn fixed(width: u32, height: u32, scale: u32) -> IconSize {
    IconSize::Fixed(FixedIconSize { width, height, scale })
}

fn icon(size: IconSize) -> Icon {
    Icon { theme: None, path: String::new(), size }
}

fn done(step: IconStep) -> Option<String> {
    match step {
        IconStep::Done(path) => path,
        IconStep::Search(theme) => panic!("asked to search {}", theme),
    }
}

fn search(step: IconStep) -> String {
    match step {
        IconStep::Search(theme) => theme,
        IconStep::Done(path) => panic!("finished with {:?}", path),
    }
}

#[test]
fn absolute_paths_start_with_a_slash() {
    assert!(is_absolute_path("/usr/share/pixmaps/app.png"));
    assert!(is_absolute_path("/"));
    assert!(!is_absolute_path("firefox"));
    assert!(!is_absolute_path(""));
    assert!(!is_absolute_path("./icon.png"));
    assert!(!is_absolute_path("pixmaps/app.png"));
}

#[test]
fn an_absolute_path_is_its_own_answer() {
    let path = "/opt/app/icon.png";
    assert_eq!(done(resolve_step(path, Some("Adwaita"), 0, None)), Some(path.to_string()));
    assert_eq!(done(resolve_step(path, None, 0, None)), Some(path.to_string()));
    assert_eq!(
        done(resolve_step(path, Some("Adwaita"), 1, Some("/elsewhere.svg".to_string()))),
        Some(path.to_string())
    );
    assert_eq!(resolve(path, &vec![]), Some(path.to_string()));
    assert_eq!(resolve(path, &vec![Some("/elsewhere.svg".to_string())]), Some(path.to_string()));
}

#[test]
fn the_active_theme_comes_before_the_fallback() {
    assert_eq!(theme_chain(Some("Adwaita")), strings(&["Adwaita", "hicolor"]));
    assert_eq!(theme_chain(None), strings(&["hicolor"]));
    assert_eq!(theme_chain(Some("hicolor")), strings(&["hicolor", "hicolor"]));
}

#[test]
fn a_search_walks_the_chain_until_it_hits() {
    assert_eq!(search(resolve_step("firefox", Some("Adwaita"), 0, None)), "Adwaita");
    assert_eq!(search(resolve_step("firefox", Some("Adwaita"), 1, None)), "hicolor");
    assert_eq!(done(resolve_step("firefox", Some("Adwaita"), 2, None)), None);
    assert_eq!(
        done(resolve_step("firefox", Some("Adwaita"), 1, Some("/a/firefox.svg".to_string()))),
        Some("/a/firefox.svg".to_string())
    );
    assert_eq!(
        done(resolve_step("firefox", Some("Adwaita"), 2, Some("/h/firefox.svg".to_string()))),
        Some("/h/firefox.svg".to_string())
    );
}

#[test]
fn without_an_active_theme_only_the_fallback_is_searched() {
    assert_eq!(search(resolve_step("firefox", None, 0, None)), "hicolor");
    assert_eq!(done(resolve_step("firefox", None, 1, None)), None);
}

#[test]
fn the_first_hit_in_chain_order_wins() {
    let a = Some("/a.svg".to_string());
    let b = Some("/b.svg".to_string());
    assert_eq!(resolve("firefox", &vec![a.clone(), b.clone()]), a);
    assert_eq!(resolve("firefox", &vec![None, b.clone()]), b);
    assert_eq!(resolve("firefox", &vec![None, None]), None);
    assert_eq!(resolve("firefox", &vec![]), None);
}

#[test]
fn icon_files_lie_under_apps() {
    assert_eq!(
        icon_path("/usr/share/icons/hicolor", "scalable", "firefox", IconSize::Scalable),
        "/usr/share/icons/hicolor/scalable/apps/firefox.svg"
    );
    assert_eq!(
        icon_path("/usr/share/icons/hicolor", "48x48@2", "firefox", fixed(48, 48, 2)),
        "/usr/share/icons/hicolor/48x48@2/apps/firefox.png"
    );
}

#[test]
fn candidates_come_from_size_directories_only() {
    let children = strings(&["48x48", "index.theme", "scalable", "symbolic", "16x16@2", "cursors"]);
    let found = theme_candidates("/i/Adwaita", "Adwaita", &children, "gimp");
    assert_eq!(
        found,
        vec![
            Icon {
                theme: Some("Adwaita".to_string()),
                path: "/i/Adwaita/48x48/apps/gimp.png".to_string(),
                size: fixed(48, 48, 1),
            },
            Icon {
                theme: Some("Adwaita".to_string()),
                path: "/i/Adwaita/scalable/apps/gimp.svg".to_string(),
                size: IconSize::Scalable,
            },
            Icon {
                theme: Some("Adwaita".to_string()),
                path: "/i/Adwaita/16x16@2/apps/gimp.png".to_string(),
                size: fixed(16, 16, 2),
            },
        ]
    );
    assert_eq!(theme_candidates("/i/x", "x", &vec![], "gimp"), vec![]);
}

#[test]
fn scalable_wins_over_every_fixed_size() {
    let found = vec![icon(fixed(64, 64, 1)), icon(IconSize::Scalable), icon(fixed(128, 128, 1))];
    assert_eq!(select_best(&found, 64, 64), Some(1));
    assert_eq!(select_best(&found, 1000, 1000), Some(1));
    assert_eq!(select_best(&found, 0, 0), Some(1));
}

#[test]
fn the_first_scalable_wins() {
    let found = vec![icon(fixed(8, 8, 1)), icon(IconSize::Scalable), icon(IconSize::Scalable)];
    assert_eq!(select_best(&found, 64, 64), Some(1));
}

#[test]
fn the_closest_size_above_the_minimum_wins() {
    let found = vec![
        icon(fixed(256, 256, 1)),
        icon(fixed(16, 16, 1)),
        icon(fixed(64, 64, 1)),
        icon(fixed(48, 48, 1)),
        icon(fixed(128, 128, 1)),
    ];
    assert_eq!(select_best(&found, 48, 48), Some(3));
    assert_eq!(select_best(&found, 49, 49), Some(2));
    assert_eq!(select_best(&found, 64, 64), Some(2));
    assert_eq!(select_best(&found, 65, 65), Some(4));
    assert_eq!(select_best(&found, 0, 0), Some(1));
    assert_eq!(select_best(&found, 256, 256), Some(0));
}

#[test]
fn nothing_below_the_minimum_is_taken() {
    let found = vec![icon(fixed(16, 16, 1)), icon(fixed(32, 32, 1))];
    assert_eq!(select_best(&found, 64, 64), None);
    assert_eq!(select_best(&found, 33, 1), None);
    assert_eq!(select_best(&found, 1, 33), None);
    assert_eq!(select_best(&vec![], 0, 0), None);
}

#[test]
fn both_directions_must_reach_the_minimum() {
    let found = vec![icon(fixed(64, 16, 1)), icon(fixed(16, 64, 1)), icon(fixed(96, 96, 1))];
    assert_eq!(select_best(&found, 32, 32), Some(2));
    assert_eq!(select_best(&found, 32, 16), Some(0));
    assert_eq!(select_best(&found, 16, 32), Some(1));
}

#[test]
fn width_decides_before_height_and_the_first_of_a_size_wins() {
    let found = vec![
        icon(fixed(48, 64, 1)),
        icon(fixed(48, 48, 2)),
        icon(fixed(32, 96, 1)),
        icon(fixed(48, 48, 1)),
    ];
    assert_eq!(select_best(&found, 40, 40), Some(1));
    assert_eq!(select_best(&found, 0, 0), Some(2));
}

#[test]
fn the_icon_map_remembers_the_last_path() {
    let mut map = IconMap::new();
    assert_eq!(map.get("firefox"), None);
    map.insert("firefox".to_string(), "/a.svg".to_string());
    map.insert("gimp".to_string(), "/g.svg".to_string());
    assert_eq!(map.get("firefox"), Some("/a.svg"));
    assert_eq!(map.get("gimp"), Some("/g.svg"));
    assert_eq!(map.get("fire"), None);
    map.insert("firefox".to_string(), "/b.svg".to_string());
    assert_eq!(map.get("firefox"), Some("/b.svg"));
    assert_eq!(map.get("gimp"), Some("/g.svg"));
    map.clear();
    assert_eq!(map.get("firefox"), None);
    assert_eq!(map.get("gimp"), None);
}

#[test]
fn the_state_lists_the_icons_to_resolve() {
    let mut state = State::new();
    state.set_entries(vec![
        Entry::builder().title("a").icon(Some("firefox")).build(),
        Entry::builder().title("b").build(),
        Entry::builder().title("c").icon(Some("/abs/c.png")).build(),
        Entry::builder().title("d").icon(Some("firefox")).build(),
    ]);
    assert_eq!(state.icon_names(), strings(&["firefox", "/abs/c.png", "firefox"]));
}

fn icon_state() -> State {
    let mut state = State::new();
    state.set_entries(vec![
        Entry::builder().title("a").icon(Some("firefox")).build(),
        Entry::builder().title("b").build(),
        Entry::builder().title("c").icon(Some("/abs/c.png")).build(),
        Entry::builder().title("d").icon(Some("gimp")).build(),
        Entry::builder().title("e").icon(Some("missing")).build(),
        Entry::builder().title("f").icon(Some("firefox")).build(),
    ]);
    state
}

fn hit(path: &str) -> Option<String> {
    Some(path.to_string())
}

#[test]
fn exactly_the_resolved_icons_lead_somewhere() {
    let mut state = icon_state();
    assert_eq!(state.icon_names(), strings(&["firefox", "/abs/c.png", "gimp", "missing", "firefox"]));
    state.find_icons(&vec![
        vec![hit("/t/firefox.svg")],
        vec![],
        vec![None, hit("/h/gimp.svg")],
        vec![None, None],
        vec![hit("/t/firefox.svg")],
    ]);
    assert_eq!(state.icon_path("firefox"), Some("/t/firefox.svg"));
    assert_eq!(state.icon_path("/abs/c.png"), Some("/abs/c.png"));
    assert_eq!(state.icon_path("gimp"), Some("/h/gimp.svg"));
    assert_eq!(state.icon_path("missing"), None);
    assert_eq!(state.icon_path("elsewhere"), None);
    assert_eq!(state.entries().len(), 6);
}

#[test]
fn an_absolute_icon_needs_no_search() {
    let mut state = icon_state();
    state.find_icons(&vec![]);
    assert_eq!(state.icon_path("/abs/c.png"), Some("/abs/c.png"));
    assert_eq!(state.icon_path("firefox"), None);
    assert_eq!(state.icon_path("gimp"), None);
    state.find_icons(&vec![vec![], vec![hit("/wrong.svg")]]);
    assert_eq!(state.icon_path("/abs/c.png"), Some("/abs/c.png"));
}

#[test]
fn the_first_find_in_chain_order_is_taken() {
    let mut state = icon_state();
    state.find_icons(&vec![vec![hit("/theme.svg"), hit("/fallback.svg")]]);
    assert_eq!(state.icon_path("firefox"), Some("/theme.svg"));
}

#[test]
fn a_later_entry_with_the_same_icon_decides() {
    let mut state = icon_state();
    state.find_icons(&vec![vec![hit("/one.svg")], vec![], vec![], vec![], vec![hit("/two.svg")]]);
    assert_eq!(state.icon_path("firefox"), Some("/two.svg"));
    state.find_icons(&vec![vec![hit("/one.svg")], vec![], vec![], vec![], vec![None, None]]);
    assert_eq!(state.icon_path("firefox"), Some("/one.svg"));
}

#[test]
fn finds_beyond_the_names_are_ignored() {
    let mut state = State::new();
    state.set_entries(vec![Entry::builder().title("a").icon(Some("firefox")).build()]);
    state.find_icons(&vec![vec![None], vec![hit("/stray.svg")], vec![hit("/x.svg")]]);
    assert_eq!(state.icon_path("firefox"), None);
    assert_eq!(state.icon_path("/stray.svg"), None);
}

#[test]
fn old_icons_are_forgotten() {
    let mut state = icon_state();
    state.find_icons(&vec![vec![hit("/f.svg")], vec![], vec![hit("/g.svg")]]);
    assert_eq!(state.icon_path("gimp"), Some("/g.svg"));
    state.find_icons(&vec![vec![hit("/f.svg")]]);
    assert_eq!(state.icon_path("gimp"), None);
    assert_eq!(state.icon_path("firefox"), Some("/f.svg"));
    state.set_entries(vec![]);
    assert_eq!(state.icon_path("firefox"), None);
    state.find_icons(&vec![vec![hit("/f.svg")]]);
    assert_eq!(state.icon_path("firefox"), None);
}

#[test]
fn an_icon_clone_is_the_same_icon() {
    let first = Icon {
        theme: Some("hicolor".to_string()),
        path: "/p.svg".to_string(),
        size: IconSize::Scalable,
    };
    assert_eq!(first.clone(), first);
}
