use pakr::categories::{from_heuristics, from_semmap};
use pakr::keys::{
    add_manual_include, cycle_focus, exclude_at_cursor, move_cursor, step, toggle_cat,
    toggle_current, toggle_gitignore,
};
use pakr::scanner::{scan, RawEntry};
use pakr::semmap::parse;
use pakr::subsystems::build;
use pakr::types::{
    resolve_selection, AppState, Category, CategoryKind, ExcludeList, Focus, GitignoreFilter,
    SizeIndex,
};

fn s(x: &str) -> String {
    x.to_string()
}

fn file(name: &str, size: u64) -> RawEntry {
    RawEntry { name: s(name), size, children: None }
}

fn dir(name: &str, children: Vec<RawEntry>) -> RawEntry {
    RawEntry { name: s(name), size: 0, children: Some(children) }
}

fn state_for(text: &str, root: RawEntry) -> AppState {
    let d = parse(text);
    let r = scan(&root);
    let cats = from_semmap(&d, &r.tree);
    let subs = build(&d);
    AppState {
        root: s("proj"),
        tree: r.tree,
        file_sizes: r.file_sizes,
        categories: cats,
        subsystems: subs,
        exclude: ExcludeList::new(),
        manual_includes: Vec::new(),
        has_semmap: true,
        has_gitignore: false,
        respect_gitignore: false,
        gitignore_filter: GitignoreFilter::default(),
        all_collapsed: false,
        focus: Focus::Categories,
        cat_cursor: 0,
        sub_cursor: 0,
        exclude_cursor: 0,
        tree_cursor: 0,
    }
}

#[test]
fn subsystems_from_components() {
    let text = "\
## Layer 0 -- core\n\
`src/a.rs`\n\
`src/b.rs`\n\
`lib/c.rs`\n\
`alone.rs`\n\
graph TD\n\
src_a_rs --> src_b_rs\n\
src_b_rs --> lib_c_rs\n";
    let d = parse(text);
    let subs = build(&d);
    // one component of three files; the isolated file is no subsystem
    assert_eq!(subs.len(), 1);
    assert!(subs[0].enabled);
    let mut files = subs[0].files.clone();
    files.sort();
    assert_eq!(files, vec![s("lib/c.rs"), s("src/a.rs"), s("src/b.rs")]);
    // two members sit under src, one under lib
    assert_eq!(subs[0].name, "src");
}

#[test]
fn singleton_component_never_a_subsystem() {
    let text = "\
## Layer 0 -- core\n\
`a.rs`\n\
`b.rs`\n";
    let d = parse(text);
    assert_eq!(build(&d).len(), 0);
}

#[test]
fn cluster_named_by_ordinal_without_parents() {
    let text = "\
## Layer 0 -- core\n\
`a.rs`\n\
`b.rs`\n\
graph TD\n\
a_rs --> b_rs\n";
    let d = parse(text);
    let subs = build(&d);
    assert_eq!(subs.len(), 1);
    assert_eq!(subs[0].name, "cluster_0");
}

#[test]
fn layer_and_subsystem_scenario() {
    // layer "core" holds a.rs and b.rs with an edge between them; the
    // untracked c.md lands in the disabled Docs bucket
    let text = "\
## Layer 0 -- core\n\
`a.rs`\n\
`b.rs`\n\
graph TD\n\
a_rs --> b_rs\n";
    let st = state_for(text, dir("proj", vec![file("a.rs", 1), file("b.rs", 1), file("c.md", 1)]));
    assert_eq!(st.categories.len(), 2);
    assert!(st.categories[0].enabled);
    assert!(!st.categories[1].enabled);
    assert_eq!(st.subsystems.len(), 1);
    let sel = st.selected_paths();
    assert_eq!(sel, vec![s("a.rs"), s("b.rs")]);
}

#[test]
fn subsystem_intersection_drops_unrelated_category_files() {
    // once any subsystem exists, an enabled category's file without any
    // subsystem membership is removed by the intersection step
    let text = "\
## Layer 0 -- core\n\
`a.rs`\n\
`b.rs`\n\
`free.rs`\n\
graph TD\n\
a_rs --> b_rs\n";
    let st = state_for(
        text,
        dir("proj", vec![file("a.rs", 1), file("b.rs", 1), file("free.rs", 1)]),
    );
    let sel = st.selected_paths();
    assert_eq!(sel, vec![s("a.rs"), s("b.rs")]);
}

#[test]
fn excluding_an_unselected_path_changes_nothing() {
    let text = "\
## Layer 0 -- core\n\
`a.rs`\n";
    let mut st = state_for(text, dir("proj", vec![file("a.rs", 1), file("c.md", 1)]));
    let before = st.selected_paths();
    st.exclude.toggle(s("c.md"));
    let after = st.selected_paths();
    assert_eq!(before, after);
}

#[test]
fn manual_include_bypasses_categories() {
    let text = "\
## Layer 0 -- core\n\
`a.rs`\n";
    let mut st = state_for(text, dir("proj", vec![file("a.rs", 1), file("notes.txt", 1)]));
    // notes.txt is on disk but in no enabled category
    assert_eq!(st.selected_paths(), vec![s("a.rs")]);
    add_manual_include(&mut st, s("notes.txt"));
    assert_eq!(st.selected_paths(), vec![s("a.rs"), s("notes.txt")]);
}

#[test]
fn manual_include_still_respects_exclusion() {
    let text = "\
## Layer 0 -- core\n\
`a.rs`\n";
    let mut st = state_for(text, dir("proj", vec![file("a.rs", 1), file("notes.txt", 1)]));
    add_manual_include(&mut st, s("notes.txt"));
    st.exclude.toggle(s("notes.txt"));
    assert_eq!(st.selected_paths(), vec![s("a.rs")]);
}

#[test]
fn resolution_is_idempotent() {
    let text = "\
## Layer 0 -- core\n\
`a.rs`\n\
`b.rs`\n";
    let mut st = state_for(text, dir("proj", vec![file("a.rs", 1), file("b.rs", 1)]));
    add_manual_include(&mut st, s("extra.txt"));
    let first = st.selected_paths();
    let second = st.selected_paths();
    assert_eq!(first, second);
    // ascending and duplicate-free
    for w in first.windows(2) {
        assert!(w[0] < w[1]);
    }
}

#[test]
fn resolution_sorts_and_dedups() {
    let cats = vec![
        Category {
            kind: CategoryKind::Source,
            files: vec![s("z.rs"), s("a.rs"), s("z.rs")],
            enabled: true,
        },
    ];
    let subs = Vec::new();
    let excl = ExcludeList::new();
    let manual = vec![s("a.rs")];
    let ignored = Vec::new();
    let r = resolve_selection(&cats, &subs, &excl, &manual, &ignored);
    assert_eq!(r, vec![s("a.rs"), s("z.rs")]);
}

#[test]
fn gitignore_filter_applies_and_releases() {
    let mut builder = ignore::gitignore::GitignoreBuilder::new("proj");
    builder.add_line(None, "*.log").unwrap();
    let gi = builder.build().unwrap();
    let filter = GitignoreFilter::new(gi);
    assert!(filter.has_filter());
    assert!(filter.is_ignored("proj", "debug.log"));
    assert!(!filter.is_ignored("proj", "main.rs"));

    let root = dir("proj", vec![file("main.rs", 1), file("debug.log", 1)]);
    let r = scan(&root);
    let cats = from_heuristics(&r.tree);
    let mut st = AppState {
        root: s("proj"),
        tree: r.tree,
        file_sizes: r.file_sizes,
        categories: cats,
        subsystems: Vec::new(),
        exclude: ExcludeList::new(),
        manual_includes: Vec::new(),
        has_semmap: false,
        has_gitignore: true,
        respect_gitignore: true,
        gitignore_filter: filter,
        all_collapsed: false,
        focus: Focus::Categories,
        cat_cursor: 0,
        sub_cursor: 0,
        exclude_cursor: 0,
        tree_cursor: 0,
    };
    // the log file is an asset; enable every category so only the ignore
    // filter holds it back
    st.cat_cursor = 1;
    toggle_cat(&mut st);
    assert!(st.are_all_selected());
    assert_eq!(st.selected_paths(), vec![s("main.rs")]);
    // toggling the ignore filter off re-admits it on the next resolution
    toggle_gitignore(&mut st);
    assert!(!st.respect_gitignore);
    assert_eq!(st.selected_paths(), vec![s("debug.log"), s("main.rs")]);
}

#[test]
fn exclude_list_toggles() {
    let mut ex = ExcludeList::new();
    assert!(ex.is_empty());
    ex.toggle(s("a.rs"));
    assert!(ex.contains("a.rs"));
    assert!(!ex.contains("b.rs"));
    assert_eq!(ex.items(), &vec![s("a.rs")]);
    ex.toggle(s("a.rs"));
    assert!(!ex.contains("a.rs"));
    assert!(ex.is_empty());
}

#[test]
fn cursor_stepping() {
    assert_eq!(step(0, true, 3), 1);
    assert_eq!(step(2, true, 3), 2);
    assert_eq!(step(1, false, 3), 0);
    assert_eq!(step(0, false, 3), 0);
    assert_eq!(step(5, true, 0), 0);
}

#[test]
fn focus_cycle_skips_missing_subsystems() {
    let text = "\
## Layer 0 -- core\n\
`a.rs`\n";
    let mut st = state_for(text, dir("proj", vec![file("a.rs", 1)]));
    assert_eq!(st.subsystems.len(), 0);
    assert_eq!(st.focus, Focus::Categories);
    cycle_focus(&mut st);
    assert_eq!(st.focus, Focus::Tree);
    cycle_focus(&mut st);
    assert_eq!(st.focus, Focus::Categories);
}

#[test]
fn toggle_cat_rows() {
    let text = "\
## Layer 0 -- core\n\
`a.rs`\n";
    let mut st = state_for(text, dir("proj", vec![file("a.rs", 1)]));
    // row 0 collapses the whole tree
    st.cat_cursor = 0;
    toggle_cat(&mut st);
    assert!(st.all_collapsed);
    assert!(!st.tree.expanded);
    // row 1 flips every category to the same side; everything starts
    // enabled here, so the first toggle deselects
    st.cat_cursor = 1;
    toggle_cat(&mut st);
    assert!(st.categories.iter().all(|c| !c.enabled));
    toggle_cat(&mut st);
    assert!(st.categories.iter().all(|c| c.enabled));
    // without an ignore file, row 2 addresses the first category
    st.cat_cursor = 2;
    toggle_cat(&mut st);
    assert!(!st.categories[0].enabled);
}

#[test]
fn subsystem_toggle_narrows_selection() {
    let text = "\
## Layer 0 -- core\n\
`a.rs`\n\
`b.rs`\n\
graph TD\n\
a_rs --> b_rs\n";
    let mut st = state_for(text, dir("proj", vec![file("a.rs", 1), file("b.rs", 1)]));
    assert_eq!(st.selected_paths(), vec![s("a.rs"), s("b.rs")]);
    st.focus = Focus::Subsystems;
    st.sub_cursor = 0;
    toggle_current(&mut st);
    assert!(!st.subsystems[0].enabled);
    assert_eq!(st.selected_paths().len(), 0);
}

#[test]
fn tree_cursor_moves_and_excludes() {
    let text = "\
## Layer 0 -- core\n\
`a.rs`\n";
    let mut st = state_for(text, dir("proj", vec![file("a.rs", 1), file("b.rs", 1)]));
    st.focus = Focus::Tree;
    // rows: the root, then a.rs, then b.rs
    move_cursor(&mut st, true);
    assert_eq!(st.tree_cursor(), 1);
    exclude_at_cursor(&mut st);
    assert!(st.exclude.contains("a.rs"));
    assert_eq!(st.selected_paths().len(), 0);
}

#[test]
fn unexclude_removes_under_cursor() {
    let text = "\
## Layer 0 -- core\n\
`a.rs`\n";
    let mut st = state_for(text, dir("proj", vec![file("a.rs", 1)]));
    st.exclude.toggle(s("x.rs"));
    st.exclude.toggle(s("y.rs"));
    st.focus = Focus::Exclude;
    st.exclude_cursor = 0;
    pakr::keys::unexclude_current(&mut st);
    assert!(!st.exclude.contains("x.rs"));
    assert!(st.exclude.contains("y.rs"));
}

#[test]
fn toggle_expand_collapses_directory_row() {
    let text = "\
## Layer 0 -- core\n\
`src/a.rs`\n";
    let mut st = state_for(
        text,
        dir("proj", vec![dir("src", vec![file("a.rs", 1)])]),
    );
    st.focus = Focus::Tree;
    // rows: the root, src, src/a.rs
    assert_eq!(pakr::scanner::flatten_visible(&st.tree).len(), 3);
    st.set_tree_cursor(1);
    pakr::keys::toggle_expand(&mut st);
    assert_eq!(pakr::scanner::flatten_visible(&st.tree).len(), 2);
}

#[test]
fn clamp_pulls_cursors_into_range() {
    let text = "\
## Layer 0 -- core\n\
`a.rs`\n";
    let mut st = state_for(text, dir("proj", vec![file("a.rs", 1)]));
    st.cat_cursor = 99;
    st.sub_cursor = 99;
    st.exclude_cursor = 99;
    st.clamp_cursors();
    // two control rows and one category, no ignore row
    assert_eq!(st.cat_list_len(), 3);
    assert_eq!(st.cat_cursor, 2);
    assert_eq!(st.sub_cursor, 0);
    assert_eq!(st.exclude_cursor, 0);
}

#[test]
fn layer_category_shows_its_label() {
    let text = "\
## Layer 2 -- engine\n\
`a.rs`\n";
    let st = state_for(text, dir("proj", vec![file("a.rs", 1)]));
    assert_eq!(st.categories[0].name(), "engine");
}

#[test]
fn size_index_later_entry_wins() {
    let mut index = SizeIndex::new();
    index.insert(s("a.rs"), 10);
    index.insert(s("a.rs"), 20);
    assert_eq!(index.get("a.rs"), Some(20));
}

#[test]
fn totals_follow_selection() {
    let text = "\
## Layer 0 -- core\n\
`a.rs`\n\
`b.rs`\n";
    let st = state_for(text, dir("proj", vec![file("a.rs", 300), file("b.rs", 30)]));
    assert_eq!(st.total_bytes(), 330);
    assert_eq!(st.total_tokens(), 110);
    let index = SizeIndex::new();
    assert_eq!(index.get("a.rs"), None);
}
