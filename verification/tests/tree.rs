use pakr::categories::{from_heuristics, from_semmap, is_build, is_config, is_doc, is_source};
use pakr::scanner::{
    all_files, collapse_all, expand_all, flatten_visible, scan, toggle_node_expanded, RawEntry,
};
use pakr::semmap::parse;
use pakr::types::CategoryKind;

fn s(x: &str) -> String {
    x.to_string()
}

fn file(name: &str, size: u64) -> RawEntry {
    RawEntry { name: s(name), size, children: None }
}

fn dir(name: &str, children: Vec<RawEntry>) -> RawEntry {
    RawEntry { name: s(name), size: 0, children: Some(children) }
}

fn sample_root() -> RawEntry {
    dir(
        "proj",
        vec![
            file("zeta.rs", 30),
            dir("src", vec![file("main.rs", 10), file("lib.rs", 20)]),
            file(".hidden", 1),
            dir(".git", vec![file("HEAD", 5)]),
            dir("node_modules", vec![file("x.js", 5)]),
            file(".gitignore", 4),
            file("README.md", 7),
        ],
    )
}

#[test]
fn scan_skips_and_orders() {
    let r = scan(&sample_root());
    let names: Vec<&str> = r.tree.children.iter().map(|c| c.name.as_str()).collect();
    // directories first, then files, each lexicographically; dotfiles and
    // generated directories skipped, the whitelisted dotfile kept
    assert_eq!(names, vec!["src", ".gitignore", "README.md", "zeta.rs"]);
    let src = &r.tree.children[0];
    assert!(src.is_dir);
    assert!(src.expanded);
    assert_eq!(src.path, "src");
    let kid_names: Vec<&str> = src.children.iter().map(|c| c.name.as_str()).collect();
    assert_eq!(kid_names, vec!["lib.rs", "main.rs"]);
    assert_eq!(src.children[0].path, "src/lib.rs");
    assert_eq!(r.file_sizes.get("src/lib.rs"), Some(20));
    assert_eq!(r.file_sizes.get("zeta.rs"), Some(30));
    assert_eq!(r.file_sizes.get(".hidden"), None);
}

#[test]
fn all_files_in_tree_order() {
    let r = scan(&sample_root());
    let files = all_files(&r.tree);
    assert_eq!(
        files,
        vec![s("src/lib.rs"), s("src/main.rs"), s(".gitignore"), s("README.md"), s("zeta.rs")]
    );
}

#[test]
fn flatten_respects_expansion() {
    let r = scan(&sample_root());
    let mut tree = r.tree;
    let visible = flatten_visible(&tree);
    // root, src, its two files, then the three root files
    assert_eq!(visible.len(), 7);
    assert_eq!(visible[1].path, "src");
    assert_eq!(visible[1].depth, 1);
    assert_eq!(visible[2].path, "src/lib.rs");
    assert_eq!(visible[2].depth, 2);
    toggle_node_expanded(&mut tree, "src");
    let collapsed = flatten_visible(&tree);
    assert_eq!(collapsed.len(), 5);
    assert!(collapsed.iter().all(|it| it.path != "src/lib.rs"));
    toggle_node_expanded(&mut tree, "src");
    assert_eq!(flatten_visible(&tree).len(), 7);
}

#[test]
fn collapse_and_expand_all() {
    let r = scan(&sample_root());
    let mut tree = r.tree;
    collapse_all(&mut tree);
    // the root itself is collapsed, so only it shows
    assert_eq!(flatten_visible(&tree).len(), 1);
    expand_all(&mut tree);
    assert_eq!(flatten_visible(&tree).len(), 7);
}

#[test]
fn heuristic_predicates() {
    assert!(is_source("src/app.rs"));
    assert!(is_source("x/y.go"));
    assert!(!is_source("notes.txt"));
    assert!(is_config("Cargo.toml"));
    assert!(is_config("Dockerfile"));
    assert!(is_config("x/.eslintrc"));
    assert!(is_doc("README.md"));
    assert!(is_doc("LICENSE"));
    assert!(is_doc("ChangeLog.old"));
    assert!(is_build("Cargo.lock"));
    assert!(is_build("npm-shrinkwrap-lock.json"));
    assert!(is_build("package-lock.json"));
    assert!(!is_build("lockfile.rs"));
}

#[test]
fn heuristic_categories_partition() {
    let root = dir(
        "p",
        vec![
            file("a.rs", 1),
            file("b.toml", 1),
            file("c.md", 1),
            file("d.lock", 1),
            file("e.bin", 1),
            // a source extension takes precedence over the readme prefix
            file("readme.rs", 1),
        ],
    );
    let r = scan(&root);
    let cats = from_heuristics(&r.tree);
    assert_eq!(cats.len(), 5);
    assert!(matches!(cats[0].kind, CategoryKind::Source));
    assert!(cats[0].enabled);
    assert_eq!(cats[0].files, vec![s("a.rs"), s("readme.rs")]);
    assert!(matches!(cats[1].kind, CategoryKind::Config));
    assert!(cats[1].enabled);
    assert_eq!(cats[1].files, vec![s("b.toml")]);
    assert!(matches!(cats[2].kind, CategoryKind::Docs));
    assert!(!cats[2].enabled);
    assert_eq!(cats[2].files, vec![s("c.md")]);
    assert!(matches!(cats[3].kind, CategoryKind::Build));
    assert!(!cats[3].enabled);
    assert_eq!(cats[3].files, vec![s("d.lock")]);
    assert!(matches!(cats[4].kind, CategoryKind::Assets));
    assert!(!cats[4].enabled);
    assert_eq!(cats[4].files, vec![s("e.bin")]);
}

#[test]
fn manifest_categories_split_unclaimed() {
    let text = "\
## Layer 0 -- core\n\
`a.rs`\n\
## Layer 3 -- later\n\
`b.rs`\n";
    let d = parse(&text);
    let root = dir("p", vec![file("a.rs", 1), file("b.rs", 1), file("c.md", 1), file("x.bin", 1)]);
    let r = scan(&root);
    let cats = from_semmap(&d, &r.tree);
    assert_eq!(cats.len(), 4);
    match &cats[0].kind {
        CategoryKind::SemmapLayer { index, label } => {
            assert_eq!(*index, 0);
            assert_eq!(label, "core");
        },
        _ => panic!("expected a layer category"),
    }
    assert!(cats[0].enabled);
    assert!(!cats[1].enabled);
    assert!(matches!(cats[2].kind, CategoryKind::Docs));
    assert_eq!(cats[2].files, vec![s("c.md")]);
    assert!(!cats[2].enabled);
    assert!(matches!(cats[3].kind, CategoryKind::Assets));
    assert_eq!(cats[3].files, vec![s("x.bin")]);
    assert!(!cats[3].enabled);
}

#[test]
fn manifest_categories_omit_empty_buckets() {
    let text = "\
## Layer 1 -- all\n\
`a.rs`\n";
    let d = parse(&text);
    let root = dir("p", vec![file("a.rs", 1)]);
    let r = scan(&root);
    let cats = from_semmap(&d, &r.tree);
    assert_eq!(cats.len(), 1);
}

#[test]
fn category_names_and_estimates() {
    let root = dir("p", vec![file("a.rs", 9), file("b.rs", 10)]);
    let r = scan(&root);
    let cats = from_heuristics(&r.tree);
    assert_eq!(cats[0].name(), "Source");
    assert_eq!(cats[2].name(), "Docs");
    assert_eq!(cats[3].name(), "Build & Generated");
    assert_eq!(cats[4].name(), "Assets & Binary");
    // 9 / 3 + 10 / 3 == 3 + 3
    assert_eq!(cats[0].token_estimate(&r.file_sizes), 6);
}
