use pakr::display::{calc_summary_h, fmt_bytes};
use pakr::packer::{build_export, project_name};
use pakr::semmap::parse;
use pakr::strutil::{parse_u8, str_le, u64_to_string};

fn s(x: &str) -> String {
    x.to_string()
}

#[test]
fn decimal_rendering() {
    assert_eq!(u64_to_string(0), "0");
    assert_eq!(u64_to_string(7), "7");
    assert_eq!(u64_to_string(12345), "12345");
    assert_eq!(u64_to_string(u64::MAX), "18446744073709551615");
}

#[test]
fn byte_formatting() {
    assert_eq!(fmt_bytes(0), "0 B");
    assert_eq!(fmt_bytes(1023), "1023 B");
    assert_eq!(fmt_bytes(1024), "1 KB");
    assert_eq!(fmt_bytes(2048), "2 KB");
    assert_eq!(fmt_bytes(1048575), "1023 KB");
    assert_eq!(fmt_bytes(3 * 1048576), "3 MB");
}

#[test]
fn summary_height_caps_rows() {
    assert_eq!(calc_summary_h(0, 0), 10);
    assert_eq!(calc_summary_h(2, 1), 13);
    assert_eq!(calc_summary_h(9, 9), 18);
}

#[test]
fn parse_u8_accepts_digits_only() {
    assert_eq!(parse_u8("0"), Some(0));
    assert_eq!(parse_u8("007"), Some(7));
    assert_eq!(parse_u8("255"), Some(255));
    assert_eq!(parse_u8("256"), None);
    assert_eq!(parse_u8(""), None);
    assert_eq!(parse_u8("12a"), None);
    assert_eq!(parse_u8(" 3"), None);
}

#[test]
fn string_order_is_lexicographic() {
    assert!(str_le("a", "b"));
    assert!(str_le("a", "a"));
    assert!(str_le("a", "ab"));
    assert!(!str_le("b", "a"));
    assert!(str_le("A", "a"));
}

#[test]
fn manifest_layers_and_project_name() {
    let text = "\
# project -- demo\n\
prose outside any layer\n\
## Layer 0 -- core\n\
`src/main.rs`\n\
`src/util.rs`\n\
not a path line\n\
`noslashnodot`\n\
## Layer 3 -- extras\n\
`docs/notes.md`\n";
    let d = parse(text);
    assert_eq!(d.project_name, "demo");
    assert_eq!(d.layers.len(), 2);
    assert_eq!(d.layers[0].index, 0);
    assert_eq!(d.layers[0].label, "core");
    assert_eq!(d.layers[0].files, vec![s("src/main.rs"), s("src/util.rs")]);
    assert_eq!(d.layers[1].index, 3);
    assert_eq!(d.layers[1].label, "extras");
    assert_eq!(d.layers[1].files, vec![s("docs/notes.md")]);
    assert_eq!(d.edges.len(), 0);
}

#[test]
fn manifest_malformed_headers_are_ignored() {
    let text = "\
## Layer x -- bad\n\
`lost.rs`\n\
## Layer 1 -- good\n\
`kept.rs`\n\
## Layer 999 -- toolarge\n\
`also_lost.rs`\n";
    let d = parse(text);
    assert_eq!(d.layers.len(), 1);
    assert_eq!(d.layers[0].label, "good");
    assert_eq!(d.layers[0].files, vec![s("kept.rs")]);
}

#[test]
fn manifest_edges_resolve_by_synthetic_id() {
    let text = "\
## Layer 0 -- core\n\
`src/a.rs`\n\
`src/b-x.rs`\n\
graph TD\n\
src_a_rs --> src_b_x_rs\n\
src_a_rs --> unknown_node\n";
    let d = parse(text);
    assert_eq!(d.edges.len(), 1);
    assert_eq!(d.edges[0].from, "src/a.rs");
    assert_eq!(d.edges[0].to, "src/b-x.rs");
}

#[test]
fn manifest_edges_need_graph_marker() {
    let text = "\
## Layer 0 -- core\n\
`src/a.rs`\n\
`src/b.rs`\n\
src_a_rs --> src_b_rs\n";
    let d = parse(text);
    assert_eq!(d.edges.len(), 0);
}

#[test]
fn manifest_adjacency_groups_by_source() {
    let text = "\
## Layer 0 -- core\n\
`a.rs`\n\
`b.rs`\n\
`c.rs`\n\
graph TD\n\
a_rs --> b_rs\n\
a_rs --> c_rs\n\
b_rs --> c_rs\n";
    let d = parse(text);
    let adj = d.adjacency();
    assert_eq!(adj.len(), 2);
    assert_eq!(adj[0].0, "a.rs");
    assert_eq!(adj[0].1, vec![s("b.rs"), s("c.rs")]);
    assert_eq!(adj[1].0, "b.rs");
    assert_eq!(adj[1].1, vec![s("c.rs")]);
}

#[test]
fn export_layout() {
    let files = vec![
        (s("a.txt"), Ok(s("hello\n"))),
        (s("b.txt"), Ok(s("no newline"))),
        (s("c.txt"), Err(s("permission denied"))),
    ];
    let out = build_export("demo", &files);
    let expected = "// PAKR COMBINED TEXT EXPORT //\n// Project: demo\n\n\
// ===== START: a.txt =====\nhello\n// ===== END: a.txt =====\n\n\
// ===== START: b.txt =====\nno newline\n// ===== END: b.txt =====\n\n\
// ERROR: c.txt: permission denied\n\n";
    assert_eq!(out, expected);
}

#[test]
fn project_name_is_last_component() {
    assert_eq!(project_name("/home/user/proj"), "proj");
    assert_eq!(project_name("proj"), "proj");
    assert_eq!(project_name(""), "project");
}
