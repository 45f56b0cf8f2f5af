//! Directory scanner: turns raw directory listings into the ordered file
//! tree and the size index, and offers the tree traversals the session
//! needs (all files, visible flattening, expand/collapse).
use crate::strutil::{lex_le, str_eq, str_le, views};
use crate::types::{lemma_nodes_view, node_view, nodes_view, FileNode, FileNodeV, SizeIndex};
use vstd::prelude::*;

verus! {

/// One filesystem entry as the platform reports it: a name, a byte size,
/// and child entries when the entry is a directory. The scanner owes the
/// caller nothing about the order of `children`.
pub struct RawEntry {
    pub name: String,
    pub size: u64,
    pub children: Option<Vec<RawEntry>>,
}

/// The scanned tree and the size index over its files.
pub struct ScanResult {
    pub tree: FileNode,
    pub file_sizes: SizeIndex,
}

/// One row of the flattened visible tree.
pub struct FlatItem {
    pub path: String,
    pub name: String,
    pub is_dir: bool,
    pub expanded: bool,
    pub depth: usize,
}

/// The mathematical shape of a flattened row.
pub ghost struct FlatItemV {
    pub path: Seq<char>,
    pub name: Seq<char>,
    pub is_dir: bool,
    pub expanded: bool,
    pub depth: usize,
}

pub open spec fn flat_view(it: FlatItem) -> FlatItemV {
    FlatItemV {
        path: it.path@,
        name: it.name@,
        is_dir: it.is_dir,
        expanded: it.expanded,
        depth: it.depth,
    }
}

pub open spec fn flats_view(s: Seq<FlatItem>) -> Seq<FlatItemV> {
    s.map_values(|it: FlatItem| flat_view(it))
}

/// Entries whose name starts with a dot are skipped, except the two
/// whitelisted dotfiles; entries named like generated or dependency
/// directories are skipped too.
pub open spec fn keep_name(name: Seq<char>) -> bool {
    &&& (name.len() == 0 || name[0] != '.' || name == ".gitignore"@ || name == ".slopchopignore"@)
    &&& name != ".git"@
    &&& name != "node_modules"@
    &&& name != "target"@
    &&& name != "dist"@
    &&& name != "build"@
    &&& name != ".next"@
    &&& name != ".nuxt"@
    &&& name != "__pycache__"@
    &&& name != "coverage"@
    &&& name != ".cache"@
}

/// Whether an entry with this name survives the scanner's skip rules.
pub fn keep_name_exec(name: &str) -> (r: bool)
    ensures
        r == keep_name(name@),
{
    let starts_dot = if name.unicode_len() == 0 {
        false
    } else {
        name.get_char(0) == '.'
    };
    if starts_dot && !str_eq(name, ".gitignore") && !str_eq(name, ".slopchopignore") {
        return false;
    }
    if str_eq(name, ".git") || str_eq(name, "node_modules") || str_eq(name, "target") || str_eq(
        name,
        "dist",
    ) || str_eq(name, "build") || str_eq(name, ".next") || str_eq(name, ".nuxt") || str_eq(
        name,
        "__pycache__",
    ) || str_eq(name, "coverage") || str_eq(name, ".cache") {
        return false;
    }
    true
}

/// A child's path relative to the root: the parent's path, a slash, and
/// the child's name; just the name under the root itself.
pub open spec fn joined(parent: Seq<char>, name: Seq<char>) -> Seq<char> {
    if parent.len() == 0 {
        name
    } else {
        parent + seq!['/'] + name
    }
}

/// Joins a child name onto its parent's relative path.
pub fn join_path(parent: &str, name: &str) -> (r: String)
    ensures
        r@ == joined(parent@, name@),
{
    if parent.unicode_len() == 0 {
        name.to_owned()
    } else {
        let mut s = parent.to_owned();
        s.append("/");
        s.append(name);
        proof {
            reveal_strlit("/");
            assert("/"@ =~= seq!['/']);
        }
        s
    }
}

/// Tree order for siblings: directories before files, same-flag siblings
/// lexicographically by name.
pub open spec fn node_le(a: FileNodeV, b: FileNodeV) -> bool {
    if a.is_dir && !b.is_dir {
        true
    } else if !a.is_dir && b.is_dir {
        false
    } else {
        lex_le(a.name, b.name)
    }
}

/// `x` inserted into `s` behind every element at or before it, keeping
/// the order of equals stable.
pub open spec fn insert_node(s: Seq<FileNodeV>, x: FileNodeV) -> Seq<FileNodeV>
    decreases s.len(),
{
    if s.len() == 0 {
        seq![x]
    } else if node_le(s.last(), x) {
        s.push(x)
    } else {
        insert_node(s.drop_last(), x).push(s.last())
    }
}

/// Stable insertion sort of siblings under `node_le`.
pub open spec fn sort_nodes(s: Seq<FileNodeV>) -> Seq<FileNodeV>
    decreases s.len(),
{
    if s.len() == 0 {
        s
    } else {
        insert_node(sort_nodes(s.drop_last()), s.last())
    }
}

/// Whether `a` sorts at or before `b` among siblings.
fn node_le_exec(a: &FileNode, b: &FileNode) -> (r: bool)
    ensures
        r == node_le(node_view(*a), node_view(*b)),
{
    if a.is_dir && !b.is_dir {
        true
    } else if !a.is_dir && b.is_dir {
        false
    } else {
        str_le(a.name.as_str(), b.name.as_str())
    }
}

/// When `x` belongs at position `j`, inserting it there is what
/// `insert_node` does.
proof fn lemma_insert_node_at(s: Seq<FileNodeV>, x: FileNodeV, j: int)
    requires
        0 <= j <= s.len(),
        forall|k: int| j <= k < s.len() ==> !node_le(#[trigger] s[k], x),
        j > 0 ==> node_le(s[j - 1], x),
    ensures
        insert_node(s, x) == s.insert(j, x),
    decreases s.len(),
{
    if j == s.len() {
        if s.len() == 0 {
            assert(insert_node(s, x) =~= s.insert(0, x));
        } else {
            assert(insert_node(s, x) =~= s.insert(j, x));
        }
    } else {
        assert(!node_le(s.last(), x));
        lemma_insert_node_at(s.drop_last(), x, j);
        assert(insert_node(s, x) =~= s.insert(j, x));
    }
}

/// Inserts `x` into the sibling list at its sorted position.
fn insert_sorted_node(v: &mut Vec<FileNode>, x: FileNode)
    ensures
        nodes_view(final(v)@) == insert_node(nodes_view(old(v)@), node_view(x)),
{
    proof {
        lemma_nodes_view(v@);
    }
    let mut j: usize = v.len();
    while j > 0 && !node_le_exec(&v[j - 1], &x)
        invariant
            j <= v@.len(),
            *v == *old(v),
            forall|k: int| j <= k < v@.len() ==> !node_le(nodes_view(v@)[k], node_view(x)),
        decreases j,
    {
        proof {
            lemma_nodes_view(v@);
        }
        j = j - 1;
    }
    proof {
        lemma_nodes_view(v@);
        lemma_insert_node_at(nodes_view(v@), node_view(x), j as int);
        lemma_nodes_view(v@.insert(j as int, x));
        assert forall|k: int| 0 <= k < v@.len() + 1 implies nodes_view(v@.insert(j as int, x))[k]
            == nodes_view(v@).insert(j as int, node_view(x))[k] by {
            assert(nodes_view(v@.insert(j as int, x))[k] == node_view(v@.insert(j as int, x)[k]));
        }
        assert(nodes_view(v@.insert(j as int, x)) =~= nodes_view(v@).insert(
            j as int,
            node_view(x),
        ));
    }
    v.insert(j, x);
}

/// The shape the scanner gives an entry: files keep their size, skipped
/// children disappear, surviving children come sorted, directories start
/// expanded.
pub open spec fn spec_walk(e: RawEntry, path: Seq<char>) -> FileNodeV
    decreases e,
{
    match e.children {
        Option::None => FileNodeV {
            path: path,
            name: e.name@,
            is_dir: false,
            size: e.size,
            children: Seq::empty(),
            expanded: false,
        },
        Option::Some(cs) => FileNodeV {
            path: path,
            name: e.name@,
            is_dir: true,
            size: 0,
            children: sort_nodes(spec_walk_children(cs@, path)),
            expanded: true,
        },
    }
}

/// The shapes of the surviving children, in the order they were listed.
pub open spec fn spec_walk_children(cs: Seq<RawEntry>, parent: Seq<char>) -> Seq<FileNodeV>
    decreases cs,
{
    if cs.len() == 0 {
        Seq::empty()
    } else {
        let rest = spec_walk_children(cs.drop_last(), parent);
        let c = cs.last();
        if keep_name(c.name@) {
            rest.push(spec_walk(c, joined(parent, c.name@)))
        } else {
            rest
        }
    }
}

/// Builds the tree node for one raw entry.
fn walk_entry(e: &RawEntry, path: String) -> (n: FileNode)
    ensures
        node_view(n) == spec_walk(*e, path@),
    decreases *e,
{
    match &e.children {
        Option::None => {
            let n = FileNode {
                path,
                name: e.name.clone(),
                is_dir: false,
                size: e.size,
                children: Vec::new(),
                expanded: false,
            };
            proof {
                assert(nodes_view(n.children@) =~= Seq::<FileNodeV>::empty());
            }
            n
        },
        Option::Some(cs) => {
            let count = cs.len();
            let mut kids: Vec<FileNode> = Vec::new();
            let mut i: usize = 0;
            proof {
                assert(cs@.take(0) =~= Seq::<RawEntry>::empty());
                assert(nodes_view(kids@) =~= spec_walk_children(cs@.take(0), path@));
            }
            while i < count
                invariant
                    i <= count,
                    count == cs@.len(),
                    e.children is Some,
                    *cs == e.children->0,
                    nodes_view(kids@) == spec_walk_children(cs@.take(i as int), path@),
                decreases count - i,
            {
                proof {
                    assert(cs@.take(i + 1).drop_last() =~= cs@.take(i as int));
                    assert(cs@.take(i + 1).last() == cs@[i as int]);
                }
                let c = &cs[i];
                if keep_name_exec(c.name.as_str()) {
                    let child_path = join_path(path.as_str(), c.name.as_str());
                    proof {
                        assert(decreases_to!(*e => e.children->0@[i as int]));
                        assert(e.children->0@[i as int] == *c);
                        assert(decreases_to!(*e => *c));
                    }
                    let node = walk_entry(c, child_path);
                    proof {
                        assert(kids@.push(node).drop_last() =~= kids@);
                        assert(kids@.push(node).last() == node);
                        assert(nodes_view(kids@.push(node)) =~= nodes_view(kids@).push(
                            node_view(node),
                        ));
                    }
                    kids.push(node);
                }
                i = i + 1;
            }
            proof {
                assert(cs@.take(count as int) =~= cs@);
            }
            let sorted = sort_nodes_exec(kids);
            FileNode {
                path,
                name: e.name.clone(),
                is_dir: true,
                size: 0,
                children: sorted,
                expanded: true,
            }
        },
    }
}

/// Sorts a sibling list with a stable insertion sort.
fn sort_nodes_exec(v: Vec<FileNode>) -> (r: Vec<FileNode>)
    ensures
        nodes_view(r@) == sort_nodes(nodes_view(v@)),
{
    let ghost orig = v@;
    let mut out: Vec<FileNode> = Vec::new();
    let mut rest = v;
    proof {
        assert(orig.take(0) =~= Seq::<FileNode>::empty());
        assert(nodes_view(out@) =~= sort_nodes(nodes_view(orig.take(0))));
    }
    let count = rest.len();
    let mut i: usize = 0;
    while i < count
        invariant
            i <= count,
            count == rest@.len() == orig.len(),
            forall|k: int| i <= k < count ==> rest@[k] == orig[k],
            nodes_view(out@) == sort_nodes(nodes_view(orig.take(i as int))),
        decreases count - i,
    {
        proof {
            assert(orig.take(i + 1).drop_last() =~= orig.take(i as int));
            assert(orig.take(i + 1).last() == orig[i as int]);
            lemma_nodes_view(orig.take(i + 1));
            lemma_nodes_view(orig.take(i as int));
            assert(nodes_view(orig.take(i + 1)).drop_last() =~= nodes_view(orig.take(i as int)));
            assert(nodes_view(orig.take(i + 1)).last() == node_view(orig[i as int]));
        }
        let x = take_at(&mut rest, i);
        insert_sorted_node(&mut out, x);
        i = i + 1;
    }
    proof {
        assert(orig.take(count as int) =~= orig);
    }
    out
}

/// The sizes of the files in a subtree, keyed by relative path.
pub open spec fn tree_sizes(n: FileNodeV) -> Map<Seq<char>, u64>
    decreases n,
{
    if !n.is_dir {
        Map::empty().insert(n.path, n.size)
    } else {
        trees_sizes(n.children)
    }
}

/// The sizes of the files under a sequence of subtrees; a later subtree
/// wins on a repeated path.
pub open spec fn trees_sizes(cs: Seq<FileNodeV>) -> Map<Seq<char>, u64>
    decreases cs,
{
    if cs.len() == 0 {
        Map::empty()
    } else {
        trees_sizes(cs.drop_last()).union_prefer_right(tree_sizes(cs.last()))
    }
}

/// Records the size of every file in the subtree.
fn collect_sizes(node: &FileNode, sizes: &mut SizeIndex)
    ensures
        final(sizes)@ == old(sizes)@.union_prefer_right(tree_sizes(node_view(*node))),
    decreases *node,
{
    if !node.is_dir {
        sizes.insert(node.path.clone(), node.size);
        proof {
            assert(old(sizes)@.insert(node.path@, node.size) =~= old(sizes)@.union_prefer_right(
                tree_sizes(node_view(*node)),
            ));
        }
    } else {
        let count = node.children.len();
        let mut i: usize = 0;
        proof {
            assert(node.children@.take(0) =~= Seq::<FileNode>::empty());
            assert(nodes_view(node.children@.take(0)) =~= Seq::<FileNodeV>::empty());
            assert(sizes@.union_prefer_right(trees_sizes(nodes_view(node.children@.take(0)))) =~= sizes@);
        }
        while i < count
            invariant
                i <= count,
                count == node.children@.len(),
                node.is_dir,
                sizes@ == old(sizes)@.union_prefer_right(
                    trees_sizes(nodes_view(node.children@.take(i as int))),
                ),
            decreases count - i,
        {
            let c = &node.children[i];
            proof {
                assert(decreases_to!(*node => node.children@[i as int]));
                assert(node.children@[i as int] == *c);
            }
            collect_sizes(c, sizes);
            proof {
                assert(node.children@.take(i + 1).drop_last() =~= node.children@.take(i as int));
                assert(node.children@.take(i + 1).last() == node.children@[i as int]);
                lemma_nodes_view(node.children@.take(i + 1));
                lemma_nodes_view(node.children@.take(i as int));
                assert(nodes_view(node.children@.take(i + 1)).drop_last() =~= nodes_view(
                    node.children@.take(i as int),
                ));
                assert(sizes@ =~= old(sizes)@.union_prefer_right(
                    trees_sizes(nodes_view(node.children@.take(i + 1))),
                ));
            }
            i = i + 1;
        }
        proof {
            assert(node.children@.take(count as int) =~= node.children@);
        }
    }
}

/// Scans a raw directory listing: builds the ordered tree, rooted at a
/// node with the empty relative path, and the size index of its files.
pub fn scan(root: &RawEntry) -> (r: ScanResult)
    ensures
        node_view(r.tree) == spec_walk(*root, Seq::empty()),
        r.file_sizes@ == tree_sizes(node_view(r.tree)),
{
    let tree = walk_entry(root, String::new());
    let mut file_sizes = SizeIndex::new();
    collect_sizes(&tree, &mut file_sizes);
    proof {
        assert(Map::<Seq<char>, u64>::empty().union_prefer_right(
            tree_sizes(node_view(tree)),
        ) =~= tree_sizes(node_view(tree)));
    }
    ScanResult { tree, file_sizes }
}

/// The relative paths of the files in a subtree, in tree order.
pub open spec fn spec_all_files(n: FileNodeV) -> Seq<Seq<char>>
    decreases n,
{
    if !n.is_dir {
        seq![n.path]
    } else {
        spec_all_files_of(n.children)
    }
}

/// The relative paths of the files under a sequence of subtrees.
pub open spec fn spec_all_files_of(cs: Seq<FileNodeV>) -> Seq<Seq<char>>
    decreases cs,
{
    if cs.len() == 0 {
        Seq::empty()
    } else {
        spec_all_files_of(cs.drop_last()) + spec_all_files(cs.last())
    }
}

/// The relative paths of every file (not directory) in the subtree, in
/// tree order.
pub fn all_files(node: &FileNode) -> (r: Vec<String>)
    ensures
        views(r@) == spec_all_files(node_view(*node)),
{
    let mut out: Vec<String> = Vec::new();
    collect_files(node, &mut out);
    proof {
        assert(views(Seq::<String>::empty()) + spec_all_files(node_view(*node)) =~= spec_all_files(
            node_view(*node),
        ));
        assert(views(Seq::<String>::empty()) =~= Seq::<Seq<char>>::empty());
    }
    out
}

fn collect_files(node: &FileNode, out: &mut Vec<String>)
    ensures
        views(final(out)@) == views(old(out)@) + spec_all_files(node_view(*node)),
    decreases *node,
{
    if !node.is_dir {
        out.push(node.path.clone());
        proof {
            assert(views(out@) =~= views(old(out)@) + spec_all_files(node_view(*node)));
        }
    } else {
        let count = node.children.len();
        let mut i: usize = 0;
        proof {
            assert(node.children@.take(0) =~= Seq::<FileNode>::empty());
            assert(nodes_view(node.children@.take(0)) =~= Seq::<FileNodeV>::empty());
            assert(views(out@) + spec_all_files_of(nodes_view(node.children@.take(0))) =~= views(
                out@,
            ));
        }
        while i < count
            invariant
                i <= count,
                count == node.children@.len(),
                node.is_dir,
                views(out@) == views(old(out)@) + spec_all_files_of(
                    nodes_view(node.children@.take(i as int)),
                ),
            decreases count - i,
        {
            let c = &node.children[i];
            proof {
                assert(decreases_to!(*node => node.children@[i as int]));
                assert(node.children@[i as int] == *c);
            }
            collect_files(c, out);
            proof {
                assert(node.children@.take(i + 1).drop_last() =~= node.children@.take(i as int));
                assert(node.children@.take(i + 1).last() == node.children@[i as int]);
                lemma_nodes_view(node.children@.take(i + 1));
                lemma_nodes_view(node.children@.take(i as int));
                assert(nodes_view(node.children@.take(i + 1)).drop_last() =~= nodes_view(
                    node.children@.take(i as int),
                ));
                assert(views(out@) =~= views(old(out)@) + spec_all_files_of(
                    nodes_view(node.children@.take(i + 1)),
                ));
            }
            i = i + 1;
        }
        proof {
            assert(node.children@.take(count as int) =~= node.children@);
        }
    }
}

/// `depth + 1`, staying within `usize`.
pub open spec fn spec_deeper(depth: usize) -> usize {
    if depth == usize::MAX {
        depth
    } else {
        (depth + 1) as usize
    }
}

/// The rows of the subtree that are visible right now: the node itself,
/// then, only under an expanded directory, its children in order.
pub open spec fn spec_flatten(n: FileNodeV, depth: usize) -> Seq<FlatItemV>
    decreases n,
{
    let row = FlatItemV {
        path: n.path,
        name: n.name,
        is_dir: n.is_dir,
        expanded: n.expanded,
        depth: depth,
    };
    if n.is_dir && n.expanded {
        seq![row] + spec_flatten_of(n.children, spec_deeper(depth))
    } else {
        seq![row]
    }
}

/// The visible rows under a sequence of subtrees.
pub open spec fn spec_flatten_of(cs: Seq<FileNodeV>, depth: usize) -> Seq<FlatItemV>
    decreases cs,
{
    if cs.len() == 0 {
        Seq::empty()
    } else {
        spec_flatten_of(cs.drop_last(), depth) + spec_flatten(cs.last(), depth)
    }
}

/// The currently visible rows of the tree, top to bottom: a node shows
/// only while every ancestor directory is expanded. Recomputed from the
/// current expand flags on every call.
pub fn flatten_visible(node: &FileNode) -> (r: Vec<FlatItem>)
    ensures
        flats_view(r@) == spec_flatten(node_view(*node), 0),
{
    let mut out: Vec<FlatItem> = Vec::new();
    push_flat(node, 0, &mut out);
    proof {
        assert(flats_view(Seq::<FlatItem>::empty()) =~= Seq::<FlatItemV>::empty());
        assert(flats_view(Seq::<FlatItem>::empty()) + spec_flatten(node_view(*node), 0)
            =~= spec_flatten(node_view(*node), 0));
    }
    out
}

fn push_flat(node: &FileNode, depth: usize, out: &mut Vec<FlatItem>)
    ensures
        flats_view(final(out)@) == flats_view(old(out)@) + spec_flatten(node_view(*node), depth),
    decreases *node,
{
    let row = FlatItem {
        path: node.path.clone(),
        name: node.name.clone(),
        is_dir: node.is_dir,
        expanded: node.expanded,
        depth,
    };
    out.push(row);
    if node.is_dir && node.expanded {
        let deeper = if depth == usize::MAX {
            depth
        } else {
            depth + 1
        };
        let count = node.children.len();
        let mut i: usize = 0;
        proof {
            assert(node.children@.take(0) =~= Seq::<FileNode>::empty());
            assert(nodes_view(node.children@.take(0)) =~= Seq::<FileNodeV>::empty());
            assert(flats_view(out@) =~= flats_view(old(out)@) + seq![
                FlatItemV {
                    path: node.path@,
                    name: node.name@,
                    is_dir: node.is_dir,
                    expanded: node.expanded,
                    depth: depth,
                },
            ] + spec_flatten_of(nodes_view(node.children@.take(0)), deeper));
        }
        while i < count
            invariant
                i <= count,
                count == node.children@.len(),
                node.is_dir,
                node.expanded,
                deeper == spec_deeper(depth),
                flats_view(out@) == flats_view(old(out)@) + seq![
                    FlatItemV {
                        path: node.path@,
                        name: node.name@,
                        is_dir: node.is_dir,
                        expanded: node.expanded,
                        depth: depth,
                    },
                ] + spec_flatten_of(nodes_view(node.children@.take(i as int)), deeper),
            decreases count - i,
        {
            let c = &node.children[i];
            proof {
                assert(decreases_to!(*node => node.children@[i as int]));
                assert(node.children@[i as int] == *c);
            }
            push_flat(c, deeper, out);
            proof {
                assert(node.children@.take(i + 1).drop_last() =~= node.children@.take(i as int));
                assert(node.children@.take(i + 1).last() == node.children@[i as int]);
                lemma_nodes_view(node.children@.take(i + 1));
                lemma_nodes_view(node.children@.take(i as int));
                assert(nodes_view(node.children@.take(i + 1)).drop_last() =~= nodes_view(
                    node.children@.take(i as int),
                ));
                assert(flats_view(out@) =~= flats_view(old(out)@) + seq![
                    FlatItemV {
                        path: node.path@,
                        name: node.name@,
                        is_dir: node.is_dir,
                        expanded: node.expanded,
                        depth: depth,
                    },
                ] + spec_flatten_of(nodes_view(node.children@.take(i + 1)), deeper));
            }
            i = i + 1;
        }
        proof {
            assert(node.children@.take(count as int) =~= node.children@);
            assert(flats_view(out@) =~= flats_view(old(out)@) + spec_flatten(
                node_view(*node),
                depth,
            ));
        }
    } else {
        proof {
            assert(flats_view(out@) =~= flats_view(old(out)@) + spec_flatten(
                node_view(*node),
                depth,
            ));
        }
    }
}

/// Every node whose path is `path` has its expanded flag flipped; all
/// else stays.
pub open spec fn spec_toggle(n: FileNodeV, path: Seq<char>) -> FileNodeV
    decreases n,
{
    if n.path == path {
        FileNodeV { expanded: !n.expanded, ..n }
    } else {
        FileNodeV { children: spec_toggle_all(n.children, path), ..n }
    }
}

pub open spec fn spec_toggle_all(cs: Seq<FileNodeV>, path: Seq<char>) -> Seq<FileNodeV>
    decreases cs,
{
    if cs.len() == 0 {
        Seq::empty()
    } else {
        spec_toggle_all(cs.drop_last(), path).push(spec_toggle(cs.last(), path))
    }
}

/// Flips the expand flag of the node addressed by `path`.
pub fn toggle_node_expanded(tree: &mut FileNode, path: &str)
    ensures
        node_view(*final(tree)) == spec_toggle(node_view(*old(tree)), path@),
    decreases *old(tree),
{
    if str_eq(tree.path.as_str(), path) {
        tree.expanded = !tree.expanded;
        return ;
    }
    let count = tree.children.len();
    let mut i: usize = 0;
    let ghost orig = nodes_view(old(tree).children@);
    proof {
        lemma_nodes_view(tree.children@);
        assert(nodes_view(tree.children@.take(0)) =~= spec_toggle_all(orig.take(0), path@));
        assert(tree.children@.take(0) =~= Seq::<FileNode>::empty());
        assert(orig.take(0) =~= Seq::<FileNodeV>::empty());
    }
    while i < count
        invariant
            i <= count,
            count == tree.children@.len() == orig.len(),
            count == old(tree).children@.len(),
            orig == nodes_view(old(tree).children@),
            tree.path == old(tree).path,
            tree.name == old(tree).name,
            tree.is_dir == old(tree).is_dir,
            tree.size == old(tree).size,
            tree.expanded == old(tree).expanded,
            forall|k: int| i <= k < count ==> tree.children@[k] == old(tree).children@[k],
            nodes_view(tree.children@.take(i as int)) == spec_toggle_all(
                orig.take(i as int),
                path@,
            ),
        decreases count - i,
    {
        proof {
            lemma_nodes_view(old(tree).children@);
            assert(tree.children@[i as int] == old(tree).children@[i as int]);
            assert(decreases_to!(*old(tree) => old(tree).children@[i as int]));
        }
        let ghost pre = tree.children@;
        toggle_node_expanded(&mut tree.children[i], path);
        proof {
            assert(tree.children@.take(i as int) =~= pre.take(i as int));
            assert(tree.children@.take(i + 1).drop_last() =~= tree.children@.take(i as int));
            assert(tree.children@.take(i + 1).last() == tree.children@[i as int]);
            lemma_nodes_view(tree.children@.take(i + 1));
            lemma_nodes_view(tree.children@.take(i as int));
            assert forall|k: int| 0 <= k < i implies nodes_view(tree.children@.take(i + 1))[k]
                == nodes_view(tree.children@.take(i as int))[k] by {
                assert(tree.children@.take(i + 1)[k] == tree.children@.take(i as int)[k]);
            }
            assert(nodes_view(tree.children@.take(i + 1)).drop_last() =~= nodes_view(
                tree.children@.take(i as int),
            ));
            assert(orig.take(i + 1).drop_last() =~= orig.take(i as int));
            assert(orig.take(i + 1).last() == orig[i as int]);
            assert(orig[i as int] == node_view(old(tree).children@[i as int]));
            assert(node_view(tree.children@[i as int]) == spec_toggle(orig[i as int], path@));
            assert(nodes_view(tree.children@.take(i + 1)) =~= spec_toggle_all(
                orig.take(i + 1),
                path@,
            ));
        }
        i = i + 1;
    }
    proof {
        assert(tree.children@.take(count as int) =~= tree.children@);
        assert(orig.take(count as int) =~= orig);
    }
}

/// Every directory's expand flag set to `val`; files untouched.
pub open spec fn spec_set_expanded(n: FileNodeV, val: bool) -> FileNodeV
    decreases n,
{
    FileNodeV {
        expanded: if n.is_dir {
            val
        } else {
            n.expanded
        },
        children: spec_set_expanded_all(n.children, val),
        ..n
    }
}

pub open spec fn spec_set_expanded_all(cs: Seq<FileNodeV>, val: bool) -> Seq<FileNodeV>
    decreases cs,
{
    if cs.len() == 0 {
        Seq::empty()
    } else {
        spec_set_expanded_all(cs.drop_last(), val).push(spec_set_expanded(cs.last(), val))
    }
}

/// Collapses every directory in the tree.
pub fn collapse_all(tree: &mut FileNode)
    ensures
        node_view(*final(tree)) == spec_set_expanded(node_view(*old(tree)), false),
{
    set_expanded(tree, false);
}

/// Expands every directory in the tree.
pub fn expand_all(tree: &mut FileNode)
    ensures
        node_view(*final(tree)) == spec_set_expanded(node_view(*old(tree)), true),
{
    set_expanded(tree, true);
}

fn set_expanded(tree: &mut FileNode, val: bool)
    ensures
        node_view(*final(tree)) == spec_set_expanded(node_view(*old(tree)), val),
    decreases *tree,
{
    if tree.is_dir {
        tree.expanded = val;
    }
    let count = tree.children.len();
    let mut i: usize = 0;
    let ghost orig = nodes_view(old(tree).children@);
    proof {
        lemma_nodes_view(tree.children@);
        assert(tree.children@.take(0) =~= Seq::<FileNode>::empty());
        assert(orig.take(0) =~= Seq::<FileNodeV>::empty());
        assert(nodes_view(tree.children@.take(0)) =~= spec_set_expanded_all(orig.take(0), val));
    }
    while i < count
        invariant
            i <= count,
            count == tree.children@.len() == orig.len(),
            count == old(tree).children@.len(),
            orig == nodes_view(old(tree).children@),
            tree.path == old(tree).path,
            tree.name == old(tree).name,
            tree.is_dir == old(tree).is_dir,
            tree.size == old(tree).size,
            tree.expanded == if old(tree).is_dir {
                val
            } else {
                old(tree).expanded
            },
            forall|k: int| i <= k < count ==> tree.children@[k] == old(tree).children@[k],
            nodes_view(tree.children@.take(i as int)) == spec_set_expanded_all(
                orig.take(i as int),
                val,
            ),
        decreases count - i,
    {
        proof {
            lemma_nodes_view(old(tree).children@);
            assert(tree.children@[i as int] == old(tree).children@[i as int]);
            assert(decreases_to!(*old(tree) => old(tree).children@[i as int]));
        }
        let ghost pre = tree.children@;
        set_expanded(&mut tree.children[i], val);
        proof {
            assert(tree.children@.take(i as int) =~= pre.take(i as int));
            assert(tree.children@.take(i + 1).drop_last() =~= tree.children@.take(i as int));
            assert(tree.children@.take(i + 1).last() == tree.children@[i as int]);
            lemma_nodes_view(tree.children@.take(i + 1));
            lemma_nodes_view(tree.children@.take(i as int));
            assert forall|k: int| 0 <= k < i implies nodes_view(tree.children@.take(i + 1))[k]
                == nodes_view(tree.children@.take(i as int))[k] by {
                assert(tree.children@.take(i + 1)[k] == tree.children@.take(i as int)[k]);
            }
            assert(nodes_view(tree.children@.take(i + 1)).drop_last() =~= nodes_view(
                tree.children@.take(i as int),
            ));
            assert(orig.take(i + 1).drop_last() =~= orig.take(i as int));
            assert(orig.take(i + 1).last() == orig[i as int]);
            assert(orig[i as int] == node_view(old(tree).children@[i as int]));
            assert(node_view(tree.children@[i as int]) == spec_set_expanded(orig[i as int], val));
            assert(nodes_view(tree.children@.take(i + 1)) =~= spec_set_expanded_all(
                orig.take(i + 1),
                val,
            ));
        }
        i = i + 1;
    }
    proof {
        assert(tree.children@.take(count as int) =~= tree.children@);
        assert(orig.take(count as int) =~= orig);
    }
}

proof fn lemma_node_le_total(a: FileNodeV, b: FileNodeV)
    ensures
        node_le(a, b) || node_le(b, a),
{
    crate::strutil::lemma_lex_le_total(a.name, b.name);
}

proof fn lemma_node_le_trans(a: FileNodeV, b: FileNodeV, c: FileNodeV)
    requires
        node_le(a, b),
        node_le(b, c),
    ensures
        node_le(a, c),
{
    if a.is_dir == b.is_dir && b.is_dir == c.is_dir {
        crate::strutil::lemma_lex_le_trans(a.name, b.name, c.name);
    }
}

/// Siblings in tree order: each pair ordered by `node_le`.
pub open spec fn siblings_ordered(s: Seq<FileNodeV>) -> bool {
    forall|i: int, j: int| 0 <= i < j < s.len() ==> node_le(#[trigger] s[i], #[trigger] s[j])
}

proof fn lemma_insert_node(s: Seq<FileNodeV>, x: FileNodeV)
    ensures
        insert_node(s, x).len() == s.len() + 1,
        forall|q: FileNodeV|
            #[trigger] insert_node(s, x).contains(q) <==> s.contains(q) || q == x,
        siblings_ordered(s) ==> siblings_ordered(insert_node(s, x)),
    decreases s.len(),
{
    let r = insert_node(s, x);
    if s.len() == 0 {
        assert forall|q: FileNodeV| #[trigger] r.contains(q) implies s.contains(q) || q == x by {
            let i = choose|i: int| 0 <= i < r.len() && r[i] == q;
        }
        assert(r[0] == x);
        assert(r.contains(x));
    } else if node_le(s.last(), x) {
        assert forall|q: FileNodeV| #[trigger] r.contains(q) implies s.contains(q) || q == x by {
            let i = choose|i: int| 0 <= i < r.len() && r[i] == q;
            if i < s.len() {
                assert(s[i] == q);
            }
        }
        assert forall|q: FileNodeV| s.contains(q) || q == x implies #[trigger] r.contains(q) by {
            if s.contains(q) {
                let i = choose|i: int| 0 <= i < s.len() && s[i] == q;
                assert(r[i] == q);
            } else {
                assert(r.last() == x);
            }
        }
        if siblings_ordered(s) {
            assert forall|i: int, j: int| 0 <= i < j < r.len() implies node_le(
                #[trigger] r[i],
                #[trigger] r[j],
            ) by {
                if j == r.len() - 1 {
                    if i < s.len() - 1 {
                        lemma_node_le_trans(s[i], s.last(), x);
                    }
                } else {
                    assert(node_le(s[i], s[j]));
                }
            }
        }
    } else {
        lemma_insert_node(s.drop_last(), x);
        lemma_node_le_total(s.last(), x);
        let q0 = insert_node(s.drop_last(), x);
        assert forall|q: FileNodeV| #[trigger] r.contains(q) implies s.contains(q) || q == x by {
            let i = choose|i: int| 0 <= i < r.len() && r[i] == q;
            if i < q0.len() {
                assert(q0[i] == q);
                assert(q0.contains(q));
                if s.drop_last().contains(q) {
                    let k = choose|k: int| 0 <= k < s.drop_last().len() && s.drop_last()[k] == q;
                    assert(s[k] == q);
                }
            } else {
                assert(q == s.last());
                assert(s.contains(s.last()));
            }
        }
        assert forall|q: FileNodeV| s.contains(q) || q == x implies #[trigger] r.contains(q) by {
            if q == x || s.drop_last().contains(q) {
                assert(q0.contains(q));
                let i = choose|i: int| 0 <= i < q0.len() && q0[i] == q;
                assert(r[i] == q);
            } else {
                let k = choose|k: int| 0 <= k < s.len() && s[k] == q;
                if k < s.len() - 1 {
                    assert(s.drop_last()[k] == q);
                    assert(s.drop_last().contains(q));
                    assert(q0.contains(q));
                    let i = choose|i: int| 0 <= i < q0.len() && q0[i] == q;
                    assert(r[i] == q);
                } else {
                    assert(r.last() == s.last());
                }
            }
        }
        if siblings_ordered(s) {
            assert(siblings_ordered(s.drop_last())) by {
                assert forall|i: int, j: int|
                    0 <= i < j < s.drop_last().len() implies node_le(
                    #[trigger] s.drop_last()[i],
                    #[trigger] s.drop_last()[j],
                ) by {
                    assert(node_le(s[i], s[j]));
                }
            }
            assert forall|i: int, j: int| 0 <= i < j < r.len() implies node_le(
                #[trigger] r[i],
                #[trigger] r[j],
            ) by {
                if j == r.len() - 1 {
                    assert(r[i] == q0[i]);
                    assert(q0.contains(q0[i]));
                    if s.drop_last().contains(q0[i]) {
                        let k = choose|k: int|
                            0 <= k < s.drop_last().len() && s.drop_last()[k] == q0[i];
                        assert(node_le(s[k], s.last()));
                    } else {
                        assert(q0[i] == x);
                        assert(node_le(x, s.last()));
                    }
                } else {
                    assert(node_le(q0[i], q0[j]));
                }
            }
        }
    }
}

/// Sorting orders the siblings and keeps exactly them.
pub proof fn lemma_sort_nodes(s: Seq<FileNodeV>)
    ensures
        siblings_ordered(sort_nodes(s)),
        sort_nodes(s).len() == s.len(),
        forall|q: FileNodeV| #[trigger] sort_nodes(s).contains(q) <==> s.contains(q),
    decreases s.len(),
{
    if s.len() > 0 {
        lemma_sort_nodes(s.drop_last());
        lemma_insert_node(sort_nodes(s.drop_last()), s.last());
        assert forall|q: FileNodeV| #[trigger] sort_nodes(s).contains(q) implies s.contains(q) by {
            if s.drop_last().contains(q) {
                let k = choose|k: int| 0 <= k < s.drop_last().len() && s.drop_last()[k] == q;
                assert(s[k] == q);
            } else {
                assert(q == s.last());
                assert(s[s.len() - 1] == q);
            }
        }
        assert forall|q: FileNodeV| s.contains(q) implies #[trigger] sort_nodes(s).contains(q) by {
            let k = choose|k: int| 0 <= k < s.len() && s[k] == q;
            if k < s.len() - 1 {
                assert(s.drop_last()[k] == q);
                assert(s.drop_last().contains(q));
            }
        }
    }
}

/// Every directory's children stand in tree order, at every level:
/// directories before files, same-flag siblings lexicographically by name.
pub open spec fn well_ordered(n: FileNodeV) -> bool
    decreases n,
{
    siblings_ordered(n.children) && all_well_ordered(n.children)
}

pub open spec fn all_well_ordered(cs: Seq<FileNodeV>) -> bool
    decreases cs,
{
    if cs.len() == 0 {
        true
    } else {
        all_well_ordered(cs.drop_last()) && well_ordered(cs.last())
    }
}

proof fn lemma_all_well_ordered(cs: Seq<FileNodeV>)
    ensures
        all_well_ordered(cs) <==> forall|i: int|
            0 <= i < cs.len() ==> well_ordered(#[trigger] cs[i]),
    decreases cs,
{
    if cs.len() > 0 {
        lemma_all_well_ordered(cs.drop_last());
        if all_well_ordered(cs) {
            assert forall|i: int| 0 <= i < cs.len() implies well_ordered(#[trigger] cs[i]) by {
                if i < cs.len() - 1 {
                    assert(cs.drop_last()[i] == cs[i]);
                    assert(well_ordered(cs.drop_last()[i]));
                }
            }
        }
        if forall|i: int| 0 <= i < cs.len() ==> well_ordered(#[trigger] cs[i]) {
            assert forall|i: int| 0 <= i < cs.drop_last().len() implies well_ordered(
                #[trigger] cs.drop_last()[i],
            ) by {
                assert(cs.drop_last()[i] == cs[i]);
            }
        }
    }
}

/// What the scanner builds is well ordered, at every level of the tree.
pub proof fn lemma_scan_well_ordered(e: RawEntry, path: Seq<char>)
    ensures
        well_ordered(spec_walk(e, path)),
    decreases e,
{
    match e.children {
        Option::None => {
            assert(spec_walk(e, path).children =~= Seq::<FileNodeV>::empty());
        },
        Option::Some(cs) => {
            lemma_scan_children_well_ordered(cs@, path);
            lemma_sort_nodes(spec_walk_children(cs@, path));
            let raw = spec_walk_children(cs@, path);
            let sorted = sort_nodes(raw);
            lemma_all_well_ordered(raw);
            lemma_all_well_ordered(sorted);
            assert forall|i: int| 0 <= i < sorted.len() implies well_ordered(
                #[trigger] sorted[i],
            ) by {
                assert(sorted.contains(sorted[i]));
                assert(raw.contains(sorted[i]));
                let k = choose|k: int| 0 <= k < raw.len() && raw[k] == sorted[i];
            }
        },
    }
}

proof fn lemma_scan_children_well_ordered(cs: Seq<RawEntry>, parent: Seq<char>)
    ensures
        forall|i: int|
            0 <= i < spec_walk_children(cs, parent).len() ==> well_ordered(
                #[trigger] spec_walk_children(cs, parent)[i],
            ),
    decreases cs,
{
    if cs.len() > 0 {
        lemma_scan_children_well_ordered(cs.drop_last(), parent);
        let rest = spec_walk_children(cs.drop_last(), parent);
        let whole = spec_walk_children(cs, parent);
        assert forall|i: int| 0 <= i < whole.len() implies well_ordered(#[trigger] whole[i]) by {
            if i < rest.len() {
                assert(whole[i] == rest[i]);
            } else {
                assert(keep_name(cs.last().name@));
                assert(whole[i] == spec_walk(cs.last(), joined(parent, cs.last().name@)));
                lemma_scan_well_ordered(cs.last(), joined(parent, cs.last().name@));
            }
        }
    }
}

/// How many nodes a subtree holds, the node itself included.
pub open spec fn node_count(n: FileNodeV) -> int
    decreases n,
{
    1 + count_sum(n.children)
}

pub open spec fn count_sum(cs: Seq<FileNodeV>) -> int
    decreases cs,
{
    if cs.len() == 0 {
        0int
    } else {
        count_sum(cs.drop_last()) + node_count(cs.last())
    }
}

/// How many entries the scanner keeps in a raw subtree, the entry itself
/// included; skipped entries take their whole subtrees with them.
pub open spec fn spec_kept_count(e: RawEntry) -> int
    decreases e,
{
    match e.children {
        Option::None => 1,
        Option::Some(cs) => 1 + kept_count_of(cs@),
    }
}

pub open spec fn kept_count_of(cs: Seq<RawEntry>) -> int
    decreases cs,
{
    if cs.len() == 0 {
        0int
    } else {
        kept_count_of(cs.drop_last()) + (if keep_name(cs.last().name@) {
            spec_kept_count(cs.last())
        } else {
            0int
        })
    }
}

proof fn lemma_count_insert(s: Seq<FileNodeV>, x: FileNodeV)
    ensures
        count_sum(insert_node(s, x)) == count_sum(s) + node_count(x),
    decreases s.len(),
{
    if s.len() == 0 {
        let r = insert_node(s, x);
        assert(r =~= seq![x]);
        assert(r.drop_last() =~= Seq::<FileNodeV>::empty());
        assert(r.last() == x);
        assert(count_sum(r) == count_sum(r.drop_last()) + node_count(r.last()));
        assert(count_sum(Seq::<FileNodeV>::empty()) == 0);
    } else if !node_le(s.last(), x) {
        lemma_count_insert(s.drop_last(), x);
        let q = insert_node(s.drop_last(), x);
        let r = q.push(s.last());
        assert(insert_node(s, x) == r);
        assert(r.drop_last() =~= q);
        assert(r.last() == s.last());
        assert(count_sum(r) == count_sum(q) + node_count(s.last()));
    } else {
        let r = s.push(x);
        assert(insert_node(s, x) == r);
        assert(r.drop_last() =~= s);
        assert(r.last() == x);
        assert(count_sum(r) == count_sum(s) + node_count(x));
    }
}

proof fn lemma_count_sort(s: Seq<FileNodeV>)
    ensures
        count_sum(sort_nodes(s)) == count_sum(s),
    decreases s.len(),
{
    if s.len() > 0 {
        lemma_count_sort(s.drop_last());
        lemma_count_insert(sort_nodes(s.drop_last()), s.last());
    }
}

/// The scanner builds exactly one node per non-skipped entry.
pub proof fn lemma_scan_node_count(e: RawEntry, path: Seq<char>)
    ensures
        node_count(spec_walk(e, path)) == spec_kept_count(e),
    decreases e,
{
    match e.children {
        Option::None => {
            assert(spec_walk(e, path).children =~= Seq::<FileNodeV>::empty());
        },
        Option::Some(cs) => {
            lemma_scan_children_count(cs@, path);
            lemma_count_sort(spec_walk_children(cs@, path));
        },
    }
}

proof fn lemma_scan_children_count(cs: Seq<RawEntry>, parent: Seq<char>)
    ensures
        count_sum(spec_walk_children(cs, parent)) == kept_count_of(cs),
    decreases cs,
{
    if cs.len() > 0 {
        lemma_scan_children_count(cs.drop_last(), parent);
        if keep_name(cs.last().name@) {
            lemma_scan_node_count(cs.last(), joined(parent, cs.last().name@));
            let rest = spec_walk_children(cs.drop_last(), parent);
            let node = spec_walk(cs.last(), joined(parent, cs.last().name@));
            assert(rest.push(node).drop_last() =~= rest);
        }
    }
}

/// Hands element `i` out without disturbing the others.
fn take_at(v: &mut Vec<FileNode>, i: usize) -> (r: FileNode)
    requires
        i < old(v)@.len(),
    ensures
        r == old(v)@[i as int],
        final(v)@.len() == old(v)@.len(),
        forall|k: int| 0 <= k < old(v)@.len() && k != i ==> final(v)@[k] == old(v)@[k],
{
    let placeholder = FileNode {
        path: String::new(),
        name: String::new(),
        is_dir: false,
        size: 0,
        children: Vec::new(),
        expanded: false,
    };
    let mut slot = placeholder;
    core::mem::swap(&mut v[i], &mut slot);
    slot
}

} // verus!
