//! Manifest parser: reads the project's structured map — named layers of
//! files and an optional dependency graph — from a line-oriented text
//! document. The parser is lenient: malformed headers, stray tokens and
//! unresolvable edges are ignored line by line, never an error.
use crate::strutil::{
    contains_char, find_sub, find_sub_str, has_prefix, lemma_find_sub, parse_u8, rfind_char,
    rfind_ch, spec_lines, spec_parse_u8, spec_trim, split_lines, starts_with_str, str_eq,
    substr_string, trim, views,
};
use vstd::prelude::*;

verus! {

/// One named, ordered group of files declared in the manifest.
pub struct Layer {
    pub index: u8,
    pub label: String,
    pub files: Vec<String>,
}

/// A directed dependency between two files of the manifest.
pub struct DepEdge {
    pub from: String,
    pub to: String,
}

/// The parsed manifest: a project name, layers in declaration order, and
/// the dependency edges that resolved to known files.
pub struct SemmapData {
    pub project_name: String,
    pub layers: Vec<Layer>,
    pub edges: Vec<DepEdge>,
}

/// The mathematical shape of a layer.
pub ghost struct LayerV {
    pub index: u8,
    pub label: Seq<char>,
    pub files: Seq<Seq<char>>,
}

/// The mathematical shape of an edge.
pub ghost struct EdgeV {
    pub from: Seq<char>,
    pub to: Seq<char>,
}

/// The mathematical shape of a parsed manifest.
pub ghost struct SemmapV {
    pub project_name: Seq<char>,
    pub layers: Seq<LayerV>,
    pub edges: Seq<EdgeV>,
}

pub open spec fn layer_view(l: Layer) -> LayerV {
    LayerV { index: l.index, label: l.label@, files: views(l.files@) }
}

pub open spec fn layers_view(ls: Seq<Layer>) -> Seq<LayerV> {
    ls.map_values(|l: Layer| layer_view(l))
}

pub open spec fn edge_view(e: DepEdge) -> EdgeV {
    EdgeV { from: e.from@, to: e.to@ }
}

pub open spec fn edges_view(es: Seq<DepEdge>) -> Seq<EdgeV> {
    es.map_values(|e: DepEdge| edge_view(e))
}

pub open spec fn semmap_view(d: SemmapData) -> SemmapV {
    SemmapV {
        project_name: d.project_name@,
        layers: layers_view(d.layers@),
        edges: edges_view(d.edges@),
    }
}

/// Whether a backtick token's inner text can be a file path: it holds a
/// dot or a slash of either kind.
pub open spec fn spec_looks_like_path(s: Seq<char>) -> bool {
    contains_char(s, '.') || contains_char(s, '/') || contains_char(s, '\\')
}

/// Whether `s` can be a file path.
pub fn looks_like_path(s: &str) -> (r: bool)
    ensures
        r == spec_looks_like_path(s@),
{
    let a = rfind_char(s, '.');
    let b = rfind_char(s, '/');
    let c = rfind_char(s, '\\');
    proof {
        crate::strutil::lemma_rfind_ch(s@, '.');
        crate::strutil::lemma_rfind_ch(s@, '/');
        crate::strutil::lemma_rfind_ch(s@, '\\');
    }
    a.is_some() || b.is_some() || c.is_some()
}

/// What a `## Layer` heading's remainder denotes: the declared index and
/// label, split at the first ` -- `; nothing when the split is missing or
/// the index is not a small decimal number.
pub open spec fn spec_parse_layer_header(rest: Seq<char>) -> Option<LayerV> {
    let k = find_sub(rest, " -- "@);
    if k < 0 {
        None
    } else {
        let idx_str = spec_trim(rest.take(k));
        let label = spec_trim(rest.skip(k + 4));
        match spec_parse_u8(idx_str) {
            Some(i) => Some(LayerV { index: i, label: label, files: Seq::empty() }),
            None => None,
        }
    }
}

/// Parses the remainder of a `## Layer` heading.
pub fn parse_layer_header(rest: &str) -> (r: Option<Layer>)
    ensures
        match r {
            Some(l) => spec_parse_layer_header(rest@) == Some(layer_view(l)),
            None => spec_parse_layer_header(rest@) is None,
        },
{
    proof {
        reveal_strlit(" -- ");
        lemma_find_sub(rest@, " -- "@);
    }
    match find_sub_str(rest, " -- ") {
        None => None,
        Some(k) => {
            let n = rest.unicode_len();
            let idx_part = substr_string(rest, 0, k);
            let label_part = substr_string(rest, k + 4, n);
            proof {
                assert(rest@.subrange(0, k as int) =~= rest@.take(k as int));
                assert(rest@.subrange(k + 4, n as int) =~= rest@.skip(k + 4));
            }
            let idx_str = trim(idx_part.as_str());
            let label = trim(label_part.as_str());
            match parse_u8(idx_str.as_str()) {
                Some(i) => {
                    let l = Layer { index: i, label, files: Vec::new() };
                    proof {
                        assert(views(l.files@) =~= Seq::<Seq<char>>::empty());
                    }
                    Some(l)
                },
                None => None,
            }
        },
    }
}

/// The running state of the layer scan: the project name seen so far, the
/// finished layers, and the layer currently open.
pub ghost struct LayerScanV {
    pub project_name: Seq<char>,
    pub layers: Seq<LayerV>,
    pub current: Option<LayerV>,
}

/// A `## Layer` heading closes the open layer; while a layer is open, a
/// backtick-delimited path token joins it; a `# project --` line names the
/// project; anything else is prose and ignored.
pub open spec fn spec_scan_line(st: LayerScanV, line: Seq<char>) -> LayerScanV {
    let t = spec_trim(line);
    if has_prefix(t, "# project --"@) {
        LayerScanV { project_name: spec_trim(t.skip("# project --"@.len() as int)), ..st }
    } else if has_prefix(t, "## Layer "@) {
        let closed = match st.current {
            Some(l) => st.layers.push(l),
            None => st.layers,
        };
        LayerScanV {
            layers: closed,
            current: spec_parse_layer_header(t.skip("## Layer "@.len() as int)),
            ..st
        }
    } else {
        match st.current {
            Some(l) => {
                if t.len() > 2 && t[0] == '`' && t.last() == '`' && spec_looks_like_path(
                    t.subrange(1, t.len() - 1),
                ) {
                    LayerScanV {
                        current: Some(
                            LayerV { files: l.files.push(t.subrange(1, t.len() - 1)), ..l },
                        ),
                        ..st
                    }
                } else {
                    st
                }
            },
            None => st,
        }
    }
}

/// The layer scan folded over a document's lines, in order.
pub open spec fn spec_scan_lines(lines: Seq<Seq<char>>) -> LayerScanV
    decreases lines.len(),
{
    if lines.len() == 0 {
        LayerScanV { project_name: Seq::empty(), layers: Seq::empty(), current: None }
    } else {
        spec_scan_line(spec_scan_lines(lines.drop_last()), lines.last())
    }
}

/// The project name and layers a document declares: the line scan's
/// outcome, with the layer still open at the end closed.
pub open spec fn spec_parse_layers(text: Seq<char>) -> (Seq<char>, Seq<LayerV>) {
    let st = spec_scan_lines(spec_lines(text));
    let layers = match st.current {
        Some(l) => st.layers.push(l),
        None => st.layers,
    };
    (st.project_name, layers)
}

pub open spec fn opt_layer_view(c: Option<Layer>) -> Option<LayerV> {
    match c {
        Some(l) => Some(layer_view(l)),
        None => None,
    }
}

/// Scans the document for the project name and the declared layers.
fn parse_layers(text: &str) -> (r: (String, Vec<Layer>))
    ensures
        (r.0@, layers_view(r.1@)) == spec_parse_layers(text@),
{
    let lines = split_lines(text);
    let mut project_name = String::new();
    let mut layers: Vec<Layer> = Vec::new();
    let mut current: Option<Layer> = None;
    let n = lines.len();
    let mut i: usize = 0;
    proof {
        assert(views(lines@).take(0) =~= Seq::<Seq<char>>::empty());
        assert(layers_view(layers@) =~= Seq::<LayerV>::empty());
    }
    while i < n
        invariant
            i <= n,
            n == lines@.len(),
            views(lines@) == spec_lines(text@),
            (LayerScanV {
                project_name: project_name@,
                layers: layers_view(layers@),
                current: opt_layer_view(current),
            }) == spec_scan_lines(views(lines@).take(i as int)),
        decreases n - i,
    {
        proof {
            assert(views(lines@).take(i + 1).drop_last() =~= views(lines@).take(i as int));
            assert(views(lines@).take(i + 1).last() == lines@[i as int]@);
        }
        let ghost pre = spec_scan_lines(views(lines@).take(i as int));
        let t = trim(lines[i].as_str());
        if starts_with_str(t.as_str(), "# project --") {
            proof {
                reveal_strlit("# project --");
                assert("# project --"@.len() == 12);
            }
            let rest = substr_string(t.as_str(), 12, t.as_str().unicode_len());
            proof {
                assert(t@.subrange(12, t@.len() as int) =~= t@.skip("# project --"@.len() as int));
            }
            project_name = trim(rest.as_str());
        } else if starts_with_str(t.as_str(), "## Layer ") {
            match current {
                Some(l) => {
                    proof {
                        assert(layers_view(layers@.push(l)) =~= layers_view(layers@).push(
                            layer_view(l),
                        ));
                    }
                    layers.push(l);
                },
                None => {},
            }
            proof {
                reveal_strlit("## Layer ");
                assert("## Layer "@.len() == 9);
            }
            let rest = substr_string(t.as_str(), 9, t.as_str().unicode_len());
            proof {
                assert(t@.subrange(9, t@.len() as int) =~= t@.skip("## Layer "@.len() as int));
            }
            current = parse_layer_header(rest.as_str());
        } else {
            let is_open = current.is_some();
            if is_open {
                let tl = t.as_str().unicode_len();
                if tl > 2 && t.as_str().get_char(0) == '`' && t.as_str().get_char(tl - 1) == '`' {
                    let inner = substr_string(t.as_str(), 1, tl - 1);
                    if looks_like_path(inner.as_str()) {
                        match &mut current {
                            Some(l) => {
                                proof {
                                    assert(views(l.files@.push(inner)) =~= views(l.files@).push(
                                        inner@,
                                    ));
                                }
                                l.files.push(inner);
                            },
                            None => {},
                        }
                    }
                }
            }
        }
        i = i + 1;
    }
    proof {
        assert(views(lines@).take(n as int) =~= views(lines@));
    }
    match current {
        Some(l) => {
            proof {
                assert(layers_view(layers@.push(l)) =~= layers_view(layers@).push(layer_view(l)));
            }
            layers.push(l);
        },
        None => {},
    }
    (project_name, layers)
}

/// The synthetic identifier character for one path character: slashes of
/// both kinds, dots and dashes become underscores.
pub open spec fn id_c(c: char) -> char {
    if c == '/' || c == '\\' || c == '.' || c == '-' {
        '_'
    } else {
        c
    }
}

/// The synthetic identifier of a file path, as the dependency graph names
/// its nodes.
pub open spec fn node_id(p: Seq<char>) -> Seq<char> {
    p.map_values(|c: char| id_c(c))
}

/// Whether `tok` is the synthetic identifier of `path`.
pub fn matches_node_id(tok: &str, path: &str) -> (r: bool)
    ensures
        r == (tok@ == node_id(path@)),
{
    let tl = tok.unicode_len();
    let pl = path.unicode_len();
    if tl != pl {
        return false;
    }
    let mut i: usize = 0;
    while i < pl
        invariant
            i <= pl,
            tl == tok@.len(),
            pl == path@.len(),
            tl == pl,
            forall|j: int| 0 <= j < i ==> tok@[j] == id_c(path@[j]),
        decreases pl - i,
    {
        let c = path.get_char(i);
        let u = c as u32;
        let mapped: char = if u == 47 || u == 92 || u == 46 || u == 45 {
            '_'
        } else {
            c
        };
        assert(mapped == id_c(path@[i as int])) by {
            assert('/' as u32 == 47 && '\\' as u32 == 92 && '.' as u32 == 46 && '-' as u32 == 45);
        }
        if tok.get_char(i) != mapped {
            assert(tok@[i as int] != node_id(path@)[i as int]);
            return false;
        }
        i = i + 1;
    }
    assert(tok@ =~= node_id(path@));
    true
}

/// The file a graph token names: the last file, over all layers in order,
/// whose synthetic identifier is the token; nothing when there is none.
pub open spec fn resolve_node(files: Seq<Seq<char>>, tok: Seq<char>) -> Option<Seq<char>>
    decreases files.len(),
{
    if files.len() == 0 {
        None
    } else if node_id(files.last()) == tok {
        Some(files.last())
    } else {
        resolve_node(files.drop_last(), tok)
    }
}

/// Resolves a graph token against the known files.
fn resolve_node_exec(files: &Vec<String>, tok: &str) -> (r: Option<String>)
    ensures
        match r {
            Some(p) => resolve_node(views(files@), tok@) == Some(p@),
            None => resolve_node(views(files@), tok@) is None,
        },
{
    let n = files.len();
    let mut i: usize = n;
    proof {
        assert(views(files@).take(n as int) =~= views(files@));
    }
    while i > 0
        invariant
            i <= n,
            n == files@.len(),
            resolve_node(views(files@), tok@) == resolve_node(
                views(files@).take(i as int),
                tok@,
            ),
        decreases i,
    {
        i = i - 1;
        proof {
            assert(views(files@).take(i + 1).drop_last() =~= views(files@).take(i as int));
            assert(views(files@).take(i + 1).last() == files@[i as int]@);
        }
        if matches_node_id(tok, files[i].as_str()) {
            return Some(files[i].clone());
        }
    }
    proof {
        assert(views(files@).take(0) =~= Seq::<Seq<char>>::empty());
    }
    None
}

/// The files of all layers, in layer order.
pub open spec fn spec_layer_files(layers: Seq<LayerV>) -> Seq<Seq<char>>
    decreases layers.len(),
{
    if layers.len() == 0 {
        Seq::empty()
    } else {
        spec_layer_files(layers.drop_last()) + layers.last().files
    }
}

/// The edge one line denotes, if any: the trimmed line split at the first
/// ` --> `, both sides trimmed and resolved against the known files.
pub open spec fn spec_parse_edge_line(line: Seq<char>, files: Seq<Seq<char>>) -> Option<EdgeV> {
    let t = spec_trim(line);
    let k = find_sub(t, " --> "@);
    if k < 0 {
        None
    } else {
        let from_tok = spec_trim(t.take(k));
        let to_tok = spec_trim(t.skip(k + 5));
        match (resolve_node(files, from_tok), resolve_node(files, to_tok)) {
            (Some(f), Some(g)) => Some(EdgeV { from: f, to: g }),
            _ => None,
        }
    }
}

/// Parses one line as a dependency edge.
pub fn parse_edge_line(line: &str, files: &Vec<String>) -> (r: Option<DepEdge>)
    ensures
        match r {
            Some(e) => spec_parse_edge_line(line@, views(files@)) == Some(edge_view(e)),
            None => spec_parse_edge_line(line@, views(files@)) is None,
        },
{
    let t = trim(line);
    proof {
        reveal_strlit(" --> ");
        assert(" --> "@.len() == 5);
        lemma_find_sub(t@, " --> "@);
    }
    match find_sub_str(t.as_str(), " --> ") {
        None => None,
        Some(k) => {
            let n = t.as_str().unicode_len();
            let from_part = substr_string(t.as_str(), 0, k);
            let to_part = substr_string(t.as_str(), k + 5, n);
            proof {
                assert(t@.subrange(0, k as int) =~= t@.take(k as int));
                assert(t@.subrange(k + 5, n as int) =~= t@.skip(k + 5));
            }
            let from_tok = trim(from_part.as_str());
            let to_tok = trim(to_part.as_str());
            match resolve_node_exec(files, from_tok.as_str()) {
                None => None,
                Some(f) => match resolve_node_exec(files, to_tok.as_str()) {
                    None => None,
                    Some(g) => Some(DepEdge { from: f, to: g }),
                },
            }
        },
    }
}

/// The edges a document declares: none unless the text mentions
/// `graph TD` anywhere; with it, every line shaped like an edge whose
/// both tokens resolve to files of some layer, in line order.
pub open spec fn spec_parse_edges(text: Seq<char>, layers: Seq<LayerV>) -> Seq<EdgeV> {
    if find_sub(text, "graph TD"@) < 0 {
        Seq::empty()
    } else {
        spec_edge_lines(spec_lines(text), spec_layer_files(layers))
    }
}

pub open spec fn spec_edge_lines(lines: Seq<Seq<char>>, files: Seq<Seq<char>>) -> Seq<EdgeV>
    decreases lines.len(),
{
    if lines.len() == 0 {
        Seq::empty()
    } else {
        let rest = spec_edge_lines(lines.drop_last(), files);
        match spec_parse_edge_line(lines.last(), files) {
            Some(e) => rest.push(e),
            None => rest,
        }
    }
}

/// Collects the files of all layers, in layer order.
fn collect_layer_files(layers: &Vec<Layer>) -> (r: Vec<String>)
    ensures
        views(r@) == spec_layer_files(layers_view(layers@)),
{
    let n = layers.len();
    let mut out: Vec<String> = Vec::new();
    let mut i: usize = 0;
    proof {
        assert(layers_view(layers@).take(0) =~= Seq::<LayerV>::empty());
        assert(views(out@) =~= spec_layer_files(layers_view(layers@).take(0)));
    }
    while i < n
        invariant
            i <= n,
            n == layers@.len(),
            views(out@) == spec_layer_files(layers_view(layers@).take(i as int)),
        decreases n - i,
    {
        proof {
            assert(layers_view(layers@).take(i + 1).drop_last() =~= layers_view(layers@).take(
                i as int,
            ));
            assert(layers_view(layers@).take(i + 1).last() == layer_view(layers@[i as int]));
        }
        let files = &layers[i].files;
        let m = files.len();
        let mut j: usize = 0;
        let ghost mid = views(out@);
        while j < m
            invariant
                j <= m,
                m == files@.len(),
                files@ == layers@[i as int].files@,
                i < n == layers@.len(),
                views(out@) == mid + views(files@).take(j as int),
            decreases m - j,
        {
            proof {
                assert(views(files@).take(j + 1).drop_last() =~= views(files@).take(j as int));
                assert(views(files@).take(j + 1).last() == files@[j as int]@);
                assert(views(out@.push(files@[j as int])) =~= views(out@).push(files@[j as int]@));
                assert(mid + views(files@).take(j as int) + seq![files@[j as int]@] =~= mid + views(
                    files@,
                ).take(j + 1));
            }
            let f = files[j].clone();
            out.push(f);
            j = j + 1;
        }
        proof {
            assert(views(files@).take(m as int) =~= views(files@));
            assert(mid + views(files@) =~= spec_layer_files(layers_view(layers@).take(i + 1)));
        }
        i = i + 1;
    }
    proof {
        assert(layers_view(layers@).take(n as int) =~= layers_view(layers@));
    }
    out
}

/// Scans the document for dependency edges.
fn parse_edges(text: &str, layers: &Vec<Layer>) -> (r: Vec<DepEdge>)
    ensures
        edges_view(r@) == spec_parse_edges(text@, layers_view(layers@)),
{
    proof {
        reveal_strlit("graph TD");
        lemma_find_sub(text@, "graph TD"@);
    }
    if find_sub_str(text, "graph TD").is_none() {
        let r: Vec<DepEdge> = Vec::new();
        proof {
            assert(edges_view(r@) =~= Seq::<EdgeV>::empty());
        }
        return r;
    }
    let files = collect_layer_files(layers);
    let lines = split_lines(text);
    let n = lines.len();
    let mut out: Vec<DepEdge> = Vec::new();
    let mut i: usize = 0;
    proof {
        assert(views(lines@).take(0) =~= Seq::<Seq<char>>::empty());
        assert(edges_view(out@) =~= spec_edge_lines(
            views(lines@).take(0),
            views(files@),
        ));
    }
    while i < n
        invariant
            i <= n,
            n == lines@.len(),
            views(lines@) == spec_lines(text@),
            views(files@) == spec_layer_files(layers_view(layers@)),
            edges_view(out@) == spec_edge_lines(views(lines@).take(i as int), views(files@)),
        decreases n - i,
    {
        proof {
            assert(views(lines@).take(i + 1).drop_last() =~= views(lines@).take(i as int));
            assert(views(lines@).take(i + 1).last() == lines@[i as int]@);
        }
        match parse_edge_line(lines[i].as_str(), &files) {
            Some(e) => {
                proof {
                    assert(edges_view(out@.push(e)) =~= edges_view(out@).push(edge_view(e)));
                }
                out.push(e);
            },
            None => {},
        }
        i = i + 1;
    }
    proof {
        assert(views(lines@).take(n as int) =~= views(lines@));
    }
    out
}

/// What a manifest document denotes.
pub open spec fn spec_parse(text: Seq<char>) -> SemmapV {
    let (pn, layers) = spec_parse_layers(text);
    SemmapV { project_name: pn, layers: layers, edges: spec_parse_edges(text, layers) }
}

/// Parses a manifest document: the project name, the layers in
/// declaration order, and the dependency edges whose both endpoints
/// resolve to files of some layer.
pub fn parse(text: &str) -> (r: SemmapData)
    ensures
        semmap_view(r) == spec_parse(text@),
{
    let (project_name, layers) = parse_layers(text);
    let edges = parse_edges(text, &layers);
    SemmapData { project_name, layers, edges }
}

/// The views of adjacency entries.
pub open spec fn adj_view(m: Seq<(String, Vec<String>)>) -> Seq<(Seq<char>, Seq<Seq<char>>)> {
    m.map_values(|e: (String, Vec<String>)| (e.0@, views(e.1@)))
}

/// The adjacency entries with `t` appended under the key `f`: an existing
/// entry grows, a missing one is opened at the end.
pub open spec fn spec_add_adj(
    m: Seq<(Seq<char>, Seq<Seq<char>>)>,
    f: Seq<char>,
    t: Seq<char>,
) -> Seq<(Seq<char>, Seq<Seq<char>>)>
    decreases m.len(),
{
    if m.len() == 0 {
        seq![(f, seq![t])]
    } else if m[0].0 == f {
        seq![(m[0].0, m[0].1.push(t))] + m.drop_first()
    } else {
        seq![m[0]] + spec_add_adj(m.drop_first(), f, t)
    }
}

/// The dependency graph as an adjacency list: each edge's target appended
/// under its source, keys in first-encounter order.
pub open spec fn spec_adjacency(edges: Seq<EdgeV>) -> Seq<(Seq<char>, Seq<Seq<char>>)>
    decreases edges.len(),
{
    if edges.len() == 0 {
        Seq::empty()
    } else {
        spec_add_adj(spec_adjacency(edges.drop_last()), edges.last().from, edges.last().to)
    }
}

/// When `f` first occurs at position `j`, adding updates exactly that
/// entry.
proof fn lemma_add_adj_at(m: Seq<(Seq<char>, Seq<Seq<char>>)>, f: Seq<char>, t: Seq<char>, j: int)
    requires
        0 <= j <= m.len(),
        forall|k: int| 0 <= k < j ==> (#[trigger] m[k]).0 != f,
        j < m.len() ==> m[j].0 == f,
    ensures
        j < m.len() ==> spec_add_adj(m, f, t) == m.update(j, (f, m[j].1.push(t))),
        j == m.len() ==> spec_add_adj(m, f, t) == m.push((f, seq![t])),
    decreases j,
{
    if m.len() == 0 {
        assert(spec_add_adj(m, f, t) =~= m.push((f, seq![t])));
    } else if j == 0 {
        assert(spec_add_adj(m, f, t) =~= m.update(0, (f, m[0].1.push(t))));
    } else {
        lemma_add_adj_at(m.drop_first(), f, t, j - 1);
        if j < m.len() {
            assert(m.drop_first()[j - 1] == m[j]);
            assert(seq![m[0]] + m.drop_first().update(j - 1, (f, m[j].1.push(t))) =~= m.update(
                j,
                (f, m[j].1.push(t)),
            ));
        } else {
            assert(seq![m[0]] + m.drop_first().push((f, seq![t])) =~= m.push((f, seq![t])));
        }
    }
}

/// Appends `t` under the key `f`.
fn add_adj(m: &mut Vec<(String, Vec<String>)>, f: &String, t: &String)
    ensures
        adj_view(final(m)@) == spec_add_adj(adj_view(old(m)@), f@, t@),
{
    let n = m.len();
    let mut j: usize = 0;
    while j < n
        invariant
            j <= n,
            n == m@.len(),
            *m == *old(m),
            forall|k: int| 0 <= k < j ==> (#[trigger] m@[k]).0@ != f@,
        decreases n - j,
    {
        if str_eq(m[j].0.as_str(), f.as_str()) {
            proof {
                lemma_add_adj_at(adj_view(m@), f@, t@, j as int);
            }
            let x = t.clone();
            m[j].1.push(x);
            proof {
                assert(m@ =~= old(m)@.update(j as int, m@[j as int]));
                assert(views(m@[j as int].1@) =~= views(old(m)@[j as int].1@).push(t@));
                assert(adj_view(m@) =~= adj_view(old(m)@).update(
                    j as int,
                    (old(m)@[j as int].0@, views(old(m)@[j as int].1@).push(t@)),
                ));
            }
            return ;
        }
        j = j + 1;
    }
    proof {
        lemma_add_adj_at(adj_view(m@), f@, t@, n as int);
    }
    let mut ts: Vec<String> = Vec::new();
    ts.push(t.clone());
    proof {
        assert(views(ts@) =~= seq![t@]);
    }
    m.push((f.clone(), ts));
    proof {
        assert(adj_view(m@) =~= adj_view(old(m)@).push((f@, seq![t@])));
    }
}

impl SemmapData {
    /// The files of all layers, in layer order.
    pub fn all_files(&self) -> (r: Vec<String>)
        ensures
            views(r@) == spec_layer_files(layers_view(self.layers@)),
    {
        collect_layer_files(&self.layers)
    }

    /// The dependency graph as an adjacency list from each source file to
    /// its targets, keys in first-encounter order.
    pub fn adjacency(&self) -> (r: Vec<(String, Vec<String>)>)
        ensures
            adj_view(r@) == spec_adjacency(edges_view(self.edges@)),
    {
        let ghost ev = edges_view(self.edges@);
        let n = self.edges.len();
        let mut out: Vec<(String, Vec<String>)> = Vec::new();
        let mut i: usize = 0;
        proof {
            assert(ev.take(0) =~= Seq::<EdgeV>::empty());
            assert(adj_view(out@) =~= spec_adjacency(ev.take(0)));
        }
        while i < n
            invariant
                i <= n,
                n == self.edges@.len(),
                ev == edges_view(self.edges@),
                adj_view(out@) == spec_adjacency(ev.take(i as int)),
            decreases n - i,
        {
            proof {
                assert(ev.take(i + 1).drop_last() =~= ev.take(i as int));
                assert(ev.take(i + 1).last() == ev[i as int]);
            }
            let e = &self.edges[i];
            add_adj(&mut out, &e.from, &e.to);
            i = i + 1;
        }
        proof {
            assert(ev.take(n as int) =~= ev);
        }
        out
    }
}

} // verus!
