//! Categorizer: partitions the scanned files into toggleable categories,
//! either from the manifest's layers or by filename heuristics. Either
//! strategy covers every scanned file exactly once.
use crate::scanner::{all_files, spec_all_files};
use crate::semmap::{spec_layer_files, layers_view, semmap_view, SemmapData, SemmapV};
use crate::strutil::{
    contains_path, eq_lower, ends_with_lower, has_prefix, has_suffix, lemma_rfind_ch, lower,
    rfind_ch, rfind_char, starts_with_lower, str_eq, substr_string, views,
};
use crate::types::{node_view, Category, CategoryKind, FileNode, FileNodeV};
use vstd::prelude::*;

verus! {

/// The mathematical shape of a category tag.
pub ghost enum CategoryKindV {
    SemmapLayer { index: u8, label: Seq<char> },
    Source,
    Config,
    Docs,
    Build,
    Assets,
}

/// The mathematical shape of a category.
pub ghost struct CategoryV {
    pub kind: CategoryKindV,
    pub files: Seq<Seq<char>>,
    pub enabled: bool,
}

pub open spec fn kind_view(k: CategoryKind) -> CategoryKindV {
    match k {
        CategoryKind::SemmapLayer { index, label } => CategoryKindV::SemmapLayer {
            index,
            label: label@,
        },
        CategoryKind::Source => CategoryKindV::Source,
        CategoryKind::Config => CategoryKindV::Config,
        CategoryKind::Docs => CategoryKindV::Docs,
        CategoryKind::Build => CategoryKindV::Build,
        CategoryKind::Assets => CategoryKindV::Assets,
    }
}

pub open spec fn cat_view(c: Category) -> CategoryV {
    CategoryV { kind: kind_view(c.kind), files: views(c.files@), enabled: c.enabled }
}

pub open spec fn cats_view(cs: Seq<Category>) -> Seq<CategoryV> {
    cs.map_values(|c: Category| cat_view(c))
}

/// The name part of a relative path: everything after the last slash.
pub open spec fn file_name_of(p: Seq<char>) -> Seq<char> {
    p.skip(rfind_ch(p, '/') + 1)
}

/// The extension of a path: what follows the last dot of its name; empty
/// when the name has no dot, or only its leading dot.
pub open spec fn ext_of(p: Seq<char>) -> Seq<char> {
    let name = file_name_of(p);
    let k = rfind_ch(name, '.');
    if k <= 0 {
        Seq::empty()
    } else {
        name.skip(k + 1)
    }
}

/// The name part of a relative path, owned.
pub fn file_name(p: &str) -> (r: String)
    ensures
        r@ == file_name_of(p@),
{
    proof {
        lemma_rfind_ch(p@, '/');
    }
    let n = p.unicode_len();
    match rfind_char(p, '/') {
        Some(k) => substr_string(p, k + 1, n),
        None => {
            proof {
                assert(p@.skip(0) =~= p@);
            }
            p.to_owned()
        },
    }
}

/// The extension of a path, owned.
pub fn ext(p: &str) -> (r: String)
    ensures
        r@ == ext_of(p@),
{
    let name = file_name(p);
    proof {
        lemma_rfind_ch(name@, '.');
    }
    let n = name.as_str().unicode_len();
    match rfind_char(name.as_str(), '.') {
        Some(k) => {
            if k == 0 {
                proof {
                    assert(ext_of(p@) =~= Seq::<char>::empty());
                }
                String::new()
            } else {
                substr_string(name.as_str(), k + 1, n)
            }
        },
        None => {
            proof {
                assert(ext_of(p@) =~= Seq::<char>::empty());
            }
            String::new()
        },
    }
}

/// A source file: its extension is one of the known source-code
/// extensions, case-sensitively.
pub open spec fn is_source_p(p: Seq<char>) -> bool {
    let e = ext_of(p);
    ||| e == "rs"@
    ||| e == "ts"@
    ||| e == "tsx"@
    ||| e == "js"@
    ||| e == "jsx"@
    ||| e == "py"@
    ||| e == "go"@
    ||| e == "c"@
    ||| e == "cpp"@
    ||| e == "h"@
    ||| e == "cs"@
    ||| e == "swift"@
    ||| e == "kt"@
    ||| e == "ex"@
    ||| e == "exs"@
    ||| e == "hs"@
    ||| e == "nim"@
    ||| e == "zig"@
}

/// A configuration file: a config-flavoured extension, or a well-known
/// config filename (compared lower-cased).
pub open spec fn is_config_p(p: Seq<char>) -> bool {
    let e = ext_of(p);
    let n = lower(file_name_of(p));
    ||| e == "toml"@
    ||| e == "json"@
    ||| e == "yaml"@
    ||| e == "yml"@
    ||| e == "ini"@
    ||| e == "cfg"@
    ||| n == "dockerfile"@
    ||| n == ".eslintrc"@
    ||| n == ".prettierrc"@
    ||| n == ".babelrc"@
}

/// A documentation file: a documentation extension, or a name starting
/// with readme, changelog or license (compared lower-cased).
pub open spec fn is_doc_p(p: Seq<char>) -> bool {
    let e = ext_of(p);
    let n = lower(file_name_of(p));
    ||| e == "md"@
    ||| e == "rst"@
    ||| e == "txt"@
    ||| e == "adoc"@
    ||| has_prefix(n, "readme"@)
    ||| has_prefix(n, "changelog"@)
    ||| has_prefix(n, "license"@)
}

/// A build artifact: a lockfile extension or a lockfile naming pattern
/// (compared lower-cased).
pub open spec fn is_build_p(p: Seq<char>) -> bool {
    let e = ext_of(p);
    let n = lower(file_name_of(p));
    ||| e == "lock"@
    ||| has_suffix(n, "-lock.json"@)
    ||| n == "package-lock.json"@
}

/// Whether `p` is a source file.
pub fn is_source(p: &str) -> (r: bool)
    ensures
        r == is_source_p(p@),
{
    let e = ext(p);
    let s = e.as_str();
    str_eq(s, "rs") || str_eq(s, "ts") || str_eq(s, "tsx") || str_eq(s, "js") || str_eq(s, "jsx")
        || str_eq(s, "py") || str_eq(s, "go") || str_eq(s, "c") || str_eq(s, "cpp") || str_eq(
        s,
        "h",
    ) || str_eq(s, "cs") || str_eq(s, "swift") || str_eq(s, "kt") || str_eq(s, "ex") || str_eq(
        s,
        "exs",
    ) || str_eq(s, "hs") || str_eq(s, "nim") || str_eq(s, "zig")
}

/// Whether `p` is a configuration file.
pub fn is_config(p: &str) -> (r: bool)
    ensures
        r == is_config_p(p@),
{
    let e = ext(p);
    let s = e.as_str();
    let name = file_name(p);
    let n = name.as_str();
    str_eq(s, "toml") || str_eq(s, "json") || str_eq(s, "yaml") || str_eq(s, "yml") || str_eq(
        s,
        "ini",
    ) || str_eq(s, "cfg") || eq_lower(n, "dockerfile") || eq_lower(n, ".eslintrc") || eq_lower(
        n,
        ".prettierrc",
    ) || eq_lower(n, ".babelrc")
}

/// Whether `p` is a documentation file.
pub fn is_doc(p: &str) -> (r: bool)
    ensures
        r == is_doc_p(p@),
{
    let e = ext(p);
    let s = e.as_str();
    let name = file_name(p);
    let n = name.as_str();
    str_eq(s, "md") || str_eq(s, "rst") || str_eq(s, "txt") || str_eq(s, "adoc")
        || starts_with_lower(n, "readme") || starts_with_lower(n, "changelog")
        || starts_with_lower(n, "license")
}

/// Whether `p` is a build artifact.
pub fn is_build(p: &str) -> (r: bool)
    ensures
        r == is_build_p(p@),
{
    let e = ext(p);
    let s = e.as_str();
    let name = file_name(p);
    let n = name.as_str();
    str_eq(s, "lock") || ends_with_lower(n, "-lock.json") || eq_lower(n, "package-lock.json")
}

/// The heuristic buckets, as a strict precedence: source first, then
/// config, docs, build; assets is what is left.
pub open spec fn class_source(p: Seq<char>) -> bool {
    is_source_p(p)
}

pub open spec fn class_config(p: Seq<char>) -> bool {
    !is_source_p(p) && is_config_p(p)
}

pub open spec fn class_docs(p: Seq<char>) -> bool {
    !is_source_p(p) && !is_config_p(p) && is_doc_p(p)
}

pub open spec fn class_build(p: Seq<char>) -> bool {
    !is_source_p(p) && !is_config_p(p) && !is_doc_p(p) && is_build_p(p)
}

pub open spec fn class_assets(p: Seq<char>) -> bool {
    !is_source_p(p) && !is_config_p(p) && !is_doc_p(p) && !is_build_p(p)
}

/// The elements of `files` satisfying `pred`, in order.
pub open spec fn spec_filter(files: Seq<Seq<char>>, pred: spec_fn(Seq<char>) -> bool) -> Seq<
    Seq<char>,
>
    decreases files.len(),
{
    if files.len() == 0 {
        Seq::empty()
    } else {
        let rest = spec_filter(files.drop_last(), pred);
        if pred(files.last()) {
            rest.push(files.last())
        } else {
            rest
        }
    }
}

/// A filtered sequence holds exactly the input's elements that satisfy
/// the predicate.
pub proof fn lemma_spec_filter(files: Seq<Seq<char>>, pred: spec_fn(Seq<char>) -> bool, p: Seq<char>)
    ensures
        spec_filter(files, pred).contains(p) <==> files.contains(p) && pred(p),
    decreases files.len(),
{
    if files.len() > 0 {
        lemma_spec_filter(files.drop_last(), pred, p);
        let r = spec_filter(files, pred);
        let rest = spec_filter(files.drop_last(), pred);
        if r.contains(p) {
            let j = choose|j: int| 0 <= j < r.len() && r[j] == p;
            if pred(files.last()) && j == rest.len() {
                assert(p == files.last());
                assert(files.contains(files.last()));
            } else {
                assert(rest[j] == p);
                assert(rest.contains(p));
                let i = choose|i: int|
                    0 <= i < files.drop_last().len() && files.drop_last()[i] == p;
                assert(files[i] == p);
                assert(files.contains(p));
            }
        }
        if files.contains(p) && pred(p) {
            let i = choose|i: int| 0 <= i < files.len() && files[i] == p;
            if i < files.len() - 1 {
                assert(files.drop_last()[i] == p);
                assert(files.drop_last().contains(p));
                assert(rest.contains(p));
                let j = choose|j: int| 0 <= j < rest.len() && rest[j] == p;
                assert(r[j] == p);
                assert(r.contains(p));
            } else {
                assert(pred(files.last()));
                assert(r.last() == p);
                assert(r.contains(p));
            }
        }
    }
}

/// What heuristic categorization yields: the five fixed buckets, in their
/// fixed order, each holding the scanned files of its class; source and
/// config enabled, the rest disabled.
pub open spec fn spec_from_heuristics(tree: FileNodeV) -> Seq<CategoryV> {
    let all = spec_all_files(tree);
    seq![
        CategoryV {
            kind: CategoryKindV::Source,
            files: spec_filter(all, |p: Seq<char>| class_source(p)),
            enabled: true,
        },
        CategoryV {
            kind: CategoryKindV::Config,
            files: spec_filter(all, |p: Seq<char>| class_config(p)),
            enabled: true,
        },
        CategoryV {
            kind: CategoryKindV::Docs,
            files: spec_filter(all, |p: Seq<char>| class_docs(p)),
            enabled: false,
        },
        CategoryV {
            kind: CategoryKindV::Build,
            files: spec_filter(all, |p: Seq<char>| class_build(p)),
            enabled: false,
        },
        CategoryV {
            kind: CategoryKindV::Assets,
            files: spec_filter(all, |p: Seq<char>| class_assets(p)),
            enabled: false,
        },
    ]
}

/// Filters the scanned files by an exec predicate matching `pred`.
#[allow(unused_variables)]
fn filter_class(all: &Vec<String>, which: u8) -> (r: Vec<String>)
    requires
        which < 5,
    ensures
        which == 0 ==> views(r@) == spec_filter(views(all@), |p: Seq<char>| class_source(p)),
        which == 1 ==> views(r@) == spec_filter(views(all@), |p: Seq<char>| class_config(p)),
        which == 2 ==> views(r@) == spec_filter(views(all@), |p: Seq<char>| class_docs(p)),
        which == 3 ==> views(r@) == spec_filter(views(all@), |p: Seq<char>| class_build(p)),
        which == 4 ==> views(r@) == spec_filter(views(all@), |p: Seq<char>| class_assets(p)),
{
    let n = all.len();
    let mut out: Vec<String> = Vec::new();
    let mut i: usize = 0;
    proof {
        assert(views(all@).take(0) =~= Seq::<Seq<char>>::empty());
    }
    while i < n
        invariant
            i <= n,
            which < 5,
            n == all@.len(),
            which == 0 ==> views(out@) == spec_filter(
                views(all@).take(i as int),
                |p: Seq<char>| class_source(p),
            ),
            which == 1 ==> views(out@) == spec_filter(
                views(all@).take(i as int),
                |p: Seq<char>| class_config(p),
            ),
            which == 2 ==> views(out@) == spec_filter(
                views(all@).take(i as int),
                |p: Seq<char>| class_docs(p),
            ),
            which == 3 ==> views(out@) == spec_filter(
                views(all@).take(i as int),
                |p: Seq<char>| class_build(p),
            ),
            which == 4 ==> views(out@) == spec_filter(
                views(all@).take(i as int),
                |p: Seq<char>| class_assets(p),
            ),
        decreases n - i,
    {
        proof {
            assert(views(all@).take(i + 1).drop_last() =~= views(all@).take(i as int));
            assert(views(all@).take(i + 1).last() == all@[i as int]@);
        }
        let p = all[i].as_str();
        let src = is_source(p);
        let cfg = is_config(p);
        let doc = is_doc(p);
        let bld = is_build(p);
        let keep: bool = if which == 0 {
            src
        } else if which == 1 {
            !src && cfg
        } else if which == 2 {
            !src && !cfg && doc
        } else if which == 3 {
            !src && !cfg && !doc && bld
        } else {
            !src && !cfg && !doc && !bld
        };
        if keep {
            proof {
                assert(views(out@.push(all@[i as int])) =~= views(out@).push(all@[i as int]@));
            }
            let f = all[i].clone();
            out.push(f);
        }
        i = i + 1;
    }
    proof {
        assert(views(all@).take(n as int) =~= views(all@));
    }
    out
}

/// Heuristic categorization: every scanned file lands in exactly one of
/// the five fixed buckets, by the strict precedence source, config, docs,
/// build, assets.
pub fn from_heuristics(tree: &FileNode) -> (r: Vec<Category>)
    ensures
        cats_view(r@) == spec_from_heuristics(node_view(*tree)),
{
    let all = all_files(tree);
    let source = filter_class(&all, 0);
    let config = filter_class(&all, 1);
    let docs = filter_class(&all, 2);
    let build = filter_class(&all, 3);
    let assets = filter_class(&all, 4);
    let mut r: Vec<Category> = Vec::new();
    r.push(Category { kind: CategoryKind::Source, files: source, enabled: true });
    r.push(Category { kind: CategoryKind::Config, files: config, enabled: true });
    r.push(Category { kind: CategoryKind::Docs, files: docs, enabled: false });
    r.push(Category { kind: CategoryKind::Build, files: build, enabled: false });
    r.push(Category { kind: CategoryKind::Assets, files: assets, enabled: false });
    proof {
        assert(cats_view(r@) =~= spec_from_heuristics(node_view(*tree)));
    }
    r
}

/// The category one manifest layer becomes: the layer's files, enabled by
/// default only for an early layer index.
pub open spec fn spec_layer_cat(l: crate::semmap::LayerV) -> CategoryV {
    CategoryV {
        kind: CategoryKindV::SemmapLayer { index: l.index, label: l.label },
        files: l.files,
        enabled: l.index <= 2,
    }
}

/// What manifest-driven categorization yields: one category per layer in
/// declaration order, then, of the scanned files no layer claims, a
/// disabled Docs category for the documentation-like ones and a disabled
/// Assets category for the rest — each only when non-empty.
pub open spec fn spec_from_semmap(d: SemmapV, tree: FileNodeV) -> Seq<CategoryV> {
    let layer_cats = d.layers.map_values(|l: crate::semmap::LayerV| spec_layer_cat(l));
    let claimed = spec_layer_files(d.layers);
    let unclaimed = spec_filter(spec_all_files(tree), |p: Seq<char>| !claimed.contains(p));
    let docs = spec_filter(unclaimed, |p: Seq<char>| is_doc_p(p));
    let other = spec_filter(unclaimed, |p: Seq<char>| !is_doc_p(p));
    layer_cats + (if docs.len() > 0 {
        seq![CategoryV { kind: CategoryKindV::Docs, files: docs, enabled: false }]
    } else {
        Seq::empty()
    }) + (if other.len() > 0 {
        seq![CategoryV { kind: CategoryKindV::Assets, files: other, enabled: false }]
    } else {
        Seq::empty()
    })
}

/// Manifest-driven categorization: one category per layer, and the
/// unclaimed scanned files split into Docs and Assets.
pub fn from_semmap(data: &SemmapData, tree: &FileNode) -> (r: Vec<Category>)
    ensures
        cats_view(r@) == spec_from_semmap(semmap_view(*data), node_view(*tree)),
{
    let ghost dv = semmap_view(*data);
    let mut r: Vec<Category> = Vec::new();
    let nlayers = data.layers.len();
    let mut i: usize = 0;
    proof {
        assert(cats_view(r@) =~= dv.layers.map_values(
            |l: crate::semmap::LayerV| spec_layer_cat(l),
        ).take(0));
    }
    while i < nlayers
        invariant
            i <= nlayers,
            nlayers == data.layers@.len(),
            dv == semmap_view(*data),
            cats_view(r@) == dv.layers.map_values(
                |l: crate::semmap::LayerV| spec_layer_cat(l),
            ).take(i as int),
        decreases nlayers - i,
    {
        let l = &data.layers[i];
        let files = crate::strutil::clone_paths(&l.files);
        let cat = Category {
            kind: CategoryKind::SemmapLayer { index: l.index, label: l.label.clone() },
            files,
            enabled: l.index <= 2,
        };
        proof {
            assert(cat_view(cat) == spec_layer_cat(dv.layers[i as int]));
            assert(cats_view(r@.push(cat)) =~= cats_view(r@).push(cat_view(cat)));
            assert(cats_view(r@.push(cat)) =~= dv.layers.map_values(
                |l: crate::semmap::LayerV| spec_layer_cat(l),
            ).take(i + 1));
        }
        r.push(cat);
        i = i + 1;
    }
    proof {
        assert(dv.layers.map_values(|l: crate::semmap::LayerV| spec_layer_cat(l)).take(
            nlayers as int,
        ) =~= dv.layers.map_values(|l: crate::semmap::LayerV| spec_layer_cat(l)));
    }
    let claimed = data.all_files();
    let all = all_files(tree);
    let n = all.len();
    let mut unclaimed: Vec<String> = Vec::new();
    let mut j: usize = 0;
    proof {
        assert(views(all@).take(0) =~= Seq::<Seq<char>>::empty());
        assert(views(unclaimed@) =~= spec_filter(
            views(all@).take(0),
            |p: Seq<char>| !spec_layer_files(dv.layers).contains(p),
        ));
    }
    while j < n
        invariant
            j <= n,
            n == all@.len(),
            dv == semmap_view(*data),
            views(claimed@) == spec_layer_files(dv.layers),
            views(unclaimed@) == spec_filter(
                views(all@).take(j as int),
                |p: Seq<char>| !spec_layer_files(dv.layers).contains(p),
            ),
        decreases n - j,
    {
        proof {
            assert(views(all@).take(j + 1).drop_last() =~= views(all@).take(j as int));
            assert(views(all@).take(j + 1).last() == all@[j as int]@);
        }
        if !contains_path(&claimed, all[j].as_str()) {
            proof {
                assert(views(unclaimed@.push(all@[j as int])) =~= views(unclaimed@).push(
                    all@[j as int]@,
                ));
            }
            let f = all[j].clone();
            unclaimed.push(f);
        }
        j = j + 1;
    }
    proof {
        assert(views(all@).take(n as int) =~= views(all@));
    }
    let m = unclaimed.len();
    let mut docs: Vec<String> = Vec::new();
    let mut other: Vec<String> = Vec::new();
    let mut k: usize = 0;
    proof {
        assert(views(unclaimed@).take(0) =~= Seq::<Seq<char>>::empty());
        assert(views(docs@) =~= spec_filter(
            views(unclaimed@).take(0),
            |p: Seq<char>| is_doc_p(p),
        ));
        assert(views(other@) =~= spec_filter(
            views(unclaimed@).take(0),
            |p: Seq<char>| !is_doc_p(p),
        ));
    }
    while k < m
        invariant
            k <= m,
            m == unclaimed@.len(),
            views(docs@) == spec_filter(
                views(unclaimed@).take(k as int),
                |p: Seq<char>| is_doc_p(p),
            ),
            views(other@) == spec_filter(
                views(unclaimed@).take(k as int),
                |p: Seq<char>| !is_doc_p(p),
            ),
        decreases m - k,
    {
        proof {
            assert(views(unclaimed@).take(k + 1).drop_last() =~= views(unclaimed@).take(k as int));
            assert(views(unclaimed@).take(k + 1).last() == unclaimed@[k as int]@);
        }
        if is_doc(unclaimed[k].as_str()) {
            proof {
                assert(views(docs@.push(unclaimed@[k as int])) =~= views(docs@).push(
                    unclaimed@[k as int]@,
                ));
            }
            let f = unclaimed[k].clone();
            docs.push(f);
        } else {
            proof {
                assert(views(other@.push(unclaimed@[k as int])) =~= views(other@).push(
                    unclaimed@[k as int]@,
                ));
            }
            let f = unclaimed[k].clone();
            other.push(f);
        }
        k = k + 1;
    }
    proof {
        assert(views(unclaimed@).take(m as int) =~= views(unclaimed@));
    }
    let ghost before = cats_view(r@);
    if docs.len() > 0 {
        let cat = Category { kind: CategoryKind::Docs, files: docs, enabled: false };
        proof {
            assert(cats_view(r@.push(cat)) =~= cats_view(r@).push(cat_view(cat)));
        }
        r.push(cat);
    }
    let ghost mid = cats_view(r@);
    if other.len() > 0 {
        let cat = Category { kind: CategoryKind::Assets, files: other, enabled: false };
        proof {
            assert(cats_view(r@.push(cat)) =~= cats_view(r@).push(cat_view(cat)));
        }
        r.push(cat);
    }
    proof {
        assert(cats_view(r@) =~= spec_from_semmap(dv, node_view(*tree)));
    }
    r
}

/// Heuristic categorization is a partition: the five categories' file
/// sets are pairwise disjoint, and their union is exactly the scanned
/// file set.
pub proof fn lemma_heuristic_partition(tree: FileNodeV)
    ensures
        forall|p: Seq<char>| #[trigger]
            spec_all_files(tree).contains(p) ==> exists|k: int|
                0 <= k < 5 && #[trigger] spec_from_heuristics(tree)[k].files.contains(p),
        forall|p: Seq<char>, k: int|
            0 <= k < 5 && #[trigger] spec_from_heuristics(tree)[k].files.contains(p)
                ==> spec_all_files(tree).contains(p),
        forall|p: Seq<char>, k1: int, k2: int|
            0 <= k1 < 5 && 0 <= k2 < 5 && k1 != k2 && (#[trigger] spec_from_heuristics(
                tree,
            )[k1].files.contains(p)) ==> !(#[trigger] spec_from_heuristics(tree)[k2].files.contains(
                p,
            )),
{
    let all = spec_all_files(tree);
    let cats = spec_from_heuristics(tree);
    assert(cats[0].files == spec_filter(all, |p: Seq<char>| class_source(p)));
    assert(cats[1].files == spec_filter(all, |p: Seq<char>| class_config(p)));
    assert(cats[2].files == spec_filter(all, |p: Seq<char>| class_docs(p)));
    assert(cats[3].files == spec_filter(all, |p: Seq<char>| class_build(p)));
    assert(cats[4].files == spec_filter(all, |p: Seq<char>| class_assets(p)));
    assert forall|p: Seq<char>| #[trigger] all.contains(p) implies exists|k: int|
        0 <= k < 5 && #[trigger] spec_from_heuristics(tree)[k].files.contains(p) by {
        lemma_spec_filter(all, |q: Seq<char>| class_source(q), p);
        lemma_spec_filter(all, |q: Seq<char>| class_config(q), p);
        lemma_spec_filter(all, |q: Seq<char>| class_docs(q), p);
        lemma_spec_filter(all, |q: Seq<char>| class_build(q), p);
        lemma_spec_filter(all, |q: Seq<char>| class_assets(q), p);
        if class_source(p) {
            assert(spec_from_heuristics(tree)[0].files.contains(p));
        } else if class_config(p) {
            assert(spec_from_heuristics(tree)[1].files.contains(p));
        } else if class_docs(p) {
            assert(spec_from_heuristics(tree)[2].files.contains(p));
        } else if class_build(p) {
            assert(spec_from_heuristics(tree)[3].files.contains(p));
        } else {
            assert(class_assets(p));
            assert(spec_from_heuristics(tree)[4].files.contains(p));
        }
    }
    assert forall|p: Seq<char>, k: int|
        0 <= k < 5 && #[trigger] spec_from_heuristics(tree)[k].files.contains(p) implies
        all.contains(p) by {
        lemma_spec_filter(all, |q: Seq<char>| class_source(q), p);
        lemma_spec_filter(all, |q: Seq<char>| class_config(q), p);
        lemma_spec_filter(all, |q: Seq<char>| class_docs(q), p);
        lemma_spec_filter(all, |q: Seq<char>| class_build(q), p);
        lemma_spec_filter(all, |q: Seq<char>| class_assets(q), p);
        if k == 0 {
            assert(cats[0].files.contains(p));
        } else if k == 1 {
            assert(cats[1].files.contains(p));
        } else if k == 2 {
            assert(cats[2].files.contains(p));
        } else if k == 3 {
            assert(cats[3].files.contains(p));
        } else {
            assert(cats[4].files.contains(p));
        }
    }
    assert forall|p: Seq<char>, k1: int, k2: int|
        0 <= k1 < 5 && 0 <= k2 < 5 && k1 != k2 && (#[trigger] spec_from_heuristics(
            tree,
        )[k1].files.contains(p)) implies !(#[trigger] spec_from_heuristics(tree)[k2].files.contains(
            p,
        )) by {
        lemma_spec_filter(all, |q: Seq<char>| class_source(q), p);
        lemma_spec_filter(all, |q: Seq<char>| class_config(q), p);
        lemma_spec_filter(all, |q: Seq<char>| class_docs(q), p);
        lemma_spec_filter(all, |q: Seq<char>| class_build(q), p);
        lemma_spec_filter(all, |q: Seq<char>| class_assets(q), p);
        let c1 = if k1 == 0 {
            class_source(p)
        } else if k1 == 1 {
            class_config(p)
        } else if k1 == 2 {
            class_docs(p)
        } else if k1 == 3 {
            class_build(p)
        } else {
            class_assets(p)
        };
        assert(c1);
        if spec_from_heuristics(tree)[k2].files.contains(p) {
            let c2 = if k2 == 0 {
                class_source(p)
            } else if k2 == 1 {
                class_config(p)
            } else if k2 == 2 {
                class_docs(p)
            } else if k2 == 3 {
                class_build(p)
            } else {
                class_assets(p)
            };
            assert(c2);
            assert(false);
        }
    }
}

/// The files of some layer are exactly the members of the layers' file
/// sets.
pub proof fn lemma_layer_files_contains(layers: Seq<crate::semmap::LayerV>, p: Seq<char>)
    ensures
        spec_layer_files(layers).contains(p) <==> exists|i: int|
            0 <= i < layers.len() && (#[trigger] layers[i]).files.contains(p),
    decreases layers.len(),
{
    if layers.len() > 0 {
        lemma_layer_files_contains(layers.drop_last(), p);
        let whole = spec_layer_files(layers);
        let front = spec_layer_files(layers.drop_last());
        if whole.contains(p) {
            let j = choose|j: int| 0 <= j < whole.len() && whole[j] == p;
            if j < front.len() {
                assert(front[j] == p);
                assert(front.contains(p));
                let i = choose|i: int|
                    0 <= i < layers.drop_last().len() && (#[trigger] layers.drop_last()[i]
                    ).files.contains(p);
                assert(layers[i].files.contains(p));
            } else {
                assert(layers.last().files[j - front.len()] == p);
                assert(layers[layers.len() - 1].files.contains(p));
            }
        }
        if exists|i: int| 0 <= i < layers.len() && (#[trigger] layers[i]).files.contains(p) {
            let i = choose|i: int|
                0 <= i < layers.len() && (#[trigger] layers[i]).files.contains(p);
            if i < layers.len() - 1 {
                assert(layers.drop_last()[i].files.contains(p));
                assert(front.contains(p));
                let j = choose|j: int| 0 <= j < front.len() && front[j] == p;
                assert(whole[j] == p);
            } else {
                let j = choose|j: int|
                    0 <= j < layers.last().files.len() && layers.last().files[j] == p;
                assert(whole[front.len() + j] == p);
            }
        }
    }
}

/// Manifest categorization is a partition: when the layers' file sets are
/// pairwise disjoint, every file of some layer belongs to exactly one
/// category — its layer's — and every scanned file of no layer belongs to
/// exactly one of the Docs and Assets categories.
pub proof fn lemma_manifest_partition(d: SemmapV, tree: FileNodeV, p: Seq<char>)
    requires
        forall|i: int, j: int, q: Seq<char>|
            0 <= i < j < d.layers.len() && (#[trigger] d.layers[i].files.contains(q)) ==> !(
            #[trigger] d.layers[j].files.contains(q)),
    ensures
        spec_layer_files(d.layers).contains(p) || spec_all_files(tree).contains(p) ==> exists|k: int|
            0 <= k < spec_from_semmap(d, tree).len()
                && #[trigger] spec_from_semmap(d, tree)[k].files.contains(p),
        forall|k1: int, k2: int|
            0 <= k1 < k2 < spec_from_semmap(d, tree).len()
                && (#[trigger] spec_from_semmap(d, tree)[k1].files.contains(p))
                ==> !(#[trigger] spec_from_semmap(d, tree)[k2].files.contains(p)),
{
    let cats = spec_from_semmap(d, tree);
    let nl = d.layers.len() as int;
    let layer_cats = d.layers.map_values(|l: crate::semmap::LayerV| spec_layer_cat(l));
    let claimed = spec_layer_files(d.layers);
    let unclaimed = spec_filter(spec_all_files(tree), |q: Seq<char>| !claimed.contains(q));
    let docs = spec_filter(unclaimed, |q: Seq<char>| is_doc_p(q));
    let other = spec_filter(unclaimed, |q: Seq<char>| !is_doc_p(q));
    lemma_layer_files_contains(d.layers, p);
    lemma_spec_filter(spec_all_files(tree), |q: Seq<char>| !claimed.contains(q), p);
    lemma_spec_filter(unclaimed, |q: Seq<char>| is_doc_p(q), p);
    lemma_spec_filter(unclaimed, |q: Seq<char>| !is_doc_p(q), p);
    let hd: int = if docs.len() > 0 {
        1
    } else {
        0
    };
    let ho: int = if other.len() > 0 {
        1
    } else {
        0
    };
    assert(layer_cats.len() == nl);
    assert(cats.len() == nl + hd + ho);
    assert(forall|i: int| 0 <= i < nl ==> (#[trigger] cats[i]) == layer_cats[i]);
    assert(forall|i: int| 0 <= i < nl ==> (#[trigger] cats[i]).files == d.layers[i].files);
    if hd == 1 {
        assert(cats[nl].files == docs);
    }
    if ho == 1 {
        assert(cats[nl + hd].files == other);
    }
    if claimed.contains(p) {
        let i = choose|i: int| 0 <= i < d.layers.len() && (#[trigger] d.layers[i]).files.contains(p);
        assert(cats[i].files.contains(p));
    } else if spec_all_files(tree).contains(p) {
        assert(unclaimed.contains(p));
        if is_doc_p(p) {
            assert(docs.contains(p));
            assert(docs.len() > 0);
            assert(cats[nl].files.contains(p));
        } else {
            assert(other.contains(p));
            assert(other.len() > 0);
            assert(cats[nl + hd].files.contains(p));
        }
    }
    assert forall|k1: int, k2: int|
        0 <= k1 < k2 < cats.len() && #[trigger] cats[k1].files.contains(p) implies !(
    #[trigger] cats[k2].files.contains(p)) by {
        if cats[k2].files.contains(p) {
            if k1 < nl {
                assert(d.layers[k1].files.contains(p));
                assert(claimed.contains(p));
                if k2 < nl {
                    assert(d.layers[k2].files.contains(p));
                    assert(false);
                } else {
                    assert(cats[k2].files == docs || cats[k2].files == other);
                    lemma_spec_filter(unclaimed, |q: Seq<char>| is_doc_p(q), p);
                    lemma_spec_filter(unclaimed, |q: Seq<char>| !is_doc_p(q), p);
                    lemma_spec_filter(
                        spec_all_files(tree),
                        |q: Seq<char>| !claimed.contains(q),
                        p,
                    );
                    if cats[k2].files == docs {
                        assert(docs.contains(p));
                        assert(unclaimed.contains(p));
                    } else {
                        assert(other.contains(p));
                        assert(unclaimed.contains(p));
                    }
                    assert(!claimed.contains(p));
                    assert(false);
                }
            } else {
                assert(k2 > nl);
                assert(hd == 1 && ho == 1);
                assert(k1 == nl && k2 == nl + 1);
                assert(cats[k1].files == docs);
                assert(cats[k2].files == other);
                assert(docs.contains(p));
                assert(other.contains(p));
                lemma_spec_filter(unclaimed, |q: Seq<char>| is_doc_p(q), p);
                lemma_spec_filter(unclaimed, |q: Seq<char>| !is_doc_p(q), p);
                assert(is_doc_p(p));
                assert(!is_doc_p(p));
                assert(false);
            }
        }
    }
}

} // verus!
