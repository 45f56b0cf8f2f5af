//! The data model: file tree nodes, categories, subsystems, the size
//! index, the exclude list and the session state's building blocks.
use crate::strutil::views;
use vstd::prelude::*;

verus! {

/// One node of the scanned file tree. `path` is relative to the scan root,
/// `size` is 0 for directories, and children are owned exclusively.
pub struct FileNode {
    pub path: String,
    pub name: String,
    pub is_dir: bool,
    pub size: u64,
    pub children: Vec<FileNode>,
    pub expanded: bool,
}

/// The mathematical shape of a file tree node.
pub ghost struct FileNodeV {
    pub path: Seq<char>,
    pub name: Seq<char>,
    pub is_dir: bool,
    pub size: u64,
    pub children: Seq<FileNodeV>,
    pub expanded: bool,
}

/// The shape a `FileNode` denotes.
pub open spec fn node_view(n: FileNode) -> FileNodeV
    decreases n,
{
    FileNodeV {
        path: n.path@,
        name: n.name@,
        is_dir: n.is_dir,
        size: n.size,
        children: nodes_view(n.children@),
        expanded: n.expanded,
    }
}

/// The shapes of a sequence of nodes.
pub open spec fn nodes_view(cs: Seq<FileNode>) -> Seq<FileNodeV>
    decreases cs,
{
    if cs.len() == 0 {
        Seq::empty()
    } else {
        nodes_view(cs.drop_last()).push(node_view(cs.last()))
    }
}

/// `nodes_view` maps the sequence element by element.
pub proof fn lemma_nodes_view(cs: Seq<FileNode>)
    ensures
        nodes_view(cs).len() == cs.len(),
        forall|i: int| 0 <= i < cs.len() ==> nodes_view(cs)[i] == node_view(#[trigger] cs[i]),
    decreases cs,
{
    if cs.len() > 0 {
        lemma_nodes_view(cs.drop_last());
        assert forall|i: int| 0 <= i < cs.len() implies nodes_view(cs)[i] == node_view(
            #[trigger] cs[i],
        ) by {
            if i < cs.len() - 1 {
                assert(cs.drop_last()[i] == cs[i]);
            }
        }
    }
}

/// The tag of a category: one manifest layer, or one of the five fixed
/// heuristic buckets.
pub enum CategoryKind {
    SemmapLayer { index: u8, label: String },
    Source,
    Config,
    Docs,
    Build,
    Assets,
}

pub open spec fn spec_display_name(k: CategoryKind) -> Seq<char> {
    match k {
        CategoryKind::SemmapLayer { label, .. } => label@,
        CategoryKind::Source => "Source"@,
        CategoryKind::Config => "Config"@,
        CategoryKind::Docs => "Docs"@,
        CategoryKind::Build => "Build & Generated"@,
        CategoryKind::Assets => "Assets & Binary"@,
    }
}

impl CategoryKind {
    /// The label shown for this category.
    pub fn display_name(&self) -> (r: &str)
        ensures
            r@ == spec_display_name(*self),
    {
        match self {
            CategoryKind::SemmapLayer { label, .. } => label.as_str(),
            CategoryKind::Source => "Source",
            CategoryKind::Config => "Config",
            CategoryKind::Docs => "Docs",
            CategoryKind::Build => "Build & Generated",
            CategoryKind::Assets => "Assets & Binary",
        }
    }
}

/// A toggleable partition bucket of files.
pub struct Category {
    pub kind: CategoryKind,
    pub files: Vec<String>,
    pub enabled: bool,
}

impl Category {
    /// The label shown for this category.
    pub fn name(&self) -> (r: &str)
        ensures
            r@ == spec_display_name(self.kind),
    {
        self.kind.display_name()
    }

    /// A rough token count for this category's files: the sizes summed,
    /// each divided by three, saturating.
    pub fn token_estimate(&self, sizes: &SizeIndex) -> (r: usize)
        ensures
            r == spec_token_sum(views(self.files@), sizes@),
    {
        token_sum(&self.files, sizes)
    }
}

/// A connected component of the manifest's dependency graph, with at
/// least two member files.
pub struct Subsystem {
    pub name: String,
    pub files: Vec<String>,
    pub enabled: bool,
}

impl Subsystem {
    /// A rough token count for this subsystem's files: the sizes summed,
    /// each divided by three, saturating.
    pub fn token_estimate(&self, sizes: &SizeIndex) -> (r: usize)
        ensures
            r == spec_token_sum(views(self.files@), sizes@),
    {
        token_sum(&self.files, sizes)
    }
}

/// The token estimate one file contributes: a third of its size, clamped
/// into `usize`.
pub open spec fn tok_of(s: u64) -> int {
    if s as int / 3 <= usize::MAX as int {
        s as int / 3
    } else {
        usize::MAX as int / 3
    }
}

/// The token estimate of a file set: per-file estimates summed, saturating
/// at `usize::MAX`; a path without a recorded size contributes nothing.
pub open spec fn spec_token_sum(files: Seq<Seq<char>>, sizes: Map<Seq<char>, u64>) -> int
    decreases files.len(),
{
    if files.len() == 0 {
        0
    } else {
        let rest = spec_token_sum(files.drop_last(), sizes);
        let last = if sizes.contains_key(files.last()) {
            tok_of(sizes[files.last()])
        } else {
            0
        };
        if rest + last > usize::MAX as int {
            usize::MAX as int
        } else {
            rest + last
        }
    }
}

/// The byte total of a file set, saturating at `u64::MAX`; a path without
/// a recorded size contributes nothing.
pub open spec fn spec_byte_sum(files: Seq<Seq<char>>, sizes: Map<Seq<char>, u64>) -> int
    decreases files.len(),
{
    if files.len() == 0 {
        0
    } else {
        let rest = spec_byte_sum(files.drop_last(), sizes);
        let last = if sizes.contains_key(files.last()) {
            sizes[files.last()] as int
        } else {
            0
        };
        if rest + last > u64::MAX as int {
            u64::MAX as int
        } else {
            rest + last
        }
    }
}

/// Sums the token estimates of `files`.
pub fn token_sum(files: &Vec<String>, sizes: &SizeIndex) -> (r: usize)
    ensures
        r == spec_token_sum(views(files@), sizes@),
{
    let n = files.len();
    let mut sum: usize = 0;
    let mut i: usize = 0;
    proof {
        assert(views(files@).take(0) =~= Seq::<Seq<char>>::empty());
    }
    while i < n
        invariant
            i <= n,
            n == files@.len(),
            0 <= sum <= usize::MAX,
            sum == spec_token_sum(views(files@).take(i as int), sizes@),
        decreases n - i,
    {
        proof {
            assert(views(files@).take(i + 1).drop_last() =~= views(files@).take(i as int));
            assert(views(files@).take(i + 1).last() == files@[i as int]@);
        }
        match sizes.get(files[i].as_str()) {
            Some(s) => {
                let t = s / 3;
                let add: usize = if t <= usize::MAX as u64 {
                    t as usize
                } else {
                    usize::MAX / 3
                };
                assert(add == tok_of(s));
                sum = sum.saturating_add(add);
            },
            None => {},
        }
        i = i + 1;
    }
    proof {
        assert(views(files@).take(n as int) =~= views(files@));
    }
    sum
}

/// Sums the byte sizes of `files`.
pub fn byte_sum(files: &Vec<String>, sizes: &SizeIndex) -> (r: u64)
    ensures
        r == spec_byte_sum(views(files@), sizes@),
{
    let n = files.len();
    let mut sum: u64 = 0;
    let mut i: usize = 0;
    proof {
        assert(views(files@).take(0) =~= Seq::<Seq<char>>::empty());
    }
    while i < n
        invariant
            i <= n,
            n == files@.len(),
            sum == spec_byte_sum(views(files@).take(i as int), sizes@),
        decreases n - i,
    {
        proof {
            assert(views(files@).take(i + 1).drop_last() =~= views(files@).take(i as int));
            assert(views(files@).take(i + 1).last() == files@[i as int]@);
        }
        match sizes.get(files[i].as_str()) {
            Some(s) => {
                sum = sum.saturating_add(s);
            },
            None => {},
        }
        i = i + 1;
    }
    proof {
        assert(views(files@).take(n as int) =~= views(files@));
    }
    sum
}

/// Which panel the user's input is addressed to.
#[derive(Debug, Clone, Copy, PartialEq, Eq, Structural)]
pub enum Focus {
    Categories,
    Subsystems,
    Exclude,
    Tree,
}

/// The mapping an association list of path/size entries denotes; a later
/// entry for the same path wins.
pub open spec fn sizes_map(entries: Seq<(String, u64)>) -> Map<Seq<char>, u64>
    decreases entries.len(),
{
    if entries.len() == 0 {
        Map::empty()
    } else {
        sizes_map(entries.drop_last()).insert(entries.last().0@, entries.last().1)
    }
}

/// Byte sizes of the scanned files, keyed by path relative to the root.
pub struct SizeIndex {
    pub entries: Vec<(String, u64)>,
}

impl View for SizeIndex {
    type V = Map<Seq<char>, u64>;

    open spec fn view(&self) -> Map<Seq<char>, u64> {
        sizes_map(self.entries@)
    }
}

/// Entries from position `i` on that never mention `k` leave the map's
/// verdict on `k` to the first `i` entries.
proof fn lemma_sizes_map_agree(entries: Seq<(String, u64)>, i: int, k: Seq<char>)
    requires
        0 <= i <= entries.len(),
        forall|j: int| i <= j < entries.len() ==> (#[trigger] entries[j]).0@ != k,
    ensures
        sizes_map(entries).contains_key(k) == sizes_map(entries.take(i)).contains_key(k),
        sizes_map(entries).contains_key(k) ==> sizes_map(entries)[k] == sizes_map(
            entries.take(i),
        )[k],
    decreases entries.len(),
{
    if i == entries.len() {
        assert(entries.take(i) =~= entries);
    } else {
        assert(entries[entries.len() - 1].0@ != k);
        lemma_sizes_map_agree(entries.drop_last(), i, k);
        assert(entries.drop_last().take(i) =~= entries.take(i));
    }
}

impl SizeIndex {
    pub fn new() -> (r: SizeIndex)
        ensures
            r@ == Map::<Seq<char>, u64>::empty(),
    {
        SizeIndex { entries: Vec::new() }
    }

    /// Records the size of one file.
    pub fn insert(&mut self, path: String, size: u64)
        ensures
            final(self)@ == old(self)@.insert(path@, size),
    {
        self.entries.push((path, size));
        proof {
            assert(self.entries@.drop_last() =~= old(self).entries@);
        }
    }

    /// Looks the size of one file up.
    pub fn get(&self, path: &str) -> (r: Option<u64>)
        ensures
            r == if self@.contains_key(path@) {
                Some(self@[path@])
            } else {
                None::<u64>
            },
    {
        let n = self.entries.len();
        let mut i: usize = n;
        while i > 0
            invariant
                i <= n,
                n == self.entries@.len(),
                forall|j: int| i <= j < n ==> (#[trigger] self.entries@[j]).0@ != path@,
            decreases i,
        {
            i = i - 1;
            let e = &self.entries[i];
            if crate::strutil::str_eq(e.0.as_str(), path) {
                proof {
                    lemma_sizes_map_agree(self.entries@, i + 1, path@);
                    assert(self.entries@.take(i + 1).drop_last() =~= self.entries@.take(i as int));
                    assert(self.entries@.take(i + 1).last() == self.entries@[i as int]);
                }
                return Some(e.1);
            }
        }
        proof {
            lemma_sizes_map_agree(self.entries@, 0, path@);
            assert(self.entries@.take(0) =~= Seq::<(String, u64)>::empty());
        }
        None
    }
}

/// User-chosen paths removed from the resolved set no matter what the
/// category and subsystem toggles say.
pub struct ExcludeList {
    list: Vec<String>,
}

/// `s` with the first occurrence of `x` removed.
pub open spec fn remove_first(s: Seq<Seq<char>>, x: Seq<char>) -> Seq<Seq<char>>
    decreases s.len(),
{
    if s.len() == 0 {
        s
    } else if s[0] == x {
        s.drop_first()
    } else {
        seq![s[0]] + remove_first(s.drop_first(), x)
    }
}

impl ExcludeList {
    pub fn new() -> (r: ExcludeList)
        ensures
            views(r@) == Seq::<Seq<char>>::empty(),
    {
        ExcludeList { list: Vec::new() }
    }

    pub closed spec fn view(&self) -> Seq<String> {
        self.list@
    }

    /// Whether `path` is on the list.
    pub fn contains(&self, path: &str) -> (r: bool)
        ensures
            r == views(self@).contains(path@),
    {
        let n = self.list.len();
        let mut i: usize = 0;
        while i < n
            invariant
                i <= n,
                n == self.list@.len(),
                forall|j: int| 0 <= j < i ==> views(self@)[j] != path@,
            decreases n - i,
        {
            if crate::strutil::str_eq(self.list[i].as_str(), path) {
                assert(views(self@)[i as int] == path@);
                return true;
            }
            i = i + 1;
        }
        assert(!views(self@).contains(path@));
        false
    }

    /// Adds `path` if absent, removes its first occurrence if present.
    pub fn toggle(&mut self, path: String)
        ensures
            views(old(self)@).contains(path@) ==> views(final(self)@) == remove_first(
                views(old(self)@),
                path@,
            ),
            !views(old(self)@).contains(path@) ==> views(final(self)@) == views(
                old(self)@,
            ).push(path@),
    {
        let n = self.list.len();
        let mut i: usize = 0;
        while i < n
            invariant
                i <= n,
                n == self.list@.len(),
                *self == *old(self),
                forall|j: int| 0 <= j < i ==> views(self@)[j] != path@,
            decreases n - i,
        {
            if crate::strutil::str_eq(self.list[i].as_str(), path.as_str()) {
                assert(views(self@)[i as int] == path@);
                assert(views(self@).contains(path@));
                proof {
                    lemma_remove_first_at(views(self@), path@, i as int);
                    assert(views(self@).remove(i as int) =~= views(self@.remove(i as int)));
                }
                self.list.remove(i);
                return ;
            }
            i = i + 1;
        }
        assert(!views(self@).contains(path@));
        proof {
            assert(views(self@.push(path)) =~= views(self@).push(path@));
        }
        self.list.push(path);
    }

    /// The listed paths, in insertion order.
    pub fn items(&self) -> (r: &Vec<String>)
        ensures
            r@ == self@,
    {
        &self.list
    }

    pub fn is_empty(&self) -> (r: bool)
        ensures
            r == (self@.len() == 0),
    {
        self.list.is_empty()
    }

    pub fn len(&self) -> (r: usize)
        ensures
            r == self@.len(),
    {
        self.list.len()
    }

    /// The path at one position.
    pub fn item_at(&self, i: usize) -> (r: &String)
        requires
            i < self@.len(),
        ensures
            r == self@[i as int],
    {
        &self.list[i]
    }
}

/// An optional gitignore matcher, compiled once at startup by the caller.
#[verifier::external_type_specification]
#[verifier::external_body]
pub struct ExGitignore(ignore::gitignore::Gitignore);

/// Wraps the optional gitignore matcher; without one, nothing is ignored.
pub struct GitignoreFilter {
    inner: Option<ignore::gitignore::Gitignore>,
}

impl GitignoreFilter {
    /// Whether a matcher was loaded.
    pub closed spec fn spec_has_filter(&self) -> bool {
        self.inner is Some
    }

    pub fn new(gi: ignore::gitignore::Gitignore) -> (r: Self)
        ensures
            r.spec_has_filter(),
    {
        GitignoreFilter { inner: Some(gi) }
    }

    pub fn has_filter(&self) -> (r: bool)
        ensures
            r == self.spec_has_filter(),
    {
        self.inner.is_some()
    }

    /// Whether the matcher ignores `root`/`rel`; always false without a
    /// matcher. Which paths a matcher ignores depends on the patterns it
    /// was built from, which stay opaque here: callers treat the verdicts
    /// as data.
    pub fn is_ignored(&self, root: &str, rel: &str) -> (r: bool)
        ensures
            !self.spec_has_filter() ==> !r,
    {
        match &self.inner {
            None => false,
            Some(gi) => matched_is_ignore(gi, root, rel),
        }
    }
}

impl Default for GitignoreFilter {
    fn default() -> (r: Self)
        ensures
            !r.spec_has_filter(),
    {
        GitignoreFilter { inner: None }
    }
}

/// Relies on ignore's Gitignore::matched: joins the relative path onto the
/// root and asks whether the highest-precedence matching glob says ignore.
/// The verdict depends on the patterns the matcher was built from.
#[verifier::external_body]
fn matched_is_ignore(gi: &ignore::gitignore::Gitignore, root: &str, rel: &str) -> bool {
    let full = std::path::Path::new(root).join(rel);
    gi.matched(full, false).is_ignore()
}

/// Removing the first occurrence of `x`, when it stands at index `i`,
/// removes exactly index `i`.
proof fn lemma_remove_first_at(s: Seq<Seq<char>>, x: Seq<char>, i: int)
    requires
        0 <= i < s.len(),
        s[i] == x,
        forall|j: int| 0 <= j < i ==> s[j] != x,
    ensures
        remove_first(s, x) == s.remove(i),
    decreases i,
{
    if i == 0 {
        assert(s.drop_first() =~= s.remove(0));
    } else {
        lemma_remove_first_at(s.drop_first(), x, i - 1);
        assert(seq![s[0]] + s.drop_first().remove(i - 1) =~= s.remove(i));
    }
}

/// Whether some enabled category claims `p`.
pub open spec fn in_enabled_cats(cats: Seq<crate::categories::CategoryV>, p: Seq<char>) -> bool {
    exists|i: int| 0 <= i < cats.len() && (#[trigger] cats[i]).enabled && cats[i].files.contains(p)
}

/// Whether some enabled subsystem claims `p`.
pub open spec fn in_enabled_subs(subs: Seq<crate::subsystems::SubsystemV>, p: Seq<char>) -> bool {
    exists|i: int| 0 <= i < subs.len() && (#[trigger] subs[i]).enabled && subs[i].files.contains(p)
}

/// Whether resolution selects `p`: `p` comes from an enabled category,
/// survives the subsystem intersection (which applies as soon as any
/// subsystem exists), the exclude set and the ignored set — or `p` is a
/// manual include outside the exclude set.
pub open spec fn spec_selected(
    cats: Seq<crate::categories::CategoryV>,
    subs: Seq<crate::subsystems::SubsystemV>,
    excl: Seq<Seq<char>>,
    manual: Seq<Seq<char>>,
    ign: Set<Seq<char>>,
    p: Seq<char>,
) -> bool {
    let base = in_enabled_cats(cats, p) && (subs.len() == 0 || in_enabled_subs(subs, p))
        && !excl.contains(p) && !ign.contains(p);
    base || (manual.contains(p) && !excl.contains(p))
}

/// The files of all enabled categories, in order.
pub open spec fn spec_enabled_concat(cats: Seq<crate::categories::CategoryV>) -> Seq<Seq<char>>
    decreases cats.len(),
{
    if cats.len() == 0 {
        Seq::empty()
    } else {
        let rest = spec_enabled_concat(cats.drop_last());
        if cats.last().enabled {
            rest + cats.last().files
        } else {
            rest
        }
    }
}

proof fn lemma_enabled_concat(cats: Seq<crate::categories::CategoryV>, p: Seq<char>)
    ensures
        spec_enabled_concat(cats).contains(p) <==> in_enabled_cats(cats, p),
    decreases cats.len(),
{
    if cats.len() > 0 {
        lemma_enabled_concat(cats.drop_last(), p);
        let whole = spec_enabled_concat(cats);
        let front = spec_enabled_concat(cats.drop_last());
        if whole.contains(p) {
            let j = choose|j: int| 0 <= j < whole.len() && whole[j] == p;
            if j < front.len() {
                assert(front[j] == p);
                assert(front.contains(p));
                let i = choose|i: int|
                    0 <= i < cats.drop_last().len() && (#[trigger] cats.drop_last()[i]).enabled
                        && cats.drop_last()[i].files.contains(p);
                assert(cats[i].enabled && cats[i].files.contains(p));
            } else {
                assert(cats.last().enabled);
                assert(cats.last().files[j - front.len()] == p);
                assert(cats[cats.len() - 1].enabled && cats[cats.len() - 1].files.contains(p));
            }
        }
        if in_enabled_cats(cats, p) {
            let i = choose|i: int|
                0 <= i < cats.len() && (#[trigger] cats[i]).enabled && cats[i].files.contains(p);
            if i < cats.len() - 1 {
                assert(cats.drop_last()[i].enabled && cats.drop_last()[i].files.contains(p));
                assert(in_enabled_cats(cats.drop_last(), p));
                let j = choose|j: int| 0 <= j < front.len() && front[j] == p;
                assert(whole[j] == p);
            } else {
                let j = choose|j: int|
                    0 <= j < cats.last().files.len() && cats.last().files[j] == p;
                assert(whole[front.len() + j] == p);
            }
        }
    }
}

/// Each member of a concatenation comes from one side.
proof fn lemma_concat_contains(a: Seq<Seq<char>>, b: Seq<Seq<char>>, p: Seq<char>)
    ensures
        (a + b).contains(p) <==> a.contains(p) || b.contains(p),
{
    if (a + b).contains(p) {
        let j = choose|j: int| 0 <= j < (a + b).len() && (a + b)[j] == p;
        if j < a.len() {
            assert(a[j] == p);
        } else {
            assert(b[j - a.len()] == p);
        }
    }
    if a.contains(p) {
        let j = choose|j: int| 0 <= j < a.len() && a[j] == p;
        assert((a + b)[j] == p);
    }
    if b.contains(p) {
        let j = choose|j: int| 0 <= j < b.len() && b[j] == p;
        assert((a + b)[j + a.len()] == p);
    }
}

/// Whether some enabled category claims `p`.
fn in_enabled_cats_exec(cats: &Vec<Category>, p: &str) -> (r: bool)
    ensures
        r == in_enabled_cats(crate::categories::cats_view(cats@), p@),
{
    let ghost cv = crate::categories::cats_view(cats@);
    let n = cats.len();
    let mut i: usize = 0;
    while i < n
        invariant
            i <= n,
            n == cats@.len() == cv.len(),
            cv == crate::categories::cats_view(cats@),
            forall|j: int| 0 <= j < i ==> !((#[trigger] cv[j]).enabled && cv[j].files.contains(p@)),
        decreases n - i,
    {
        if cats[i].enabled && crate::strutil::contains_path(&cats[i].files, p) {
            assert(cv[i as int].enabled && cv[i as int].files.contains(p@));
            return true;
        }
        proof {
            assert(cv[i as int].enabled == cats@[i as int].enabled);
        }
        i = i + 1;
    }
    false
}

/// Whether some enabled subsystem claims `p`.
fn in_enabled_subs_exec(subs: &Vec<Subsystem>, p: &str) -> (r: bool)
    ensures
        r == in_enabled_subs(crate::subsystems::subs_view(subs@), p@),
{
    let ghost sv = crate::subsystems::subs_view(subs@);
    let n = subs.len();
    let mut i: usize = 0;
    while i < n
        invariant
            i <= n,
            n == subs@.len() == sv.len(),
            sv == crate::subsystems::subs_view(subs@),
            forall|j: int| 0 <= j < i ==> !((#[trigger] sv[j]).enabled && sv[j].files.contains(p@)),
        decreases n - i,
    {
        if subs[i].enabled && crate::strutil::contains_path(&subs[i].files, p) {
            assert(sv[i as int].enabled && sv[i as int].files.contains(p@));
            return true;
        }
        proof {
            assert(sv[i as int].enabled == subs@[i as int].enabled);
        }
        i = i + 1;
    }
    false
}

/// Whether `r` holds exactly the paths resolution selects under the
/// given toggle state and ignored set.
pub open spec fn selects_exactly(
    r: Seq<Seq<char>>,
    cats: Seq<crate::categories::CategoryV>,
    subs: Seq<crate::subsystems::SubsystemV>,
    excl: Seq<Seq<char>>,
    manual: Seq<Seq<char>>,
    ign: Set<Seq<char>>,
) -> bool {
    forall|p: Seq<char>|
        r.contains(p) <==> #[trigger] spec_selected(cats, subs, excl, manual, ign, p)
}

/// Resolves the toggle state into the final file list: the union of the
/// enabled categories, intersected with the enabled subsystems as soon as
/// any subsystem exists, minus the exclude set, minus `ignored`, plus the
/// manual includes outside the exclude set — ascending and duplicate-free.
pub fn resolve_selection(
    categories: &Vec<Category>,
    subsystems: &Vec<Subsystem>,
    exclude: &ExcludeList,
    manual_includes: &Vec<String>,
    ignored: &Vec<String>,
) -> (r: Vec<String>)
    ensures
        crate::strutil::strict_sorted_lex(views(r@)),
        forall|p: Seq<char>| #[trigger]
            views(r@).contains(p) <==> spec_selected(
                crate::categories::cats_view(categories@),
                crate::subsystems::subs_view(subsystems@),
                views(exclude@),
                views(manual_includes@),
                views(ignored@).to_set(),
                p,
            ),
{
    let ghost cv = crate::categories::cats_view(categories@);
    let ghost sv = crate::subsystems::subs_view(subsystems@);

    // the files of every enabled category
    let ncats = categories.len();
    let mut list: Vec<String> = Vec::new();
    let mut i: usize = 0;
    proof {
        assert(cv.take(0) =~= Seq::<crate::categories::CategoryV>::empty());
        assert(views(list@) =~= spec_enabled_concat(cv.take(0)));
    }
    while i < ncats
        invariant
            i <= ncats,
            ncats == categories@.len() == cv.len(),
            cv == crate::categories::cats_view(categories@),
            views(list@) == spec_enabled_concat(cv.take(i as int)),
        decreases ncats - i,
    {
        proof {
            assert(cv.take(i + 1).drop_last() =~= cv.take(i as int));
            assert(cv.take(i + 1).last() == cv[i as int]);
        }
        if categories[i].enabled {
            let mut fs = crate::strutil::clone_paths(&categories[i].files);
            proof {
                assert(views(list@ + fs@) =~= views(list@) + views(fs@));
            }
            list.append(&mut fs);
        }
        i = i + 1;
    }
    proof {
        assert(cv.take(ncats as int) =~= cv);
    }
    // intersect with the enabled subsystems once any subsystem exists
    let has_subs = subsystems.len() > 0;
    let s2 = if has_subs {
        filter_by_subs(list, subsystems)
    } else {
        list
    };
    // remove the excluded paths
    let s3 = filter_out_excluded(s2, exclude);
    // remove the ignored paths
    let s4 = filter_out_listed(s3, ignored);
    // append the manual includes that are not excluded
    let mut s5 = s4;
    let ghost base = views(s5@);
    let nman = manual_includes.len();
    let mut k: usize = 0;
    proof {
        assert(views(manual_includes@).take(0) =~= Seq::<Seq<char>>::empty());
        assert(views(s5@) =~= base + crate::categories::spec_filter(
            views(manual_includes@).take(0),
            |p: Seq<char>| !views(exclude@).contains(p),
        ));
    }
    while k < nman
        invariant
            k <= nman,
            nman == manual_includes@.len(),
            views(s5@) == base + crate::categories::spec_filter(
                views(manual_includes@).take(k as int),
                |p: Seq<char>| !views(exclude@).contains(p),
            ),
        decreases nman - k,
    {
        proof {
            assert(views(manual_includes@).take(k + 1).drop_last() =~= views(
                manual_includes@,
            ).take(k as int));
            assert(views(manual_includes@).take(k + 1).last() == manual_includes@[k as int]@);
        }
        if !exclude.contains(manual_includes[k].as_str()) {
            proof {
                assert(views(s5@.push(manual_includes@[k as int])) =~= views(s5@).push(
                    manual_includes@[k as int]@,
                ));
            }
            let x = manual_includes[k].clone();
            s5.push(x);
        }
        k = k + 1;
    }
    proof {
        assert(views(manual_includes@).take(nman as int) =~= views(manual_includes@));
    }
    // sort ascending and drop duplicates
    let sorted = crate::strutil::sort_paths(s5);
    let out = crate::strutil::dedup_paths(sorted);
    proof {
        let ev = views(exclude@);
        let mv = views(manual_includes@);
        let iv = views(ignored@);
        let l1 = spec_enabled_concat(cv);
        let l2 = if sv.len() > 0 {
            crate::categories::spec_filter(l1, |p: Seq<char>| in_enabled_subs(sv, p))
        } else {
            l1
        };
        let l3 = crate::categories::spec_filter(l2, |p: Seq<char>| !ev.contains(p));
        let l4 = crate::categories::spec_filter(l3, |p: Seq<char>| !iv.contains(p));
        let l5 = l4 + crate::categories::spec_filter(mv, |p: Seq<char>| !ev.contains(p));
        crate::strutil::lemma_sort_lex(l5);
        crate::strutil::lemma_dedup(crate::strutil::sort_lex(l5));
        assert forall|p: Seq<char>| #[trigger] views(out@).contains(p) <==> spec_selected(
            cv,
            sv,
            ev,
            mv,
            iv.to_set(),
            p,
        ) by {
            lemma_enabled_concat(cv, p);
            if sv.len() > 0 {
                crate::categories::lemma_spec_filter(
                    l1,
                    |q: Seq<char>| in_enabled_subs(sv, q),
                    p,
                );
            }
            crate::categories::lemma_spec_filter(l2, |q: Seq<char>| !ev.contains(q), p);
            crate::categories::lemma_spec_filter(l3, |q: Seq<char>| !iv.contains(q), p);
            crate::categories::lemma_spec_filter(mv, |q: Seq<char>| !ev.contains(q), p);
            lemma_concat_contains(
                l4,
                crate::categories::spec_filter(mv, |q: Seq<char>| !ev.contains(q)),
                p,
            );
        }
    }
    out
}

/// Keeps the paths some enabled subsystem claims.
fn filter_by_subs(v: Vec<String>, subs: &Vec<Subsystem>) -> (r: Vec<String>)
    ensures
        views(r@) == crate::categories::spec_filter(
            views(v@),
            |p: Seq<char>| in_enabled_subs(crate::subsystems::subs_view(subs@), p),
        ),
{
    let ghost sv = crate::subsystems::subs_view(subs@);
    let n = v.len();
    let mut out: Vec<String> = Vec::new();
    let mut i: usize = 0;
    proof {
        assert(views(v@).take(0) =~= Seq::<Seq<char>>::empty());
        assert(views(out@) =~= crate::categories::spec_filter(
            views(v@).take(0),
            |p: Seq<char>| in_enabled_subs(sv, p),
        ));
    }
    while i < n
        invariant
            i <= n,
            n == v@.len(),
            sv == crate::subsystems::subs_view(subs@),
            views(out@) == crate::categories::spec_filter(
                views(v@).take(i as int),
                |p: Seq<char>| in_enabled_subs(sv, p),
            ),
        decreases n - i,
    {
        proof {
            assert(views(v@).take(i + 1).drop_last() =~= views(v@).take(i as int));
            assert(views(v@).take(i + 1).last() == v@[i as int]@);
        }
        if in_enabled_subs_exec(subs, v[i].as_str()) {
            proof {
                assert(views(out@.push(v@[i as int])) =~= views(out@).push(v@[i as int]@));
            }
            let x = v[i].clone();
            out.push(x);
        }
        i = i + 1;
    }
    proof {
        assert(views(v@).take(n as int) =~= views(v@));
    }
    out
}

/// Drops the paths on the exclude list.
fn filter_out_excluded(v: Vec<String>, exclude: &ExcludeList) -> (r: Vec<String>)
    ensures
        views(r@) == crate::categories::spec_filter(
            views(v@),
            |p: Seq<char>| !views(exclude@).contains(p),
        ),
{
    let n = v.len();
    let mut out: Vec<String> = Vec::new();
    let mut i: usize = 0;
    proof {
        assert(views(v@).take(0) =~= Seq::<Seq<char>>::empty());
        assert(views(out@) =~= crate::categories::spec_filter(
            views(v@).take(0),
            |p: Seq<char>| !views(exclude@).contains(p),
        ));
    }
    while i < n
        invariant
            i <= n,
            n == v@.len(),
            views(out@) == crate::categories::spec_filter(
                views(v@).take(i as int),
                |p: Seq<char>| !views(exclude@).contains(p),
            ),
        decreases n - i,
    {
        proof {
            assert(views(v@).take(i + 1).drop_last() =~= views(v@).take(i as int));
            assert(views(v@).take(i + 1).last() == v@[i as int]@);
        }
        if !exclude.contains(v[i].as_str()) {
            proof {
                assert(views(out@.push(v@[i as int])) =~= views(out@).push(v@[i as int]@));
            }
            let x = v[i].clone();
            out.push(x);
        }
        i = i + 1;
    }
    proof {
        assert(views(v@).take(n as int) =~= views(v@));
    }
    out
}

/// Drops the paths on `listed`.
fn filter_out_listed(v: Vec<String>, listed: &Vec<String>) -> (r: Vec<String>)
    ensures
        views(r@) == crate::categories::spec_filter(
            views(v@),
            |p: Seq<char>| !views(listed@).contains(p),
        ),
{
    let n = v.len();
    let mut out: Vec<String> = Vec::new();
    let mut i: usize = 0;
    proof {
        assert(views(v@).take(0) =~= Seq::<Seq<char>>::empty());
        assert(views(out@) =~= crate::categories::spec_filter(
            views(v@).take(0),
            |p: Seq<char>| !views(listed@).contains(p),
        ));
    }
    while i < n
        invariant
            i <= n,
            n == v@.len(),
            views(out@) == crate::categories::spec_filter(
                views(v@).take(i as int),
                |p: Seq<char>| !views(listed@).contains(p),
            ),
        decreases n - i,
    {
        proof {
            assert(views(v@).take(i + 1).drop_last() =~= views(v@).take(i as int));
            assert(views(v@).take(i + 1).last() == v@[i as int]@);
        }
        if !crate::strutil::contains_path(listed, v[i].as_str()) {
            proof {
                assert(views(out@.push(v@[i as int])) =~= views(out@).push(v@[i as int]@));
            }
            let x = v[i].clone();
            out.push(x);
        }
        i = i + 1;
    }
    proof {
        assert(views(v@).take(n as int) =~= views(v@));
    }
    out
}

/// The session's state: the scanned snapshot, the derived categories and
/// subsystems, and the live toggle state.
pub struct AppState {
    pub root: String,
    pub tree: FileNode,
    pub file_sizes: SizeIndex,
    pub categories: Vec<Category>,
    pub subsystems: Vec<Subsystem>,
    pub exclude: ExcludeList,
    pub manual_includes: Vec<String>,
    pub has_semmap: bool,
    pub has_gitignore: bool,
    pub respect_gitignore: bool,
    pub gitignore_filter: GitignoreFilter,
    pub all_collapsed: bool,
    pub focus: Focus,
    pub cat_cursor: usize,
    pub sub_cursor: usize,
    pub exclude_cursor: usize,
    pub tree_cursor: usize,
}

/// The category list's row count: two control rows, one per category, and
/// one more when an ignore file exists; clamped into `usize`.
pub open spec fn spec_cat_list_len(s: AppState) -> int {
    let raw = 2 + s.categories@.len() + (if s.has_gitignore {
        1int
    } else {
        0
    });
    if raw > usize::MAX as int {
        usize::MAX as int
    } else {
        raw
    }
}

impl AppState {
    /// The tree cursor's position.
    pub fn tree_cursor(&self) -> (r: usize)
        ensures
            r == self.tree_cursor,
    {
        self.tree_cursor
    }

    /// Moves the tree cursor.
    pub fn set_tree_cursor(&mut self, idx: usize)
        ensures
            *final(self) == (AppState { tree_cursor: idx, ..*old(self) }),
    {
        self.tree_cursor = idx;
    }

    /// Two control rows, an optional ignore-file row, and the categories.
    pub fn cat_list_len(&self) -> (r: usize)
        ensures
            r == spec_cat_list_len(*self),
    {
        let extra: usize = if self.has_gitignore {
            3
        } else {
            2
        };
        self.categories.len().saturating_add(extra)
    }

    /// Whether every category is enabled.
    pub fn are_all_selected(&self) -> (r: bool)
        ensures
            r == (forall|i: int|
                0 <= i < self.categories@.len() ==> (#[trigger] self.categories@[i]).enabled),
    {
        let n = self.categories.len();
        let mut i: usize = 0;
        while i < n
            invariant
                i <= n,
                n == self.categories@.len(),
                forall|j: int| 0 <= j < i ==> (#[trigger] self.categories@[j]).enabled,
            decreases n - i,
        {
            if !self.categories[i].enabled {
                return false;
            }
            i = i + 1;
        }
        true
    }

    /// The resolved file list for the current toggle state: ascending,
    /// duplicate-free, and selecting by `spec_selected` under the ignore
    /// verdicts collected on this call — exactly the empty ignored set
    /// whenever the ignore filter does not apply.
    pub fn selected_paths(&self) -> (r: Vec<String>)
        ensures
            crate::strutil::strict_sorted_lex(views(r@)),
            exists|ign: Set<Seq<char>>| #[trigger]
                selects_exactly(
                    views(r@),
                    crate::categories::cats_view(self.categories@),
                    crate::subsystems::subs_view(self.subsystems@),
                    views(self.exclude@),
                    views(self.manual_includes@),
                    ign,
                ),
            !(self.respect_gitignore && self.gitignore_filter.spec_has_filter())
                ==> selects_exactly(
                views(r@),
                crate::categories::cats_view(self.categories@),
                crate::subsystems::subs_view(self.subsystems@),
                views(self.exclude@),
                views(self.manual_includes@),
                Set::empty(),
            ),
    {
        let mut ignored: Vec<String> = Vec::new();
        if self.respect_gitignore && self.gitignore_filter.has_filter() {
            let ncats = self.categories.len();
            let mut i: usize = 0;
            while i < ncats
                invariant
                    ncats == self.categories@.len(),
                decreases ncats - i,
            {
                let files = &self.categories[i].files;
                let m = files.len();
                let mut j: usize = 0;
                while j < m
                    invariant
                        m == files@.len(),
                    decreases m - j,
                {
                    if self.gitignore_filter.is_ignored(
                        self.root.as_str(),
                        files[j].as_str(),
                    ) {
                        let x = files[j].clone();
                        ignored.push(x);
                    }
                    j = j + 1;
                }
                i = i + 1;
            }
        }
        let r = resolve_selection(
            &self.categories,
            &self.subsystems,
            &self.exclude,
            &self.manual_includes,
            &ignored,
        );
        proof {
            let ign = views(ignored@).to_set();
            assert(selects_exactly(
                views(r@),
                crate::categories::cats_view(self.categories@),
                crate::subsystems::subs_view(self.subsystems@),
                views(self.exclude@),
                views(self.manual_includes@),
                ign,
            ));
            if !(self.respect_gitignore && self.gitignore_filter.spec_has_filter()) {
                assert(views(ignored@).len() == 0);
                assert(ign =~= Set::<Seq<char>>::empty());
            }
        }
        r
    }

    /// The token estimate of the resolved file list.
    pub fn total_tokens(&self) -> (r: usize)
        ensures
            exists|sel: Seq<Seq<char>>|
                {
                    &&& crate::strutil::strict_sorted_lex(sel)
                    &&& exists|ign: Set<Seq<char>>| #[trigger]
                        selects_exactly(
                            sel,
                            crate::categories::cats_view(self.categories@),
                            crate::subsystems::subs_view(self.subsystems@),
                            views(self.exclude@),
                            views(self.manual_includes@),
                            ign,
                        )
                    &&& r == spec_token_sum(sel, self.file_sizes@)
                },
    {
        let sel = self.selected_paths();
        let r = token_sum(&sel, &self.file_sizes);
        proof {
            assert(crate::strutil::strict_sorted_lex(views(sel@)) && r == spec_token_sum(
                views(sel@),
                self.file_sizes@,
            ));
        }
        r
    }

    /// The byte total of the resolved file list.
    pub fn total_bytes(&self) -> (r: u64)
        ensures
            exists|sel: Seq<Seq<char>>|
                {
                    &&& crate::strutil::strict_sorted_lex(sel)
                    &&& exists|ign: Set<Seq<char>>| #[trigger]
                        selects_exactly(
                            sel,
                            crate::categories::cats_view(self.categories@),
                            crate::subsystems::subs_view(self.subsystems@),
                            views(self.exclude@),
                            views(self.manual_includes@),
                            ign,
                        )
                    &&& r == spec_byte_sum(sel, self.file_sizes@)
                },
    {
        let sel = self.selected_paths();
        byte_sum(&sel, &self.file_sizes)
    }

    /// Pulls every cursor back into its list's range.
    pub fn clamp_cursors(&mut self)
        ensures
            *final(self) == (AppState {
                cat_cursor: spec_clamped(
                    old(self).cat_cursor as int,
                    spec_cat_list_len(*old(self)),
                ),
                sub_cursor: spec_clamped(
                    old(self).sub_cursor as int,
                    old(self).subsystems@.len() as int,
                ),
                exclude_cursor: spec_clamped(
                    old(self).exclude_cursor as int,
                    old(self).exclude@.len() as int,
                ),
                ..*old(self)
            }),
    {
        let cl = self.cat_list_len();
        if self.cat_cursor > cl.saturating_sub(1) {
            self.cat_cursor = cl.saturating_sub(1);
        }
        let sl = self.subsystems.len();
        if self.sub_cursor > sl.saturating_sub(1) {
            self.sub_cursor = sl.saturating_sub(1);
        }
        let el = self.exclude.len();
        if self.exclude_cursor > el.saturating_sub(1) {
            self.exclude_cursor = el.saturating_sub(1);
        }
    }
}

/// The cursor clamped to a list of `len` rows.
pub open spec fn spec_clamped(cursor: int, len: int) -> usize {
    let cap = if len > 0 {
        len - 1
    } else {
        0
    };
    if cursor > cap {
        cap as usize
    } else {
        cursor as usize
    }
}

/// Resolution is pure and idempotent: over one toggle state (and one
/// ignored set), any two resolved lists — each ascending, duplicate-free
/// and selecting exactly the resolved membership — are the same list.
pub proof fn lemma_resolution_idempotent(
    cats: Seq<crate::categories::CategoryV>,
    subs: Seq<crate::subsystems::SubsystemV>,
    excl: Seq<Seq<char>>,
    manual: Seq<Seq<char>>,
    ign: Set<Seq<char>>,
    a: Seq<Seq<char>>,
    b: Seq<Seq<char>>,
)
    requires
        crate::strutil::strict_sorted_lex(a),
        crate::strutil::strict_sorted_lex(b),
        forall|p: Seq<char>| a.contains(p) <==> spec_selected(cats, subs, excl, manual, ign, p),
        forall|p: Seq<char>| b.contains(p) <==> spec_selected(cats, subs, excl, manual, ign, p),
    ensures
        a == b,
{
    crate::strutil::lemma_strict_sorted_unique(a, b);
}

} // verus!
