//! Subsystem clusterer: reads the manifest's dependency edges as an
//! undirected graph and groups the layers' files into connected
//! components, visited in layer file order; a component of two or more
//! files becomes a subsystem named after the most frequent parent
//! directory among its members.
use crate::categories::{file_name_of, lemma_spec_filter, spec_filter};
use crate::semmap::{edges_view, semmap_view, spec_layer_files, DepEdge, EdgeV, SemmapData};
use crate::strutil::{
    contains_path, dec_str, lemma_rfind_ch, rfind_ch, rfind_char, str_eq, substr_string,
    u64_to_string, views,
};
use crate::types::Subsystem;
use vstd::prelude::*;
use vstd::seq_lib::seq_to_set_is_finite;
use vstd::set_lib::lemma_len_subset;

verus! {

broadcast use seq_to_set_is_finite;

/// The mathematical shape of a subsystem.
pub ghost struct SubsystemV {
    pub name: Seq<char>,
    pub files: Seq<Seq<char>>,
    pub enabled: bool,
}

pub open spec fn sub_view(s: Subsystem) -> SubsystemV {
    SubsystemV { name: s.name@, files: views(s.files@), enabled: s.enabled }
}

pub open spec fn subs_view(ss: Seq<Subsystem>) -> Seq<SubsystemV> {
    ss.map_values(|s: Subsystem| sub_view(s))
}

/// Both endpoints of every edge, in edge order.
pub open spec fn endpoints(edges: Seq<EdgeV>) -> Seq<Seq<char>>
    decreases edges.len(),
{
    if edges.len() == 0 {
        Seq::empty()
    } else {
        endpoints(edges.drop_last()).push(edges.last().from).push(edges.last().to)
    }
}

/// The neighbours of `x` in the undirected reading of the edges, in edge
/// order; each edge contributes both directions.
pub open spec fn neighbors_of(edges: Seq<EdgeV>, x: Seq<char>) -> Seq<Seq<char>>
    decreases edges.len(),
{
    if edges.len() == 0 {
        Seq::empty()
    } else {
        let rest = neighbors_of(edges.drop_last(), x);
        let e = edges.last();
        let with_to = if e.from == x {
            rest.push(e.to)
        } else {
            rest
        };
        if e.to == x {
            with_to.push(e.from)
        } else {
            with_to
        }
    }
}

/// Every neighbour is an edge endpoint.
proof fn lemma_neighbors_endpoints(edges: Seq<EdgeV>, x: Seq<char>)
    ensures
        forall|j: int|
            0 <= j < neighbors_of(edges, x).len() ==> endpoints(edges).to_set().contains(
                #[trigger] neighbors_of(edges, x)[j],
            ),
    decreases edges.len(),
{
    if edges.len() > 0 {
        lemma_neighbors_endpoints(edges.drop_last(), x);
        assert forall|j: int| 0 <= j < neighbors_of(edges, x).len() implies endpoints(
            edges,
        ).to_set().contains(#[trigger] neighbors_of(edges, x)[j]) by {
            let rest = neighbors_of(edges.drop_last(), x);
            let n = neighbors_of(edges, x)[j];
            if j < rest.len() {
                assert(endpoints(edges.drop_last()).to_set().contains(n));
                let ep = endpoints(edges.drop_last());
                assert(ep.contains(n));
                let i = choose|i: int| 0 <= i < ep.len() && ep[i] == n;
                assert(endpoints(edges)[i] == n);
                assert(endpoints(edges).contains(n));
            } else {
                assert(n == edges.last().from || n == edges.last().to);
                let ep2 = endpoints(edges);
                assert(ep2[ep2.len() - 2] == edges.last().from);
                assert(ep2[ep2.len() - 1] == edges.last().to);
                assert(endpoints(edges).contains(n));
            }
        }
    }
}

/// How many interesting nodes the traversal has not visited yet: the
/// edge endpoints and queued nodes outside the visited set.
pub open spec fn dfs_measure(
    queue: Seq<Seq<char>>,
    visited: Seq<Seq<char>>,
    edges: Seq<EdgeV>,
) -> int {
    endpoints(edges).to_set().union(queue.to_set()).difference(visited.to_set()).len() as int
}

proof fn lemma_dfs_measure_finite(queue: Seq<Seq<char>>, visited: Seq<Seq<char>>, edges: Seq<EdgeV>)
    ensures
        endpoints(edges).to_set().union(queue.to_set()).difference(visited.to_set()).finite(),
        dfs_measure(queue, visited, edges) >= 0,
{
    let u = endpoints(edges).to_set().union(queue.to_set());
    assert(u.finite());
    vstd::set_lib::lemma_set_subset_finite(u, u.difference(visited.to_set()));
    assert(u.difference(visited.to_set()).subset_of(u));
}

/// Dropping the last queue entry never raises the measure.
proof fn lemma_measure_skip(queue: Seq<Seq<char>>, visited: Seq<Seq<char>>, edges: Seq<EdgeV>)
    requires
        queue.len() > 0,
    ensures
        dfs_measure(queue.drop_last(), visited, edges) <= dfs_measure(queue, visited, edges),
{
    let u1 = endpoints(edges).to_set().union(queue.drop_last().to_set()).difference(
        visited.to_set(),
    );
    let u2 = endpoints(edges).to_set().union(queue.to_set()).difference(visited.to_set());
    lemma_dfs_measure_finite(queue, visited, edges);
    assert forall|x: Seq<char>| u1.contains(x) implies u2.contains(x) by {
        if queue.drop_last().to_set().contains(x) {
            assert(queue.drop_last().contains(x));
            let i = choose|i: int| 0 <= i < queue.drop_last().len() && queue.drop_last()[i] == x;
            assert(queue[i] == x);
            assert(queue.contains(x));
            assert(queue.to_set().contains(x));
        }
    }
    lemma_len_subset(u1, u2);
}

/// Visiting a fresh node strictly lowers the measure, whatever joins the
/// queue from its neighbours.
proof fn lemma_measure_visit(queue: Seq<Seq<char>>, visited: Seq<Seq<char>>, edges: Seq<EdgeV>)
    requires
        queue.len() > 0,
        !visited.contains(queue.last()),
    ensures
        dfs_measure(
            queue.drop_last() + spec_filter(
                neighbors_of(edges, queue.last()),
                |n: Seq<char>| !visited.push(queue.last()).contains(n),
            ),
            visited.push(queue.last()),
            edges,
        ) < dfs_measure(queue, visited, edges),
{
    let node = queue.last();
    let visited2 = visited.push(node);
    let pushed = spec_filter(
        neighbors_of(edges, node),
        |n: Seq<char>| !visited.push(queue.last()).contains(n),
    );
    let queue2 = queue.drop_last() + pushed;
    let u1 = endpoints(edges).to_set().union(queue2.to_set()).difference(visited2.to_set());
    let u2 = endpoints(edges).to_set().union(queue.to_set()).difference(visited.to_set());
    lemma_dfs_measure_finite(queue, visited, edges);
    lemma_dfs_measure_finite(queue2, visited2, edges);
    lemma_neighbors_endpoints(edges, node);
    assert forall|x: Seq<char>| u1.contains(x) implies u2.remove(node).contains(x) by {
        assert(!visited2.contains(x));
        assert(visited2.last() == node);
        assert(visited2.contains(node));
        assert(x != node);
        assert(!visited.contains(x)) by {
            if visited.contains(x) {
                let i = choose|i: int| 0 <= i < visited.len() && visited[i] == x;
                assert(visited2[i] == x);
            }
        }
        if queue2.to_set().contains(x) {
            assert(queue2.contains(x));
            let i = choose|i: int| 0 <= i < queue2.len() && queue2[i] == x;
            if i < queue.drop_last().len() {
                assert(queue[i] == x);
                assert(queue.to_set().contains(x));
            } else {
                assert(pushed[i - queue.drop_last().len()] == x);
                assert(pushed.contains(x));
                lemma_spec_filter(
                    neighbors_of(edges, node),
                    |n: Seq<char>| !visited.push(queue.last()).contains(n),
                    x,
                );
                assert(neighbors_of(edges, node).contains(x));
                let j = choose|j: int|
                    0 <= j < neighbors_of(edges, node).len() && neighbors_of(edges, node)[j] == x;
                assert(endpoints(edges).to_set().contains(x));
            }
        }
    }
    assert(queue.to_set().contains(node)) by {
        assert(queue.contains(node));
    }
    assert(u2.contains(node));
    assert(u2.remove(node).len() == u2.len() - 1);
    lemma_len_subset(u1, u2.remove(node));
}

/// One traversal, mirrored mathematically: pop from the queue's end; a
/// visited node is skipped; a fresh node joins the component and its
/// not-yet-visited neighbours join the queue. Returns the component in
/// visit order and the visited list as it stands afterwards.
pub open spec fn spec_dfs(
    queue: Seq<Seq<char>>,
    visited: Seq<Seq<char>>,
    edges: Seq<EdgeV>,
) -> (Seq<Seq<char>>, Seq<Seq<char>>)
    decreases dfs_measure(queue, visited, edges), queue.len(),
    via spec_dfs_decreases
{
    if queue.len() == 0 {
        (Seq::empty(), visited)
    } else {
        let node = queue.last();
        let rest = queue.drop_last();
        if visited.contains(node) {
            spec_dfs(rest, visited, edges)
        } else {
            let visited2 = visited.push(node);
            let queue2 = rest + spec_filter(
                neighbors_of(edges, node),
                |n: Seq<char>| !visited.push(queue.last()).contains(n),
            );
            let r = spec_dfs(queue2, visited2, edges);
            (seq![node] + r.0, r.1)
        }
    }
}

#[via_fn]
proof fn spec_dfs_decreases(queue: Seq<Seq<char>>, visited: Seq<Seq<char>>, edges: Seq<EdgeV>) {
    lemma_dfs_measure_finite(queue, visited, edges);
    if queue.len() > 0 {
        if visited.contains(queue.last()) {
            lemma_measure_skip(queue, visited, edges);
            lemma_dfs_measure_finite(queue.drop_last(), visited, edges);
        } else {
            lemma_measure_visit(queue, visited, edges);
        }
    }
}

/// The neighbours of `x` in the undirected reading of the edges.
fn adjacent_to(edges: &Vec<DepEdge>, x: &str) -> (r: Vec<String>)
    ensures
        views(r@) == neighbors_of(edges_view(edges@), x@),
{
    let n = edges.len();
    let mut out: Vec<String> = Vec::new();
    let mut i: usize = 0;
    proof {
        assert(edges_view(edges@).take(0) =~= Seq::<EdgeV>::empty());
        assert(views(out@) =~= neighbors_of(edges_view(edges@).take(0), x@));
    }
    while i < n
        invariant
            i <= n,
            n == edges@.len(),
            views(out@) == neighbors_of(edges_view(edges@).take(i as int), x@),
        decreases n - i,
    {
        proof {
            assert(edges_view(edges@).take(i + 1).drop_last() =~= edges_view(edges@).take(
                i as int,
            ));
            assert(edges_view(edges@).take(i + 1).last() == edges_view(edges@)[i as int]);
        }
        let e = &edges[i];
        if str_eq(e.from.as_str(), x) {
            proof {
                assert(views(out@.push(e.to)) =~= views(out@).push(e.to@));
            }
            let t = e.to.clone();
            out.push(t);
        }
        if str_eq(e.to.as_str(), x) {
            proof {
                assert(views(out@.push(e.from)) =~= views(out@).push(e.from@));
            }
            let f = e.from.clone();
            out.push(f);
        }
        i = i + 1;
    }
    proof {
        assert(edges_view(edges@).take(n as int) =~= edges_view(edges@));
    }
    out
}

/// Collects the connected component of `start`: a depth-first traversal
/// over the undirected edges, marking every reached file visited.
pub fn bfs(start: &String, edges: &Vec<DepEdge>, visited: &mut Vec<String>) -> (comp: Vec<String>)
    ensures
        views(comp@) == spec_dfs(seq![start@], views(old(visited)@), edges_view(edges@)).0,
        views(final(visited)@) == spec_dfs(seq![start@], views(old(visited)@), edges_view(edges@)).1,
{
    let ghost ev = edges_view(edges@);
    let mut queue: Vec<String> = Vec::new();
    queue.push(start.clone());
    let mut comp: Vec<String> = Vec::new();
    let ghost q0 = views(queue@);
    let ghost v0 = views(old(visited)@);
    proof {
        assert(q0 =~= seq![start@]);
        assert(views(comp@) + spec_dfs(views(queue@), views(visited@), ev).0 =~= spec_dfs(
            q0,
            v0,
            ev,
        ).0);
    }
    while queue.len() > 0
        invariant
            ev == edges_view(edges@),
            spec_dfs(q0, v0, ev).0 == views(comp@) + spec_dfs(views(queue@), views(visited@), ev).0,
            spec_dfs(q0, v0, ev).1 == spec_dfs(views(queue@), views(visited@), ev).1,
        decreases dfs_measure(views(queue@), views(visited@), ev), queue@.len(),
    {
        let ghost pre_q = views(queue@);
        let ghost pre_v = views(visited@);
        proof {
            assert(pre_q.len() > 0);
            assert(pre_q.last() == queue@.last()@);
            lemma_dfs_measure_finite(pre_q, pre_v, ev);
        }
        let node = match queue.pop() {
            Some(x) => x,
            None => {
                proof {
                    assert(false);
                }
                String::new()
            },
        };
        proof {
            assert(views(queue@) =~= pre_q.drop_last());
            assert(node@ == pre_q.last());
        }
        if !contains_path(visited, node.as_str()) {
            visited.push(node.clone());
            proof {
                assert(views(visited@) =~= pre_v.push(node@));
            }
            let c = node.clone();
            proof {
                assert(views(comp@.push(c)) =~= views(comp@).push(node@));
            }
            comp.push(c);
            let ns = adjacent_to(edges, node.as_str());
            let m = ns.len();
            let mut j: usize = 0;
            let ghost mid_q = views(queue@);
            proof {
                assert(views(ns@).take(0) =~= Seq::<Seq<char>>::empty());
                assert(views(queue@) =~= mid_q + spec_filter(
                    views(ns@).take(0),
                    |n: Seq<char>| !pre_v.push(pre_q.last()).contains(n),
                ));
            }
            while j < m
                invariant
                    j <= m,
                    m == ns@.len(),
                    views(visited@) == pre_v.push(pre_q.last()),
                    views(queue@) == mid_q + spec_filter(
                        views(ns@).take(j as int),
                        |n: Seq<char>| !pre_v.push(pre_q.last()).contains(n),
                    ),
                decreases m - j,
            {
                proof {
                    assert(views(ns@).take(j + 1).drop_last() =~= views(ns@).take(j as int));
                    assert(views(ns@).take(j + 1).last() == ns@[j as int]@);
                }
                if !contains_path(visited, ns[j].as_str()) {
                    proof {
                        assert(views(queue@.push(ns@[j as int])) =~= views(queue@).push(
                            ns@[j as int]@,
                        ));
                    }
                    let x = ns[j].clone();
                    queue.push(x);
                }
                j = j + 1;
            }
            proof {
                assert(views(ns@).take(m as int) =~= views(ns@));
                // one unfolding of the traversal at the popped node
                assert(spec_dfs(pre_q, pre_v, ev).0 == seq![pre_q.last()] + spec_dfs(
                    views(queue@),
                    views(visited@),
                    ev,
                ).0);
                assert(views(comp@) =~= views(comp@).drop_last().push(node@));
                assert(views(comp@).drop_last() + (seq![pre_q.last()] + spec_dfs(
                    views(queue@),
                    views(visited@),
                    ev,
                ).0) =~= views(comp@) + spec_dfs(views(queue@), views(visited@), ev).0);
                lemma_measure_visit(pre_q, pre_v, ev);
            }
        } else {
            proof {
                lemma_measure_skip(pre_q, pre_v, ev);
                lemma_dfs_measure_finite(views(queue@), views(visited@), ev);
            }
        }
    }
    proof {
        assert(views(queue@).len() == 0);
        assert(views(comp@) + spec_dfs(views(queue@), views(visited@), ev).0 =~= views(comp@));
    }
    comp
}

/// Whether one undirected edge joins `a` and `b`.
pub open spec fn adjacent(edges: Seq<EdgeV>, a: Seq<char>, b: Seq<char>) -> bool {
    neighbors_of(edges, a).contains(b)
}

proof fn lemma_adjacent_symmetric(edges: Seq<EdgeV>, a: Seq<char>, b: Seq<char>)
    ensures
        adjacent(edges, a, b) == adjacent(edges, b, a),
    decreases edges.len(),
{
    if edges.len() > 0 {
        lemma_adjacent_symmetric(edges.drop_last(), a, b);
        lemma_neighbors_last(edges, a, b);
        lemma_neighbors_last(edges, b, a);
    }
}

/// Membership in a neighbour list, unfolded over the last edge.
proof fn lemma_neighbors_last(edges: Seq<EdgeV>, a: Seq<char>, b: Seq<char>)
    requires
        edges.len() > 0,
    ensures
        neighbors_of(edges, a).contains(b) <==> neighbors_of(edges.drop_last(), a).contains(b) || (
        edges.last().from == a && edges.last().to == b) || (edges.last().to == a
            && edges.last().from == b),
{
    let rest = neighbors_of(edges.drop_last(), a);
    let whole = neighbors_of(edges, a);
    if whole.contains(b) {
        let i = choose|i: int| 0 <= i < whole.len() && whole[i] == b;
        if i < rest.len() {
            assert(rest[i] == b);
        }
    }
    if rest.contains(b) {
        let i = choose|i: int| 0 <= i < rest.len() && rest[i] == b;
        assert(whole[i] == b);
    }
    if edges.last().from == a && edges.last().to == b {
        assert(whole[rest.len() as int] == b);
    }
    if edges.last().to == a && edges.last().from == b {
        assert(whole.last() == b);
    }
}

/// Whether a path of at most `n` edges leads from `a` to `b`.
pub open spec fn reaches(edges: Seq<EdgeV>, a: Seq<char>, b: Seq<char>, n: nat) -> bool
    decreases n,
{
    a == b || (n > 0 && exists|c: Seq<char>|
        #[trigger] adjacent(edges, a, c) && reaches(edges, c, b, (n - 1) as nat))
}

/// Whether some path leads from `a` to `b` over the undirected edges.
pub open spec fn connected(edges: Seq<EdgeV>, a: Seq<char>, b: Seq<char>) -> bool {
    exists|n: nat| reaches(edges, a, b, n)
}

proof fn lemma_connected_refl(edges: Seq<EdgeV>, a: Seq<char>)
    ensures
        connected(edges, a, a),
{
    assert(reaches(edges, a, a, 0));
}

proof fn lemma_reaches_extend(edges: Seq<EdgeV>, a: Seq<char>, b: Seq<char>, c: Seq<char>, n: nat)
    requires
        reaches(edges, a, b, n),
        adjacent(edges, b, c),
    ensures
        reaches(edges, a, c, (n + 1) as nat),
    decreases n,
{
    if a == b {
        assert(reaches(edges, c, c, n));
        assert(adjacent(edges, a, c));
    } else {
        let m = choose|m: Seq<char>|
            #[trigger] adjacent(edges, a, m) && reaches(edges, m, b, (n - 1) as nat);
        lemma_reaches_extend(edges, m, b, c, (n - 1) as nat);
    }
}

proof fn lemma_connected_step(edges: Seq<EdgeV>, a: Seq<char>, b: Seq<char>, c: Seq<char>)
    requires
        connected(edges, a, b),
        adjacent(edges, b, c),
    ensures
        connected(edges, a, c),
{
    let n = choose|n: nat| reaches(edges, a, b, n);
    lemma_reaches_extend(edges, a, b, c, n);
}

proof fn lemma_reaches_trans(edges: Seq<EdgeV>, a: Seq<char>, b: Seq<char>, c: Seq<char>, n: nat)
    requires
        reaches(edges, a, b, n),
        connected(edges, b, c),
    ensures
        connected(edges, a, c),
    decreases n,
{
    if a == b {
    } else {
        let m = choose|m: Seq<char>|
            #[trigger] adjacent(edges, a, m) && reaches(edges, m, b, (n - 1) as nat);
        lemma_reaches_trans(edges, m, b, c, (n - 1) as nat);
        let k = choose|k: nat| reaches(edges, m, c, k);
        assert(reaches(edges, a, c, (k + 1) as nat));
    }
}

pub proof fn lemma_connected_trans(edges: Seq<EdgeV>, a: Seq<char>, b: Seq<char>, c: Seq<char>)
    requires
        connected(edges, a, b),
        connected(edges, b, c),
    ensures
        connected(edges, a, c),
{
    let n = choose|n: nat| reaches(edges, a, b, n);
    lemma_reaches_trans(edges, a, b, c, n);
}

proof fn lemma_reaches_symmetric(edges: Seq<EdgeV>, a: Seq<char>, b: Seq<char>, n: nat)
    requires
        reaches(edges, a, b, n),
    ensures
        connected(edges, b, a),
    decreases n,
{
    if a == b {
        lemma_connected_refl(edges, b);
    } else {
        let m = choose|m: Seq<char>|
            #[trigger] adjacent(edges, a, m) && reaches(edges, m, b, (n - 1) as nat);
        lemma_reaches_symmetric(edges, m, b, (n - 1) as nat);
        lemma_adjacent_symmetric(edges, a, m);
        lemma_connected_step(edges, b, m, a);
    }
}

pub proof fn lemma_connected_symmetric(edges: Seq<EdgeV>, a: Seq<char>, b: Seq<char>)
    requires
        connected(edges, a, b),
    ensures
        connected(edges, b, a),
{
    let n = choose|n: nat| reaches(edges, a, b, n);
    lemma_reaches_symmetric(edges, a, b, n);
}

/// A neighbour-closed set swallows every path that starts inside it.
proof fn lemma_closed_absorbs(
    edges: Seq<EdgeV>,
    s: Seq<Seq<char>>,
    a: Seq<char>,
    b: Seq<char>,
    n: nat,
)
    requires
        forall|v: Seq<char>, w: Seq<char>|
            s.contains(v) && #[trigger] adjacent(edges, v, w) ==> s.contains(w),
        s.contains(a),
        reaches(edges, a, b, n),
    ensures
        s.contains(b),
    decreases n,
{
    if a != b {
        let m = choose|m: Seq<char>|
            #[trigger] adjacent(edges, a, m) && reaches(edges, m, b, (n - 1) as nat);
        lemma_closed_absorbs(edges, s, m, b, (n - 1) as nat);
    }
}

/// What one traversal does, in full: the final visited list is the old one
/// followed by the component; the component's members are fresh and all
/// connected to the queued nodes' sources; and when the old visited list
/// only had neighbours in itself or the queue, the final one is
/// neighbour-closed.
proof fn lemma_dfs_facts(
    queue: Seq<Seq<char>>,
    visited: Seq<Seq<char>>,
    edges: Seq<EdgeV>,
    start: Seq<char>,
)
    requires
        forall|q: Seq<char>| queue.contains(q) ==> connected(edges, start, q),
        forall|v: Seq<char>, w: Seq<char>|
            visited.contains(v) && #[trigger] adjacent(edges, v, w) ==> visited.contains(w)
                || queue.contains(w),
    ensures
        spec_dfs(queue, visited, edges).1 == visited + spec_dfs(queue, visited, edges).0,
        forall|x: Seq<char>|
            #[trigger] spec_dfs(queue, visited, edges).0.contains(x) ==> connected(edges, start, x)
                && !visited.contains(x),
        forall|v: Seq<char>, w: Seq<char>|
            spec_dfs(queue, visited, edges).1.contains(v) && #[trigger] adjacent(edges, v, w)
                ==> spec_dfs(queue, visited, edges).1.contains(w),
    decreases dfs_measure(queue, visited, edges), queue.len(),
{
    lemma_dfs_measure_finite(queue, visited, edges);
    if queue.len() == 0 {
        assert(visited + Seq::<Seq<char>>::empty() =~= visited);
    } else {
        let node = queue.last();
        let rest = queue.drop_last();
        assert(queue.contains(node));
        if visited.contains(node) {
            lemma_measure_skip(queue, visited, edges);
            lemma_dfs_measure_finite(rest, visited, edges);
            assert(forall|q: Seq<char>| rest.contains(q) ==> queue.contains(q)) by {
                assert forall|q: Seq<char>| rest.contains(q) implies queue.contains(q) by {
                    let i = choose|i: int| 0 <= i < rest.len() && rest[i] == q;
                    assert(queue[i] == q);
                }
            }
            assert forall|v: Seq<char>, w: Seq<char>|
                visited.contains(v) && #[trigger] adjacent(edges, v, w) implies visited.contains(w)
                || rest.contains(w) by {
                if !visited.contains(w) {
                    assert(queue.contains(w));
                    let i = choose|i: int| 0 <= i < queue.len() && queue[i] == w;
                    if i < rest.len() {
                        assert(rest[i] == w);
                    } else {
                        assert(w == node);
                    }
                }
            }
            lemma_dfs_facts(rest, visited, edges, start);
        } else {
            lemma_measure_visit(queue, visited, edges);
            let visited2 = visited.push(node);
            let pushed = spec_filter(
                neighbors_of(edges, node),
                |n: Seq<char>| !visited.push(queue.last()).contains(n),
            );
            let queue2 = rest + pushed;
            // the new queue still holds only nodes connected to the start
            assert forall|q: Seq<char>| queue2.contains(q) implies connected(edges, start, q) by {
                let i = choose|i: int| 0 <= i < queue2.len() && queue2[i] == q;
                if i < rest.len() {
                    assert(queue[i] == q);
                    assert(queue.contains(q));
                } else {
                    assert(pushed[i - rest.len()] == q);
                    assert(pushed.contains(q));
                    lemma_spec_filter(
                        neighbors_of(edges, node),
                        |n: Seq<char>| !visited.push(queue.last()).contains(n),
                        q,
                    );
                    assert(adjacent(edges, node, q));
                    lemma_connected_step(edges, start, node, q);
                }
            }
            // the grown visited list still only leaks into the new queue
            assert forall|v: Seq<char>, w: Seq<char>|
                visited2.contains(v) && #[trigger] adjacent(edges, v, w) implies
                visited2.contains(w) || queue2.contains(w) by {
                let iv = choose|iv: int| 0 <= iv < visited2.len() && visited2[iv] == v;
                if iv < visited.len() {
                    assert(visited[iv] == v);
                    assert(visited.contains(v));
                    if !visited.contains(w) {
                        assert(queue.contains(w));
                        let i = choose|i: int| 0 <= i < queue.len() && queue[i] == w;
                        if i < rest.len() {
                            assert(rest[i] == w);
                            assert(queue2[i] == w);
                        } else {
                            assert(w == node);
                            assert(visited2.last() == node);
                        }
                    } else {
                        let j = choose|j: int| 0 <= j < visited.len() && visited[j] == w;
                        assert(visited2[j] == w);
                    }
                } else {
                    assert(v == node);
                    lemma_spec_filter(
                        neighbors_of(edges, node),
                        |n: Seq<char>| !visited.push(queue.last()).contains(n),
                        w,
                    );
                    if visited2.contains(w) {
                    } else {
                        assert(pushed.contains(w));
                        let j = choose|j: int| 0 <= j < pushed.len() && pushed[j] == w;
                        assert(queue2[rest.len() + j] == w);
                    }
                }
            }
            lemma_dfs_facts(queue2, visited2, edges, start);
            let r2 = spec_dfs(queue2, visited2, edges);
            assert(spec_dfs(queue, visited, edges).0 =~= seq![node] + r2.0);
            assert(visited2 + r2.0 =~= visited + (seq![node] + r2.0));
            assert forall|x: Seq<char>|
                #[trigger] (seq![node] + r2.0).contains(x) implies connected(edges, start, x)
                && !visited.contains(x) by {
                let i = choose|i: int| 0 <= i < (seq![node] + r2.0).len() && (seq![node] + r2.0)[i]
                    == x;
                if i == 0 {
                    assert(x == node);
                } else {
                    assert(r2.0[i - 1] == x);
                    assert(r2.0.contains(x));
                    assert(!visited2.contains(x));
                    if visited.contains(x) {
                        let j = choose|j: int| 0 <= j < visited.len() && visited[j] == x;
                        assert(visited2[j] == x);
                    }
                }
            }
        }
    }
}

/// The components of the layers' files, in the order their first file
/// appears in layer order, together with the visited list.
pub open spec fn spec_find(files: Seq<Seq<char>>, edges: Seq<EdgeV>) -> (
    Seq<Seq<Seq<char>>>,
    Seq<Seq<char>>,
)
    decreases files.len(),
{
    if files.len() == 0 {
        (Seq::empty(), Seq::empty())
    } else {
        let r = spec_find(files.drop_last(), edges);
        let f = files.last();
        if r.1.contains(f) {
            r
        } else {
            let d = spec_dfs(seq![f], r.1, edges);
            (r.0.push(d.0), d.1)
        }
    }
}

/// All component members, in component order.
pub open spec fn concat_all(comps: Seq<Seq<Seq<char>>>) -> Seq<Seq<char>>
    decreases comps.len(),
{
    if comps.len() == 0 {
        Seq::empty()
    } else {
        concat_all(comps.drop_last()) + comps.last()
    }
}

/// A set of nodes no edge leaves.
pub open spec fn nbr_closed(edges: Seq<EdgeV>, s: Seq<Seq<char>>) -> bool {
    forall|v: Seq<char>, w: Seq<char>|
        s.contains(v) && #[trigger] adjacent(edges, v, w) ==> s.contains(w)
}

proof fn lemma_concat_all_contains(comps: Seq<Seq<Seq<char>>>, x: Seq<char>)
    ensures
        concat_all(comps).contains(x) <==> exists|k: int|
            0 <= k < comps.len() && (#[trigger] comps[k]).contains(x),
    decreases comps.len(),
{
    if comps.len() > 0 {
        lemma_concat_all_contains(comps.drop_last(), x);
        let whole = concat_all(comps);
        let front = concat_all(comps.drop_last());
        if whole.contains(x) {
            let j = choose|j: int| 0 <= j < whole.len() && whole[j] == x;
            if j < front.len() {
                assert(front[j] == x);
                assert(front.contains(x));
                let k = choose|k: int|
                    0 <= k < comps.drop_last().len() && (#[trigger] comps.drop_last()[k]).contains(
                        x,
                    );
                assert(comps[k].contains(x));
            } else {
                assert(comps.last()[j - front.len()] == x);
                assert(comps[comps.len() - 1].contains(x));
            }
        }
        if exists|k: int| 0 <= k < comps.len() && (#[trigger] comps[k]).contains(x) {
            let k = choose|k: int| 0 <= k < comps.len() && (#[trigger] comps[k]).contains(x);
            if k < comps.len() - 1 {
                assert(comps.drop_last()[k].contains(x));
                assert(front.contains(x));
                let j = choose|j: int| 0 <= j < front.len() && front[j] == x;
                assert(whole[j] == x);
            } else {
                let j = choose|j: int| 0 <= j < comps.last().len() && comps.last()[j] == x;
                assert(whole[front.len() + j] == x);
            }
        }
    }
}

/// What the component scan guarantees: the visited list is the components
/// in order; every file is visited; each component opens with the file
/// the traversal started from, holds only nodes connected to it and none
/// seen before; and every prefix of the component list is closed under
/// the edges.
proof fn lemma_find_facts(files: Seq<Seq<char>>, edges: Seq<EdgeV>)
    ensures
        spec_find(files, edges).1 == concat_all(spec_find(files, edges).0),
        forall|q: Seq<char>|
            files.contains(q) ==> #[trigger] spec_find(files, edges).1.contains(q),
        forall|i: int|
            0 <= i < spec_find(files, edges).0.len() ==> (#[trigger] spec_find(files, edges).0[i]).len() > 0,
        forall|i: int, x: Seq<char>|
            0 <= i < spec_find(files, edges).0.len() && #[trigger] spec_find(
                files,
                edges,
            ).0[i].contains(x) ==> connected(edges, spec_find(files, edges).0[i][0], x)
                && !concat_all(spec_find(files, edges).0.take(i)).contains(x),
        forall|k: int|
            0 <= k <= spec_find(files, edges).0.len() ==> nbr_closed(
                edges,
                concat_all(#[trigger] spec_find(files, edges).0.take(k)),
            ),
    decreases files.len(),
{
    let r = spec_find(files, edges);
    if files.len() == 0 {
        assert(r.1 =~= concat_all(r.0));
        assert(r.0.take(0) =~= Seq::<Seq<Seq<char>>>::empty());
        assert forall|k: int| 0 <= k <= r.0.len() implies nbr_closed(
            edges,
            concat_all(#[trigger] r.0.take(k)),
        ) by {
            assert(r.0.take(k) =~= Seq::<Seq<Seq<char>>>::empty());
        }
    } else {
        lemma_find_facts(files.drop_last(), edges);
        let rp = spec_find(files.drop_last(), edges);
        let f = files.last();
        assert(rp.0.take(rp.0.len() as int) =~= rp.0);
        assert(nbr_closed(edges, concat_all(rp.0)));
        if rp.1.contains(f) {
            assert(r == rp);
            assert forall|q: Seq<char>| files.contains(q) implies #[trigger] r.1.contains(q) by {
                if q != f {
                    let i = choose|i: int| 0 <= i < files.len() && files[i] == q;
                    assert(files.drop_last()[i] == q);
                    assert(files.drop_last().contains(q));
                }
            }
        } else {
            let q0 = seq![f];
            assert(q0.contains(f)) by {
                assert(q0[0] == f);
            }
            assert forall|q: Seq<char>| q0.contains(q) implies connected(edges, f, q) by {
                let i = choose|i: int| 0 <= i < q0.len() && q0[i] == q;
                lemma_connected_refl(edges, f);
            }
            assert forall|v: Seq<char>, w: Seq<char>|
                rp.1.contains(v) && #[trigger] adjacent(edges, v, w) implies rp.1.contains(w)
                || q0.contains(w) by {
                assert(nbr_closed(edges, concat_all(rp.0)));
            }
            lemma_dfs_facts(q0, rp.1, edges, f);
            let d = spec_dfs(q0, rp.1, edges);
            assert(r.0 == rp.0.push(d.0));
            assert(r.1 == d.1);
            // the component opens with the start file
            assert(d.0[0] == f) by {
                assert(q0.last() == f);
                assert(!rp.1.contains(f));
            }
            assert(d.0.contains(f)) by {
                assert(d.0[0] == f);
            }
            assert(concat_all(rp.0.push(d.0)) =~= concat_all(rp.0) + d.0) by {
                assert(rp.0.push(d.0).drop_last() =~= rp.0);
            }
            assert(r.1 =~= concat_all(r.0));
            assert forall|q: Seq<char>| files.contains(q) implies #[trigger] r.1.contains(q) by {
                if q == f {
                    assert(d.1.contains(f)) by {
                        assert(d.1 == rp.1 + d.0);
                        let j = choose|j: int| 0 <= j < d.0.len() && d.0[j] == f;
                        assert(d.1[rp.1.len() + j] == f);
                    }
                } else {
                    let i = choose|i: int| 0 <= i < files.len() && files[i] == q;
                    assert(files.drop_last()[i] == q);
                    assert(files.drop_last().contains(q));
                    assert(rp.1.contains(q));
                    let j = choose|j: int| 0 <= j < rp.1.len() && rp.1[j] == q;
                    assert(d.1[j] == q);
                }
            }
            assert forall|i: int, x: Seq<char>|
                0 <= i < r.0.len() && #[trigger] r.0[i].contains(x) implies connected(
                edges,
                r.0[i][0],
                x,
            ) && !concat_all(r.0.take(i)).contains(x) by {
                if i < rp.0.len() {
                    assert(r.0[i] == rp.0[i]);
                    assert(r.0.take(i) =~= rp.0.take(i));
                } else {
                    assert(r.0[i] == d.0);
                    assert(connected(edges, f, x));
                    assert(!rp.1.contains(x));
                    assert(r.0.take(i) =~= rp.0);
                    assert(concat_all(rp.0) == rp.1);
                }
            }
            assert forall|k: int| 0 <= k <= r.0.len() implies nbr_closed(
                edges,
                concat_all(#[trigger] r.0.take(k)),
            ) by {
                if k <= rp.0.len() {
                    assert(r.0.take(k) =~= rp.0.take(k));
                } else {
                    assert(r.0.take(k) =~= r.0);
                    assert(concat_all(r.0) == d.1);
                }
            }
        }
    }
}

/// The components are connectivity classes: members of one component are
/// all connected to one another, and a member's whole connectivity class
/// among the manifest's files stays in its component.
pub proof fn lemma_components_are_connectivity_classes(files: Seq<Seq<char>>, edges: Seq<EdgeV>)
    ensures
        forall|i: int, x: Seq<char>, y: Seq<char>|
            0 <= i < spec_find(files, edges).0.len() && #[trigger] spec_find(
                files,
                edges,
            ).0[i].contains(x) && #[trigger] spec_find(files, edges).0[i].contains(y)
                ==> connected(edges, x, y),
        forall|i: int, x: Seq<char>, y: Seq<char>|
            0 <= i < spec_find(files, edges).0.len() && #[trigger] spec_find(
                files,
                edges,
            ).0[i].contains(x) && files.contains(y) && #[trigger] connected(edges, x, y)
                ==> spec_find(files, edges).0[i].contains(y),
{
    lemma_find_facts(files, edges);
    let comps = spec_find(files, edges).0;
    assert forall|i: int, x: Seq<char>, y: Seq<char>|
        0 <= i < comps.len() && #[trigger] comps[i].contains(x) && #[trigger] comps[i].contains(
            y,
        ) implies connected(edges, x, y) by {
        lemma_connected_symmetric(edges, comps[i][0], x);
        lemma_connected_trans(edges, x, comps[i][0], y);
    }
    assert forall|i: int, x: Seq<char>, y: Seq<char>|
        0 <= i < comps.len() && #[trigger] comps[i].contains(x) && files.contains(y) && #[trigger]
        connected(edges, x, y) implies comps[i].contains(y) by {
        // x's whole class sits inside the closed prefix that ends with
        // component i
        let si = concat_all(comps.take(i + 1));
        assert(comps.take(i + 1).last() == comps[i]);
        assert(comps.take(i + 1).drop_last() =~= comps.take(i));
        assert(si =~= concat_all(comps.take(i)) + comps[i]);
        assert(si.contains(x)) by {
            let j = choose|j: int| 0 <= j < comps[i].len() && comps[i][j] == x;
            assert(si[concat_all(comps.take(i)).len() + j] == x);
        }
        let n = choose|n: nat| reaches(edges, x, y, n);
        lemma_closed_absorbs(edges, si, x, y, n);
        // so y sits in some component at or before i
        lemma_concat_all_contains(comps.take(i + 1), y);
        let k = choose|k: int|
            0 <= k < comps.take(i + 1).len() && (#[trigger] comps.take(i + 1)[k]).contains(y);
        assert(comps[k].contains(y));
        if k < i {
            // then x's class would already be closed at step k, where x
            // cannot sit
            let sk = concat_all(comps.take(k + 1));
            assert(comps.take(k + 1).last() == comps[k]);
            assert(comps.take(k + 1).drop_last() =~= comps.take(k));
            assert(sk =~= concat_all(comps.take(k)) + comps[k]);
            assert(sk.contains(y)) by {
                let j = choose|j: int| 0 <= j < comps[k].len() && comps[k][j] == y;
                assert(sk[concat_all(comps.take(k)).len() + j] == y);
            }
            lemma_connected_symmetric(edges, x, y);
            let m = choose|m: nat| reaches(edges, y, x, m);
            lemma_closed_absorbs(edges, sk, y, x, m);
            lemma_concat_all_contains(comps.take(k + 1), x);
            let k2 = choose|k2: int|
                0 <= k2 < comps.take(k + 1).len() && (#[trigger] comps.take(k + 1)[k2]).contains(
                    x,
                );
            assert(comps[k2].contains(x));
            assert(k2 <= k < i);
            // yet component i's members never sit in an earlier component
            assert(!concat_all(comps.take(i)).contains(x));
            lemma_concat_all_contains(comps.take(i), x);
            assert(comps.take(i)[k2].contains(x));
            assert(false);
        }
    }
}

/// The connected components of the manifest's files.
pub fn find_components(data: &SemmapData) -> (r: Vec<Vec<String>>)
    ensures
        r@.map_values(|c: Vec<String>| views(c@)) == spec_find(
            spec_layer_files(crate::semmap::layers_view(data.layers@)),
            edges_view(data.edges@),
        ).0,
{
    let ghost ev = edges_view(data.edges@);
    let files = data.all_files();
    let ghost fv = views(files@);
    let n = files.len();
    let mut visited: Vec<String> = Vec::new();
    let mut components: Vec<Vec<String>> = Vec::new();
    let mut i: usize = 0;
    proof {
        assert(fv.take(0) =~= Seq::<Seq<char>>::empty());
        assert(components@.map_values(|c: Vec<String>| views(c@)) =~= spec_find(
            fv.take(0),
            ev,
        ).0);
        assert(views(visited@) =~= spec_find(fv.take(0), ev).1);
    }
    while i < n
        invariant
            i <= n,
            n == files@.len(),
            fv == views(files@),
            ev == edges_view(data.edges@),
            components@.map_values(|c: Vec<String>| views(c@)) == spec_find(
                fv.take(i as int),
                ev,
            ).0,
            views(visited@) == spec_find(fv.take(i as int), ev).1,
        decreases n - i,
    {
        proof {
            assert(fv.take(i + 1).drop_last() =~= fv.take(i as int));
            assert(fv.take(i + 1).last() == files@[i as int]@);
        }
        if !contains_path(&visited, files[i].as_str()) {
            let comp = bfs(&files[i], &data.edges, &mut visited);
            proof {
                assert(components@.push(comp).map_values(|c: Vec<String>| views(c@)) =~= components@.map_values(
                    |c: Vec<String>| views(c@),
                ).push(views(comp@)));
            }
            components.push(comp);
        }
        i = i + 1;
    }
    proof {
        assert(fv.take(n as int) =~= fv);
    }
    components
}

/// The parent directory's name of a path, when the path has one.
pub open spec fn parent_dir_name(p: Seq<char>) -> Option<Seq<char>> {
    let k = rfind_ch(p, '/');
    if k <= 0 {
        None
    } else {
        Some(file_name_of(p.take(k)))
    }
}

/// The parent directory's name of a path, when the path has one.
fn parent_dir(p: &str) -> (r: Option<String>)
    ensures
        match r {
            Some(d) => parent_dir_name(p@) == Some(d@),
            None => parent_dir_name(p@) is None,
        },
{
    proof {
        lemma_rfind_ch(p@, '/');
    }
    match rfind_char(p, '/') {
        Some(k) => {
            if k == 0 {
                None
            } else {
                let dir = substr_string(p, 0, k);
                proof {
                    assert(p@.subrange(0, k as int) =~= p@.take(k as int));
                }
                Some(crate::categories::file_name(dir.as_str()))
            }
        },
        None => None,
    }
}

/// The views of directory-count entries.
pub open spec fn counts_view(cs: Seq<(String, u64)>) -> Seq<(Seq<char>, int)> {
    cs.map_values(|e: (String, u64)| (e.0@, e.1 as int))
}

/// The counts with `d`'s entry bumped, or a new entry for `d` at the end.
pub open spec fn spec_bump(counts: Seq<(Seq<char>, int)>, d: Seq<char>) -> Seq<(Seq<char>, int)>
    decreases counts.len(),
{
    if counts.len() == 0 {
        seq![(d, 1)]
    } else if counts[0].0 == d {
        seq![(counts[0].0, counts[0].1 + 1)] + counts.drop_first()
    } else {
        seq![counts[0]] + spec_bump(counts.drop_first(), d)
    }
}

/// How often each parent directory name occurs among the members, in
/// first-encounter order.
pub open spec fn spec_count_dirs(files: Seq<Seq<char>>) -> Seq<(Seq<char>, int)>
    decreases files.len(),
{
    if files.len() == 0 {
        Seq::empty()
    } else {
        let rest = spec_count_dirs(files.drop_last());
        match parent_dir_name(files.last()) {
            Some(d) => spec_bump(rest, d),
            None => rest,
        }
    }
}

/// The best entry of `counts` from position `i` on, given the best seen
/// so far; only a strictly greater count displaces it, so the first
/// maximum wins.
pub open spec fn spec_best_from(
    counts: Seq<(Seq<char>, int)>,
    i: int,
    bn: Seq<char>,
    bc: int,
) -> (Seq<char>, int)
    decreases counts.len() - i,
{
    if i < 0 || i >= counts.len() {
        (bn, bc)
    } else if counts[i].1 > bc {
        spec_best_from(counts, i + 1, counts[i].0, counts[i].1)
    } else {
        spec_best_from(counts, i + 1, bn, bc)
    }
}

/// The name a component gets: the most frequent parent directory name
/// among its members, the first such name on a tie; a component without
/// parent directories is named after its ordinal among the subsystems.
pub open spec fn spec_cluster_name(files: Seq<Seq<char>>, index: int) -> Seq<char> {
    let counts = spec_count_dirs(files);
    if counts.len() == 0 {
        "cluster_"@ + dec_str(index)
    } else {
        spec_best_from(counts, 1, counts[0].0, counts[0].1).0
    }
}

/// When `d` first occurs at position `j`, bumping updates exactly that
/// entry.
proof fn lemma_bump_at(counts: Seq<(Seq<char>, int)>, d: Seq<char>, j: int)
    requires
        0 <= j <= counts.len(),
        forall|k: int| 0 <= k < j ==> (#[trigger] counts[k]).0 != d,
        j < counts.len() ==> counts[j].0 == d,
    ensures
        j < counts.len() ==> spec_bump(counts, d) == counts.update(j, (d, counts[j].1 + 1)),
        j == counts.len() ==> spec_bump(counts, d) == counts.push((d, 1)),
    decreases j,
{
    if counts.len() == 0 {
        assert(spec_bump(counts, d) =~= counts.push((d, 1)));
    } else if j == 0 {
        assert(spec_bump(counts, d) =~= counts.update(0, (d, counts[0].1 + 1)));
    } else {
        lemma_bump_at(counts.drop_first(), d, j - 1);
        if j < counts.len() {
            assert(counts.drop_first()[j - 1] == counts[j]);
            assert(seq![counts[0]] + counts.drop_first().update(j - 1, (d, counts[j].1 + 1))
                =~= counts.update(j, (d, counts[j].1 + 1)));
        } else {
            assert(seq![counts[0]] + counts.drop_first().push((d, 1)) =~= counts.push((d, 1)));
        }
    }
}

/// Bumps the count of `d`, keeping every count at most one above `bound`.
fn bump_count(counts: &mut Vec<(String, u64)>, d: String, Ghost(bound): Ghost<int>)
    requires
        forall|k: int|
            0 <= k < old(counts)@.len() ==> (#[trigger] old(counts)@[k]).1 as int <= bound,
        0 <= bound < u64::MAX,
    ensures
        counts_view(final(counts)@) == spec_bump(counts_view(old(counts)@), d@),
        forall|k: int| 0 <= k < final(counts)@.len() ==> (#[trigger] final(counts)@[k]).1 as int
            <= bound + 1,
{
    let n = counts.len();
    let mut j: usize = 0;
    while j < n
        invariant
            j <= n,
            n == counts@.len(),
            *counts == *old(counts),
            0 <= bound < u64::MAX,
            forall|k: int|
                0 <= k < counts@.len() ==> (#[trigger] counts@[k]).1 as int <= bound,
            forall|k: int| 0 <= k < j ==> (#[trigger] counts@[k]).0@ != d@,
        decreases n - j,
    {
        if str_eq(counts[j].0.as_str(), d.as_str()) {
            let c = counts[j].1;
            let mut slot = (String::new(), 0u64);
            core::mem::swap(&mut counts[j], &mut slot);
            let mut repl = (slot.0, c + 1);
            core::mem::swap(&mut counts[j], &mut repl);
            proof {
                assert(counts@ =~= old(counts)@.update(j as int, (old(counts)@[j as int].0, (c
                    + 1) as u64)));
                lemma_bump_at(counts_view(old(counts)@), d@, j as int);
                assert(counts_view(counts@) =~= counts_view(old(counts)@).update(
                    j as int,
                    (d@, old(counts)@[j as int].1 as int + 1),
                ));
            }
            return ;
        }
        j = j + 1;
    }
    proof {
        lemma_bump_at(counts_view(counts@), d@, n as int);
        assert(counts_view(counts@.push((d, 1u64))) =~= counts_view(counts@).push((d@, 1int)));
    }
    counts.push((d, 1));
}

/// Names one component after the most frequent parent directory among
/// its members, or by its ordinal when no member has one.
pub fn cluster_name(files: &Vec<String>, index: usize) -> (r: String)
    ensures
        r@ == spec_cluster_name(views(files@), index as int),
{
    let n = files.len();
    let mut counts: Vec<(String, u64)> = Vec::new();
    let mut i: usize = 0;
    proof {
        assert(views(files@).take(0) =~= Seq::<Seq<char>>::empty());
        assert(counts_view(counts@) =~= spec_count_dirs(views(files@).take(0)));
    }
    while i < n
        invariant
            i <= n,
            n == files@.len(),
            counts_view(counts@) == spec_count_dirs(views(files@).take(i as int)),
            forall|k: int| 0 <= k < counts@.len() ==> (#[trigger] counts@[k]).1 as int <= i as int,
        decreases n - i,
    {
        proof {
            assert(views(files@).take(i + 1).drop_last() =~= views(files@).take(i as int));
            assert(views(files@).take(i + 1).last() == files@[i as int]@);
        }
        match parent_dir(files[i].as_str()) {
            Some(d) => {
                proof {
                    assert(i < n <= usize::MAX);
                    assert(usize::MAX as int <= u64::MAX as int);
                }
                bump_count(&mut counts, d, Ghost(i as int));
            },
            None => {},
        }
        i = i + 1;
    }
    proof {
        assert(views(files@).take(n as int) =~= views(files@));
    }
    if counts.len() == 0 {
        let mut s = "cluster_".to_owned();
        s.append(u64_to_string(index as u64).as_str());
        return s;
    }
    let ghost cv = counts_view(counts@);
    let mut best_name = counts[0].0.clone();
    let mut best_count = counts[0].1;
    let m = counts.len();
    let mut j: usize = 1;
    while j < m
        invariant
            1 <= j <= m,
            m == counts@.len(),
            cv == counts_view(counts@),
            cv.len() == m,
            spec_best_from(cv, 1, cv[0].0, cv[0].1) == spec_best_from(
                cv,
                j as int,
                best_name@,
                best_count as int,
            ),
        decreases m - j,
    {
        if counts[j].1 > best_count {
            best_name = counts[j].0.clone();
            best_count = counts[j].1;
        }
        j = j + 1;
    }
    best_name
}

/// What clustering yields: each component of two or more files becomes a
/// subsystem, named by `spec_cluster_name` with its ordinal among the
/// survivors, enabled.
pub open spec fn spec_build_subs(comps: Seq<Seq<Seq<char>>>) -> Seq<SubsystemV>
    decreases comps.len(),
{
    if comps.len() == 0 {
        Seq::empty()
    } else {
        let rest = spec_build_subs(comps.drop_last());
        if comps.last().len() >= 2 {
            rest.push(
                SubsystemV {
                    name: spec_cluster_name(comps.last(), rest.len() as int),
                    files: comps.last(),
                    enabled: true,
                },
            )
        } else {
            rest
        }
    }
}

/// The subsystems the manifest yields.
pub open spec fn spec_build(d: crate::semmap::SemmapV) -> Seq<SubsystemV> {
    spec_build_subs(spec_find(spec_layer_files(d.layers), d.edges).0)
}

/// Clustering is deterministic: a fixed manifest admits exactly one
/// subsystem list, so repeated runs agree in membership and naming.
pub proof fn lemma_clustering_deterministic(
    d: crate::semmap::SemmapV,
    a: Seq<SubsystemV>,
    b: Seq<SubsystemV>,
)
    requires
        a == spec_build(d),
        b == spec_build(d),
    ensures
        a == b,
{
}

proof fn lemma_build_subs_sizes(comps: Seq<Seq<Seq<char>>>)
    ensures
        forall|k: int|
            0 <= k < spec_build_subs(comps).len()
                ==> (#[trigger] spec_build_subs(comps)[k]).files.len() >= 2,
        forall|i: int|
            0 <= i < comps.len() && (#[trigger] comps[i]).len() >= 2 ==> exists|k: int|
                0 <= k < spec_build_subs(comps).len()
                    && (#[trigger] spec_build_subs(comps)[k]).files == comps[i],
        forall|k: int|
            0 <= k < spec_build_subs(comps).len() ==> exists|i: int|
                0 <= i < comps.len() && (#[trigger] spec_build_subs(comps)[k]).files == comps[i],
    decreases comps.len(),
{
    if comps.len() > 0 {
        lemma_build_subs_sizes(comps.drop_last());
        let rest = spec_build_subs(comps.drop_last());
        assert forall|i: int| 0 <= i < comps.len() && (#[trigger] comps[i]).len() >= 2 implies
            exists|k: int|
                0 <= k < spec_build_subs(comps).len()
                    && (#[trigger] spec_build_subs(comps)[k]).files == comps[i] by {
            if i < comps.len() - 1 {
                assert(comps.drop_last()[i] == comps[i]);
                let k = choose|k: int| 0 <= k < rest.len() && (#[trigger] rest[k]).files == comps[i];
                assert(spec_build_subs(comps)[k].files == comps[i]);
            } else {
                assert(spec_build_subs(comps)[rest.len() as int].files == comps[i]);
            }
        }
        assert forall|k: int| 0 <= k < spec_build_subs(comps).len() implies exists|i: int|
            0 <= i < comps.len() && (#[trigger] spec_build_subs(comps)[k]).files == comps[i] by {
            if k < rest.len() {
                assert(spec_build_subs(comps)[k] == rest[k]);
                let i = choose|i: int|
                    0 <= i < comps.drop_last().len() && (#[trigger] rest[k]).files == comps.drop_last()[i];
                assert(comps[i] == comps.drop_last()[i]);
                assert(spec_build_subs(comps)[k].files == comps[i]);
            } else {
                assert(comps.last().len() >= 2);
                assert(spec_build_subs(comps)[k].files == comps[comps.len() - 1]);
            }
        }
    }
}

/// The members of one subsystem are all connected to one another over the
/// manifest's dependency graph.
pub proof fn lemma_subsystem_members_connected(d: crate::semmap::SemmapV)
    ensures
        forall|k: int, x: Seq<char>, y: Seq<char>|
            0 <= k < spec_build(d).len() && #[trigger] spec_build(d)[k].files.contains(x)
                && #[trigger] spec_build(d)[k].files.contains(y) ==> connected(d.edges, x, y),
{
    let files = spec_layer_files(d.layers);
    let comps = spec_find(files, d.edges).0;
    lemma_build_subs_sizes(comps);
    lemma_components_are_connectivity_classes(files, d.edges);
    assert forall|k: int, x: Seq<char>, y: Seq<char>|
        0 <= k < spec_build(d).len() && #[trigger] spec_build(d)[k].files.contains(x)
            && #[trigger] spec_build(d)[k].files.contains(y) implies connected(d.edges, x, y) by {
        assert(spec_build(d) == spec_build_subs(comps));
        let i = choose|i: int|
            0 <= i < comps.len() && (#[trigger] spec_build_subs(comps)[k]).files == comps[i];
        assert(comps[i].contains(x));
        assert(comps[i].contains(y));
    }
}

/// A connected component of one file never becomes a subsystem; one of
/// two or more files always does.
pub proof fn lemma_subsystem_size_threshold(d: crate::semmap::SemmapV)
    ensures
        forall|k: int|
            0 <= k < spec_build(d).len() ==> (#[trigger] spec_build(d)[k]).files.len() >= 2,
        forall|i: int|
            0 <= i < spec_find(spec_layer_files(d.layers), d.edges).0.len() && (
            #[trigger] spec_find(spec_layer_files(d.layers), d.edges).0[i]).len() >= 2
                ==> exists|k: int|
                0 <= k < spec_build(d).len() && (#[trigger] spec_build(d)[k]).files == spec_find(
                    spec_layer_files(d.layers),
                    d.edges,
                ).0[i],
{
    let comps = spec_find(spec_layer_files(d.layers), d.edges).0;
    lemma_build_subs_sizes(comps);
    assert(spec_build(d) == spec_build_subs(comps));
    assert forall|i: int| 0 <= i < comps.len() && (#[trigger] comps[i]).len() >= 2 implies exists|
        k: int,
    | 0 <= k < spec_build(d).len() && (#[trigger] spec_build(d)[k]).files == comps[i] by {
        let k = choose|k: int|
            0 <= k < spec_build_subs(comps).len() && (#[trigger] spec_build_subs(comps)[k]).files
                == comps[i];
        assert(spec_build(d)[k].files == comps[i]);
    }
}

/// Groups the manifest's files into connected components of the
/// dependency graph and promotes every component of two or more files to
/// an enabled subsystem.
pub fn build(data: &SemmapData) -> (r: Vec<Subsystem>)
    ensures
        subs_view(r@) == spec_build(semmap_view(*data)),
{
    let comps = find_components(data);
    let ghost cvs = comps@.map_values(|c: Vec<String>| views(c@));
    let n = comps.len();
    let mut out: Vec<Subsystem> = Vec::new();
    let mut i: usize = 0;
    proof {
        assert(cvs.take(0) =~= Seq::<Seq<Seq<char>>>::empty());
        assert(subs_view(out@) =~= spec_build_subs(cvs.take(0)));
    }
    while i < n
        invariant
            i <= n,
            n == comps@.len() == cvs.len(),
            cvs == comps@.map_values(|c: Vec<String>| views(c@)),
            subs_view(out@) == spec_build_subs(cvs.take(i as int)),
        decreases n - i,
    {
        proof {
            assert(cvs.take(i + 1).drop_last() =~= cvs.take(i as int));
            assert(cvs.take(i + 1).last() == cvs[i as int]);
            assert(cvs[i as int] == views(comps@[i as int]@));
        }
        let c = &comps[i];
        if c.len() >= 2 {
            let name = cluster_name(c, out.len());
            let files = crate::strutil::clone_paths(c);
            let sub = Subsystem { name, files, enabled: true };
            proof {
                assert(subs_view(out@).len() == out@.len());
                assert(subs_view(out@.push(sub)) =~= subs_view(out@).push(sub_view(sub)));
            }
            out.push(sub);
        }
        i = i + 1;
    }
    proof {
        assert(cvs.take(n as int) =~= cvs);
    }
    out
}

} // verus!
