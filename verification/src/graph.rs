//! Expression graphs by node index, and the depth-first post-order that
//! back-propagation walks in reverse.

use vstd::prelude::*;

verus! {

/// Every child index names a node of the graph.
pub open spec fn graph_wf(g: Seq<Seq<usize>>) -> bool {
    forall|u: int, k: int| 0 <= u < g.len() && 0 <= k < g[u].len() ==> #[trigger] g[u][k] < g.len()
}

/// `c` is one of the children of node `u`.
pub open spec fn has_edge(g: Seq<Seq<usize>>, u: int, c: int) -> bool {
    0 <= u < g.len() && exists|k: int| 0 <= k < g[u].len() && g[u][k] == c
}

/// `p` is a non-empty walk along edges.
pub open spec fn is_path(g: Seq<Seq<usize>>, p: Seq<int>) -> bool {
    &&& p.len() >= 1
    &&& forall|i: int| 0 <= i < p.len() - 1 ==> has_edge(g, #[trigger] p[i], p[i + 1])
}

/// `v` can be reached from `root` along edges (in zero or more steps).
pub open spec fn reachable(g: Seq<Seq<usize>>, root: int, v: int) -> bool {
    exists|p: Seq<int>| is_path(g, p) && p[0] == root && p.last() == v
}

/// `rank` strictly decreases along every edge.
pub open spec fn ranked(g: Seq<Seq<usize>>, rank: spec_fn(int) -> nat) -> bool {
    forall|u: int, c: int| #[trigger] has_edge(g, u, c) ==> rank(c) < rank(u)
}

/// The graph has no cycle: some rank decreases along every edge.
pub open spec fn acyclic(g: Seq<Seq<usize>>) -> bool {
    exists|rank: spec_fn(int) -> nat| ranked(g, rank)
}

/// Number of `false` entries.
spec fn unvisited_count(s: Seq<bool>) -> nat
    decreases s.len(),
{
    if s.len() == 0 {
        0
    } else {
        unvisited_count(s.drop_last()) + if s.last() { 0nat } else { 1nat }
    }
}

/// Depth-first visit of `v`: unless already visited, mark it, visit its
/// children in order, then append it.  `fuel` bounds the nesting.
pub open spec fn dfs_visit(g: Seq<Seq<usize>>, v: int, visited: Seq<bool>, order: Seq<usize>, fuel: nat)
    -> (Seq<bool>, Seq<usize>)
    decreases fuel, 1nat, 0nat,
{
    if visited[v] {
        (visited, order)
    } else {
        let r = dfs_children(g, v, 0, visited.update(v, true), order, fuel);
        (r.0, r.1.push(v as usize))
    }
}

/// Depth-first visits of the children of `v` from the `k`-th on.
pub open spec fn dfs_children(
    g: Seq<Seq<usize>>,
    v: int,
    k: int,
    visited: Seq<bool>,
    order: Seq<usize>,
    fuel: nat,
) -> (Seq<bool>, Seq<usize>)
    decreases fuel, 0nat, g[v].len() - k,
{
    if k < 0 || k >= g[v].len() || fuel == 0 {
        (visited, order)
    } else {
        let r = dfs_visit(g, g[v][k] as int, visited, order, (fuel - 1) as nat);
        dfs_children(g, v, k + 1, r.0, r.1, fuel)
    }
}

/// Post-order of a depth-first search from `root`: every node reachable from
/// `root` once, each after the children it was first reached through.
pub open spec fn dfs_order(g: Seq<Seq<usize>>, root: int) -> Seq<usize> {
    dfs_visit(g, root, Seq::new(g.len(), |i: int| false), Seq::empty(), g.len() + 1).1
}

proof fn lemma_count_bound(s: Seq<bool>)
    ensures
        unvisited_count(s) <= s.len(),
    decreases s.len(),
{
    if s.len() > 0 {
        lemma_count_bound(s.drop_last());
    }
}

/// Marking more entries never raises the count; marking a new one lowers it.
proof fn lemma_count_mono(a: Seq<bool>, b: Seq<bool>)
    requires
        a.len() == b.len(),
        forall|i: int| 0 <= i < a.len() && a[i] ==> b[i],
    ensures
        unvisited_count(b) <= unvisited_count(a),
        (exists|i: int| 0 <= i < a.len() && !a[i] && b[i]) ==> unvisited_count(b) < unvisited_count(a),
    decreases a.len(),
{
    if a.len() > 0 {
        let a2 = a.drop_last();
        let b2 = b.drop_last();
        lemma_count_mono(a2, b2);
        if exists|i: int| 0 <= i < a.len() && !a[i] && b[i] {
            let i = choose|i: int| 0 <= i < a.len() && !a[i] && b[i];
            if i < a.len() - 1 {
                assert(!a2[i] && b2[i]);
            }
        }
    }
}

proof fn lemma_all_false_count(n: nat)
    ensures
        unvisited_count(Seq::new(n, |i: int| false)) == n,
    decreases n,
{
    if n > 0 {
        lemma_all_false_count((n - 1) as nat);
        assert(Seq::new(n, |i: int| false).drop_last() =~= Seq::new((n - 1) as nat, |i: int| false));
    }
}

/// Invariant of the search: `visited` holds exactly the finished nodes in
/// `order` and the nodes on the current path `gray`; nodes are finished at
/// most once; finished nodes have all children visited; everything visited
/// is reachable from `root`; and in an acyclic graph no finished node has an
/// edge to a node finished after it.
spec fn search_inv(
    g: Seq<Seq<usize>>,
    visited: Seq<bool>,
    order: Seq<usize>,
    gray: Set<int>,
    root: int,
    rank: spec_fn(int) -> nat,
) -> bool {
    &&& visited.len() == g.len()
    &&& forall|i: int, j: int| 0 <= i < j < order.len() ==> order[i] != order[j]
    &&& forall|i: int| 0 <= i < order.len() ==> #[trigger] order[i] < g.len()
    &&& forall|u: int| 0 <= u < g.len() ==> (#[trigger] visited[u] <==> (order.contains(u as usize) || gray.contains(u)))
    &&& forall|u: int| #[trigger] gray.contains(u) ==> 0 <= u < g.len() && !order.contains(u as usize)
    &&& forall|i: int, c: int| 0 <= i < order.len() && #[trigger] has_edge(g, order[i] as int, c) ==> visited[c]
    &&& forall|u: int| 0 <= u < g.len() && #[trigger] visited[u] ==> reachable(g, root, u)
    &&& ranked(g, rank) ==> forall|i: int, j: int| 0 <= i < j < order.len() ==> !has_edge(g, #[trigger] order[i] as int, #[trigger] order[j] as int)
}

/// A walk to `v` extended by an edge from `v` is a walk to the child.
proof fn lemma_reach_step(g: Seq<Seq<usize>>, root: int, v: int, c: int)
    requires
        reachable(g, root, v),
        has_edge(g, v, c),
    ensures
        reachable(g, root, c),
{
    let p = choose|p: Seq<int>| is_path(g, p) && p[0] == root && p.last() == v;
    let q = p.push(c);
    assert forall|i: int| 0 <= i < q.len() - 1 implies has_edge(g, #[trigger] q[i], q[i + 1]) by {
        if i < p.len() - 1 {
            assert(q[i] == p[i] && q[i + 1] == p[i + 1]);
        }
    }
    assert(is_path(g, q) && q[0] == root && q.last() == c);
}

/// A node is reachable from itself.
proof fn lemma_reach_self(g: Seq<Seq<usize>>, root: int)
    ensures
        reachable(g, root, root),
{
    let p = seq![root];
    assert(is_path(g, p) && p[0] == root && p.last() == root);
}

/// A set that holds `root` and is closed under edges holds every node
/// reachable from `root`.
proof fn lemma_closed_holds_reachable(g: Seq<Seq<usize>>, root: int, s: Set<int>, v: int)
    requires
        s.contains(root),
        forall|u: int, c: int| s.contains(u) && #[trigger] has_edge(g, u, c) ==> s.contains(c),
        reachable(g, root, v),
    ensures
        s.contains(v),
{
    let p = choose|p: Seq<int>| is_path(g, p) && p[0] == root && p.last() == v;
    lemma_closed_holds_path(g, s, p, p.len() - 1);
}

proof fn lemma_closed_holds_path(g: Seq<Seq<usize>>, s: Set<int>, p: Seq<int>, k: int)
    requires
        is_path(g, p),
        s.contains(p[0]),
        forall|u: int, c: int| s.contains(u) && #[trigger] has_edge(g, u, c) ==> s.contains(c),
        0 <= k < p.len(),
    ensures
        s.contains(p[k]),
    decreases k,
{
    if k > 0 {
        lemma_closed_holds_path(g, s, p, k - 1);
        assert(has_edge(g, p[k - 1], p[k]));
    }
}

/// Depth-first visit of `v`, mirroring `dfs_visit`.
fn visit(
    children: &Vec<Vec<usize>>,
    v: usize,
    visited: &mut Vec<bool>,
    order: &mut Vec<usize>,
    Ghost(fuel): Ghost<nat>,
    Ghost(gray): Ghost<Set<int>>,
    Ghost(root): Ghost<int>,
    Ghost(rank): Ghost<spec_fn(int) -> nat>,
)
    requires
        graph_wf(children.deep_view()),
        v < children.len(),
        fuel > unvisited_count(old(visited)@),
        search_inv(children.deep_view(), old(visited)@, old(order)@, gray, root, rank),
        reachable(children.deep_view(), root, v as int),
        ranked(children.deep_view(), rank) ==> forall|u: int| #[trigger] gray.contains(u) ==> rank(u) > rank(v as int),
    ensures
        (final(visited)@, final(order)@) == dfs_visit(children.deep_view(), v as int, old(visited)@, old(order)@, fuel),
        search_inv(children.deep_view(), final(visited)@, final(order)@, gray, root, rank),
        final(visited)@[v as int],
        final(order)@.len() >= old(order)@.len(),
        final(order)@.subrange(0, old(order)@.len() as int) == old(order)@,
        forall|u: int| 0 <= u < old(visited)@.len() && old(visited)@[u] ==> final(visited)@[u],
        forall|i: int| old(order)@.len() <= i < final(order)@.len() ==> !old(visited)@[#[trigger] final(order)@[i] as int],
        ranked(children.deep_view(), rank) ==> forall|i: int| old(order)@.len() <= i < final(order)@.len() ==> rank(#[trigger] final(order)@[i] as int) <= rank(v as int),
        !old(visited)@[v as int] ==> final(order)@.len() > old(order)@.len() && final(order)@.last() == v,
    decreases fuel,
{
    let ghost g = children.deep_view();
    let ghost vis0 = visited@;
    let ghost ord0 = order@;
    if visited[v] {
        assert(order@.subrange(0, ord0.len() as int) =~= ord0);
        return;
    }
    visited.set(v, true);
    let ghost vis1 = visited@;
    let ghost gray1 = gray.insert(v as int);
    proof {
        lemma_count_mono(vis0, vis1);
        assert(vis1 =~= vis0.update(v as int, true));
        assert(!ord0.contains(v));
        assert(search_inv(g, vis1, ord0, gray1, root, rank));
    }
    let nchildren: usize = children[v].len();
    let mut k: usize = 0;
    while k < nchildren
        invariant
            g == children.deep_view(),
            graph_wf(g),
            v < children.len(),
            nchildren == g[v as int].len(),
            k <= nchildren,
            fuel > unvisited_count(vis0),
            unvisited_count(visited@) < unvisited_count(vis0),
            !vis0[v as int],
            vis0.len() == g.len(),
            vis1 == vis0.update(v as int, true),
            gray1 == gray.insert(v as int),
            search_inv(g, visited@, order@, gray1, root, rank),
            dfs_children(g, v as int, 0, vis1, ord0, fuel) == dfs_children(g, v as int, k as int, visited@, order@, fuel),
            order@.len() >= ord0.len(),
            order@.subrange(0, ord0.len() as int) == ord0,
            forall|u: int| 0 <= u < vis1.len() && vis1[u] ==> visited@[u],
            forall|i: int| ord0.len() <= i < order@.len() ==> !vis1[#[trigger] order@[i] as int],
            forall|j: int| 0 <= j < k ==> visited@[#[trigger] g[v as int][j] as int],
            reachable(g, root, v as int),
            ranked(g, rank) ==> forall|u: int| #[trigger] gray.contains(u) ==> rank(u) > rank(v as int),
            ranked(g, rank) ==> forall|i: int| ord0.len() <= i < order@.len() ==> rank(#[trigger] order@[i] as int) < rank(v as int),
        decreases nchildren - k,
    {
        let c: usize = children[v][k];
        let ghost vis_k = visited@;
        let ghost ord_k = order@;
        proof {
            assert(g[v as int][k as int] == c);
            assert(has_edge(g, v as int, c as int));
            lemma_reach_step(g, root, v as int, c as int);
            lemma_count_mono(vis0, vis1);
            lemma_count_bound(visited@);
        }
        visit(children, c, visited, order, Ghost((fuel - 1) as nat), Ghost(gray1), Ghost(root), Ghost(rank));
        proof {
            assert forall|i: int| ord0.len() <= i < order@.len() implies !vis1[#[trigger] order@[i] as int] by {
                if i < ord_k.len() {
                    assert(order@[i] == order@.subrange(0, ord_k.len() as int)[i]);
                    assert(order@[i] == ord_k[i]);
                }
            }
            assert forall|i: int| ord0.len() <= i < order@.len() && ranked(g, rank) implies rank(#[trigger] order@[i] as int) < rank(v as int) by {
                if i < ord_k.len() {
                    assert(order@[i] == order@.subrange(0, ord_k.len() as int)[i]);
                } else {
                    assert(has_edge(g, v as int, c as int));
                }
            }
            assert(order@.subrange(0, ord0.len() as int) =~= ord0) by {
                assert forall|i: int| 0 <= i < ord0.len() implies order@[i] == ord0[i] by {
                    assert(order@[i] == order@.subrange(0, ord_k.len() as int)[i]);
                    assert(ord_k[i] == ord_k.subrange(0, ord0.len() as int)[i]);
                }
            }
            lemma_count_mono(vis_k, visited@);
        }
        k = k + 1;
    }
    let ghost ord_pre = order@;
    order.push(v);
    proof {
        let ordf = order@;
        let n = ord0.len();
        assert(ordf.drop_last() =~= ord_pre);
        assert(ordf.last() == v);
        assert(ordf.subrange(0, n as int) =~= ord0) by {
            assert forall|i: int| 0 <= i < n implies ordf[i] == ord0[i] by {
                assert(ordf[i] == ordf.drop_last()[i]);
                assert(ordf.drop_last().subrange(0, n as int)[i] == ord0[i]);
            }
        }
        // v was not finished before: it was gray throughout.
        assert(!ordf.drop_last().contains(v)) by {
            if ordf.drop_last().contains(v) {
                let i = choose|i: int| 0 <= i < ordf.drop_last().len() && ordf.drop_last()[i] == v;
                if i < n {
                    assert(ord0[i] == v);
                    assert(vis0[v as int]);
                }
            }
        }
        assert forall|u: int| 0 <= u < g.len() implies (#[trigger] visited@[u] <==> (ordf.contains(u as usize) || gray.contains(u))) by {
            let prev = ordf.drop_last();
            assert(visited@[u] <==> (prev.contains(u as usize) || gray1.contains(u)));
            if visited@[u] {
                if u == v as int {
                    assert(ordf[ordf.len() - 1] == v);
                    assert(ordf.contains(u as usize));
                } else if prev.contains(u as usize) {
                    let i = choose|i: int| 0 <= i < prev.len() && prev[i] == u as usize;
                    assert(ordf[i] == u as usize);
                    assert(ordf.contains(u as usize));
                } else {
                    assert(gray.contains(u));
                }
            }
            if ordf.contains(u as usize) {
                let i = choose|i: int| 0 <= i < ordf.len() && ordf[i] == u as usize;
                if i < prev.len() {
                    assert(prev[i] == u as usize);
                    assert(prev.contains(u as usize));
                } else {
                    assert(u == v as int);
                    assert(vis1[v as int]);
                }
            }
            if gray.contains(u) {
                assert(gray1.contains(u));
            }
        }
        assert forall|u: int| #[trigger] gray.contains(u) implies 0 <= u < g.len() && !ordf.contains(u as usize) by {
            let prev = ordf.drop_last();
            assert(gray1.contains(u));
            assert(!prev.contains(u as usize));
            assert(vis0[u]);
            if ordf.contains(u as usize) {
                let i = choose|i: int| 0 <= i < ordf.len() && ordf[i] == u as usize;
                if i < prev.len() {
                    assert(prev[i] == u as usize);
                }
            }
        }
        assert forall|i: int, c: int| 0 <= i < ordf.len() && #[trigger] has_edge(g, ordf[i] as int, c) implies visited@[c] by {
            if i == ordf.len() - 1 {
                let kk = choose|kk: int| 0 <= kk < g[v as int].len() && g[v as int][kk] == c;
                assert(visited@[g[v as int][kk] as int]);
            } else {
                assert(ordf[i] == ordf.drop_last()[i]);
            }
        }
        assert forall|i: int, j: int| 0 <= i < j < ordf.len() implies ordf[i] != ordf[j] by {
            let prev = ordf.drop_last();
            if j == ordf.len() - 1 {
                assert(prev[i] == ordf[i]);
            } else {
                assert(prev[i] == ordf[i] && prev[j] == ordf[j]);
            }
        }
        assert forall|i: int| 0 <= i < ordf.len() implies #[trigger] ordf[i] < g.len() by {
            if i < ordf.len() - 1 {
                assert(ordf.drop_last()[i] == ordf[i]);
            }
        }
        if ranked(g, rank) {
            assert forall|i: int, j: int| 0 <= i < j < ordf.len() implies !has_edge(g, #[trigger] ordf[i] as int, #[trigger] ordf[j] as int) by {
                let prev = ordf.drop_last();
                assert(prev[i] == ordf[i]);
                if j == ordf.len() - 1 {
                    if i < n {
                        // finished before the visit began: its children were visited then, v was not
                        assert(ord0[i] == ordf[i]);
                        if has_edge(g, ordf[i] as int, v as int) {
                            assert(vis0[v as int]);
                        }
                    } else {
                        // finished inside the visit: lower rank than v
                        assert(rank(prev[i] as int) < rank(v as int));
                    }
                } else {
                    assert(prev[j] == ordf[j]);
                }
            }
            assert forall|i: int| n <= i < ordf.len() implies rank(#[trigger] ordf[i] as int) <= rank(v as int) by {
                if i < ordf.len() - 1 {
                    assert(ordf.drop_last()[i] == ordf[i]);
                }
            }
        }
        assert forall|i: int| n <= i < ordf.len() implies !vis0[#[trigger] ordf[i] as int] by {
            if i < ordf.len() - 1 {
                assert(ordf.drop_last()[i] == ordf[i]);
                assert(!vis1[ordf[i] as int]);
            }
        }
        assert(dfs_children(g, v as int, nchildren as int, visited@, ordf.drop_last(), fuel) == (visited@, ordf.drop_last()));
        assert(ordf =~= ordf.drop_last().push(v));
    }
}

/// Post-order of a depth-first search from `root`, children taken in list
/// order.  It lists each node reachable from `root` exactly once and ends
/// with `root`; in an acyclic graph no node has an edge to a node listed
/// after it, so every node comes after all its children.
pub fn topo_order(children: &Vec<Vec<usize>>, root: usize) -> (order: Vec<usize>)
    requires
        graph_wf(children.deep_view()),
        root < children.len(),
    ensures
        order@ == dfs_order(children.deep_view(), root as int),
        forall|v: int| order@.contains(v as usize) && 0 <= v < children.len() <==> reachable(children.deep_view(), root as int, v),
        forall|i: int| 0 <= i < order@.len() ==> #[trigger] order@[i] < children.len(),
        forall|i: int, j: int| 0 <= i < j < order@.len() ==> order@[i] != order@[j],
        order@.len() >= 1,
        order@.last() == root,
        acyclic(children.deep_view()) ==> forall|i: int, j: int| 0 <= i < j < order@.len() ==> !has_edge(children.deep_view(), #[trigger] order@[i] as int, #[trigger] order@[j] as int),
{
    let ghost g = children.deep_view();
    let n: usize = children.len();
    let mut visited: Vec<bool> = Vec::new();
    let mut i: usize = 0;
    while i < n
        invariant
            i <= n,
            visited@ =~= Seq::new(i as nat, |j: int| false),
        decreases n - i,
    {
        visited.push(false);
        i = i + 1;
    }
    let mut order: Vec<usize> = Vec::new();
    let ghost rank: spec_fn(int) -> nat = if acyclic(g) { choose|r: spec_fn(int) -> nat| ranked(g, r) } else { |x: int| 0nat };
    proof {
        lemma_all_false_count(n as nat);
        lemma_reach_self(g, root as int);
        assert(search_inv(g, visited@, order@, Set::empty(), root as int, rank));
        assert(visited@ =~= Seq::new(g.len(), |j: int| false));
    }
    visit(children, root, &mut visited, &mut order, Ghost((n + 1) as nat), Ghost(Set::empty()), Ghost(root as int), Ghost(rank));
    proof {
        let s = Set::new(|u: int| 0 <= u < n && order@.contains(u as usize));
        assert forall|u: int, c: int| s.contains(u) && #[trigger] has_edge(g, u, c) implies s.contains(c) by {
            let i = choose|i: int| 0 <= i < order@.len() && order@[i] == u as usize;
            assert(visited@[c]);
            assert(c < n) by {
                let kk = choose|kk: int| 0 <= kk < g[u].len() && g[u][kk] == c;
                assert(g[u][kk] < g.len());
            }
        }
        assert forall|v: int| order@.contains(v as usize) && 0 <= v < n <==> reachable(g, root as int, v) by {
            if reachable(g, root as int, v) {
                assert(s.contains(root as int));
                lemma_closed_holds_reachable(g, root as int, s, v);
            }
            if order@.contains(v as usize) && 0 <= v < n {
                assert(visited@[v]);
            }
        }
    }
    order
}

/// A graph whose every child index is smaller than its parent's index, as
/// when nodes are numbered in the order they are created, is acyclic.
pub proof fn lemma_creation_order_acyclic(g: Seq<Seq<usize>>)
    requires
        forall|u: int, k: int| 0 <= u < g.len() && 0 <= k < g[u].len() ==> #[trigger] g[u][k] < u,
    ensures
        acyclic(g),
{
    let rank = |x: int| if x >= 0 { x as nat } else { 0nat };
    assert forall|u: int, c: int| #[trigger] has_edge(g, u, c) implies rank(c) < rank(u) by {
        let k = choose|k: int| 0 <= k < g[u].len() && g[u][k] == c;
        assert(g[u][k] < u);
    }
    assert(ranked(g, rank));
}

/// Children are numbered before their parents.
pub open spec fn creation_ordered(g: Seq<Seq<usize>>) -> bool {
    forall|u: int, k: int| 0 <= u < g.len() && 0 <= k < g[u].len() ==> #[trigger] g[u][k] < u
}

/// The shape of an expression graph built node by node: node `i` lists the
/// indices of the nodes it was computed from, all created before it.
pub struct Tape {
    children: Vec<Vec<usize>>,
}

impl View for Tape {
    type V = Seq<Seq<usize>>;

    closed spec fn view(&self) -> Seq<Seq<usize>> {
        self.children.deep_view()
    }
}

impl Tape {
    #[verifier::type_invariant]
    closed spec fn inv(self) -> bool {
        creation_ordered(self.children.deep_view())
    }

    /// An empty tape.
    pub fn new() -> (t: Tape)
        ensures
            t@ == Seq::<Seq<usize>>::empty(),
            creation_ordered(t@),
    {
        let t = Tape { children: Vec::new() };
        assert(t@ =~= Seq::<Seq<usize>>::empty());
        t
    }

    /// Number of nodes.
    pub fn len(&self) -> (n: usize)
        ensures
            n == self@.len(),
            creation_ordered(self@),
    {
        proof {
            use_type_invariant(self);
        }
        self.children.len()
    }

    /// Appends a node computed from `children` and returns its index.
    pub fn add_node(&mut self, children: Vec<usize>) -> (id: usize)
        requires
            forall|k: int| 0 <= k < children@.len() ==> #[trigger] children@[k] < old(self)@.len(),
        ensures
            id == old(self)@.len(),
            final(self)@ == old(self)@.push(children@),
            creation_ordered(final(self)@),
    {
        proof {
            use_type_invariant(&*self);
        }
        let id: usize = self.children.len();
        let ghost before = self@;
        let ghost kids = children@;
        let mut nodes: Vec<Vec<usize>> = Vec::new();
        std::mem::swap(&mut nodes, &mut self.children);
        let ghost before_v = nodes@;
        nodes.push(children);
        proof {
            assert(nodes@ == before_v.push(nodes@.last()));
            assert forall|i: int| 0 <= i < nodes@.len() implies nodes.deep_view()[i] == before.push(kids)[i] by {
                if i < before_v.len() {
                    assert(nodes@[i] == before_v[i]);
                }
            }
            assert(nodes.deep_view() =~= before.push(kids));
        }
        self.children = nodes;
        proof {
            assert(self@ =~= before.push(kids));
        }
        id
    }

    /// Drops every node from index `n` on (nodes before `n` never depend on them).
    pub fn truncate(&mut self, n: usize)
        ensures
            final(self)@ == if n < old(self)@.len() { old(self)@.subrange(0, n as int) } else { old(self)@ },
            creation_ordered(final(self)@),
    {
        proof {
            use_type_invariant(&*self);
        }
        let ghost before = self@;
        let mut nodes: Vec<Vec<usize>> = Vec::new();
        std::mem::swap(&mut nodes, &mut self.children);
        nodes.truncate(n);
        proof {
            if n < before.len() {
                assert(nodes.deep_view() =~= before.subrange(0, n as int));
            } else {
                assert(nodes.deep_view() =~= before);
            }
        }
        self.children = nodes;
        proof {
            if n < before.len() {
                assert(self@ =~= before.subrange(0, n as int));
            } else {
                assert(self@ =~= before);
            }
        }
    }

    /// The indices that node `id` was computed from.
    pub fn children(&self, id: usize) -> (c: &Vec<usize>)
        requires
            id < self@.len(),
        ensures
            c@ == self@[id as int],
    {
        &self.children[id]
    }

    /// Depth-first post-order from `root`: every node that `root` depends
    /// on, once each, every node after all of its children, `root` last.
    /// Back-propagation walks it in reverse.
    pub fn topo_order(&self, root: usize) -> (order: Vec<usize>)
        requires
            root < self@.len(),
        ensures
            order@ == dfs_order(self@, root as int),
            forall|v: int| order@.contains(v as usize) && 0 <= v < self@.len() <==> reachable(self@, root as int, v),
            forall|i: int, j: int| 0 <= i < j < order@.len() ==> order@[i] != order@[j],
            order@.len() >= 1,
            order@.last() == root,
            forall|i: int, j: int| 0 <= i < j < order@.len() ==> !has_edge(self@, #[trigger] order@[i] as int, #[trigger] order@[j] as int),
    {
        proof {
            use_type_invariant(self);
            lemma_creation_order_acyclic(self@);
            assert forall|u: int, k: int| 0 <= u < self@.len() && 0 <= k < self@[u].len() implies #[trigger] self@[u][k] < self@.len() by {
                assert(self@[u][k] < u);
            }
        }
        topo_order(&self.children, root)
    }
}

} // verus!
