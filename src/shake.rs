use vstd::prelude::*;
use vstd::set_lib::*;
use vstd::string::*;
use vstd::seq_lib::lemma_seq_contains_after_push;
use crate::graph::{
    Graph, consumes, distinct_ids, exports, import_resolves_to, uses,
};
use crate::module::{ModuleView, str_set, contains_str};
use crate::path::{is_relative_specifier, normalize_path};

verus! {

/// One step of the demand for `s`, from module `a` to module `b`: `a` mentions `s`, and
/// either `a` imports `b`, or `b` imports `a` and mentions `s` as well.
pub open spec fn demand_step(g: Seq<ModuleView>, s: Seq<char>, a: Seq<char>, b: Seq<char>) -> bool {
    uses(g, a, s) && (consumes(g, a, b) || (consumes(g, b, a) && uses(g, b, s)))
}

/// A chain of demand steps for `s` that starts at the entry `e`.
pub open spec fn demand_chain(
    g: Seq<ModuleView>,
    e: Seq<char>,
    s: Seq<char>,
    path: Seq<Seq<char>>,
) -> bool {
    &&& path.len() > 0
    &&& path[0] == e
    &&& forall|k: int| 0 <= k < path.len() - 1 ==> #[trigger] demand_step(g, s, path[k], path[k + 1])
}

/// The symbol `s` is demanded at module `m`: some demand chain from `e` ends at `m`.
/// The demand flows from the entry into the modules it imports, on through every module
/// that mentions `s`, and also back to importers that mention `s`.
pub open spec fn demanded(g: Seq<ModuleView>, e: Seq<char>, m: Seq<char>, s: Seq<char>) -> bool {
    exists|path: Seq<Seq<char>>| #[trigger] demand_chain(g, e, s, path) && path.last() == m
}

/// The export `s` of module `m` is kept when shaking from the entry `e`: it is demanded
/// there, or `m` is the entry itself.
pub open spec fn kept(g: Seq<ModuleView>, e: Seq<char>, m: Seq<char>, s: Seq<char>) -> bool {
    exports(g, m, s) && (demanded(g, e, m, s) || m == e)
}

/// The text `<m>::<s>` that names export `s` of module `m`.
pub open spec fn symbol_key(m: Seq<char>, s: Seq<char>) -> Seq<char> {
    m + seq![':', ':'] + s
}

/// The keys of all kept exports.
pub open spec fn kept_keys(g: Seq<ModuleView>, e: Seq<char>) -> Set<Seq<char>> {
    Set::new(|k: Seq<char>| exists|m: Seq<char>, s: Seq<char>| kept(g, e, m, s) && k == symbol_key(m, s))
}

/// No string occurs twice in `v`.
pub open spec fn distinct_strs(v: Seq<String>) -> bool {
    forall|i: int, j: int| 0 <= i < v.len() && 0 <= j < v.len() && i != j ==> v[i]@ != v[j]@
}

/// The module at index `p` imports the module at index `d` by a relative specifier.
pub open spec fn edge_at(g: Seq<ModuleView>, p: int, d: int) -> bool {
    0 <= d < g.len() && exists|j: int| #[trigger] import_resolves_to(g, p, j, g[d].id)
}

/// `edges` lists exactly the pairs (consumer, dependency) of module indices of `g`.
pub open spec fn edges_exact(g: Seq<ModuleView>, edges: Seq<(usize, usize)>) -> bool {
    &&& forall|k: int| 0 <= k < edges.len() ==> #[trigger] edge_at(g, edges[k].0 as int, edges[k].1 as int)
    &&& forall|i: int, j: int, d: int|
        0 <= d < g.len() && #[trigger] import_resolves_to(g, i, j, g[d].id)
            ==> edges.contains((i as usize, d as usize))
}

/// The pairs (consumer, dependency) of the graph, by module index: the reverse index
/// from each module to the modules that import it.
pub(crate) fn consumer_edges(graph: &Graph) -> (r: Vec<(usize, usize)>)
    requires
        graph.wf(),
    ensures
        edges_exact(graph@, r@),
{
    broadcast use lemma_seq_contains_after_push;
    let ghost g = graph@;
    let n = graph.modules.len();
    let mut edges: Vec<(usize, usize)> = Vec::new();
    let mut p: usize = 0;
    while p < n
        invariant
            n == g.len(),
            g == graph@,
            distinct_ids(g),
            p <= n,
            forall|k: int| 0 <= k < edges.len() ==> #[trigger] edge_at(g, edges[k].0 as int, edges[k].1 as int),
            forall|i: int, j: int, d: int|
                0 <= i < p && 0 <= d < g.len() && #[trigger] import_resolves_to(g, i, j, g[d].id)
                    ==> edges@.contains((i as usize, d as usize)),
        decreases n - p,
    {
        let info = &graph.modules[p];
        assert(info@ == g[p as int]);
        let mut j: usize = 0;
        while j < info.imports.len()
            invariant
                n == g.len(),
                g == graph@,
                distinct_ids(g),
                p < n,
                info@ == g[p as int],
                j <= info.imports@.len(),
                forall|k: int| 0 <= k < edges.len() ==> #[trigger] edge_at(g, edges[k].0 as int, edges[k].1 as int),
                forall|i: int, jj: int, d: int|
                    0 <= i < p && 0 <= d < g.len() && #[trigger] import_resolves_to(g, i, jj, g[d].id)
                        ==> edges@.contains((i as usize, d as usize)),
                forall|jj: int, d: int|
                    0 <= jj < j && 0 <= d < g.len() && #[trigger] import_resolves_to(g, p as int, jj, g[d].id)
                        ==> edges@.contains((p, d as usize)),
            decreases info.imports@.len() - j,
        {
            let imp = &info.imports[j];
            let ghost before = edges@;
            assert(imp@ == g[p as int].imports[j as int]);
            if is_relative_specifier(imp.as_str()) {
                let dep = normalize_path(info.id.as_str(), imp.as_str());
                match graph.find(dep.as_str()) {
                    Some(d) => {
                        assert(import_resolves_to(g, p as int, j as int, g[d as int].id));
                        edges.push((p, d));
                        assert(edges@ == before.push((p, d)));
                        assert(edges@[edges.len() - 1] == (p, d));
                        assert forall|dd: int|
                            0 <= dd < g.len() && #[trigger] import_resolves_to(g, p as int, j as int, g[dd].id)
                                implies edges@.contains((p, dd as usize)) by {
                            assert(g[dd].id == g[d as int].id);
                        }
                        assert forall|x: (usize, usize)| before.contains(x) implies edges@.contains(x) by {
                            lemma_seq_contains_after_push(before, (p, d), x);
                        }
                    },
                    None => {
                        assert forall|dd: int| 0 <= dd < g.len() implies !#[trigger] import_resolves_to(g, p as int, j as int, g[dd].id) by {
                            if import_resolves_to(g, p as int, j as int, g[dd].id) {
                                assert(g[dd].id == dep@);
                            }
                        }
                    },
                }
            }
            j = j + 1;
        }
        p = p + 1;
    }
    edges
}

/// A demand chain extended by one demand step from its last module is again a demand chain.
proof fn lemma_chain_extend(
    g: Seq<ModuleView>,
    e: Seq<char>,
    s: Seq<char>,
    path: Seq<Seq<char>>,
    next: Seq<char>,
)
    requires
        demand_chain(g, e, s, path),
        demand_step(g, s, path.last(), next),
    ensures
        demand_chain(g, e, s, path.push(next)),
        path.push(next).last() == next,
{
    let q = path.push(next);
    assert forall|k: int| 0 <= k < q.len() - 1 implies #[trigger] demand_step(g, s, q[k], q[k + 1]) by {
        assert(q[k] == path[k]);
        if k < path.len() - 1 {
            assert(q[k + 1] == path[k + 1]);
        }
    }
}

/// When a set of modules holds the entry and is closed under demand steps for `s`,
/// it holds every module of `g` that a demand chain for `s` ends at.
proof fn lemma_chain_visited(
    g: Seq<ModuleView>,
    ei: int,
    s: Seq<char>,
    path: Seq<Seq<char>>,
    visited: Seq<bool>,
    edges: Seq<(usize, usize)>,
    m: int,
)
    requires
        distinct_ids(g),
        g.len() <= usize::MAX,
        0 <= ei < g.len(),
        visited.len() == g.len(),
        visited[ei],
        edges_exact(g, edges),
        demand_chain(g, g[ei].id, s, path),
        0 <= m < g.len(),
        g[m].id == path.last(),
        forall|k: int|
            0 <= k < edges.len() && visited[#[trigger] edges[k].0 as int] && g[edges[k].0 as int].used.contains(s)
                ==> visited[edges[k].1 as int],
        forall|k: int|
            0 <= k < edges.len() && visited[#[trigger] edges[k].1 as int] && g[edges[k].1 as int].used.contains(s)
                && g[edges[k].0 as int].used.contains(s) ==> visited[edges[k].0 as int],
    ensures
        visited[m],
    decreases path.len(),
{
    if path.len() == 1 {
        assert(g[ei].id == g[m].id);
    } else {
        let prev = path.drop_last();
        assert forall|k: int| 0 <= k < prev.len() - 1 implies #[trigger] demand_step(g, s, prev[k], prev[k + 1]) by {
            assert(prev[k] == path[k]);
            assert(prev[k + 1] == path[k + 1]);
        }
        let lk = path.len() - 2;
        assert(demand_step(g, s, path[lk], path[lk + 1]));
        let i2 = choose|i2: int| 0 <= i2 < g.len() && g[i2].id == path[lk] && g[i2].used.contains(s);
        assert(prev.last() == path[lk]);
        lemma_chain_visited(g, ei, s, prev, visited, edges, i2);
        if consumes(g, path[lk], path[lk + 1]) {
            let (i, j) = choose|i: int, j: int| g[i].id == path[lk] && #[trigger] import_resolves_to(g, i, j, path[lk + 1]);
            assert(i == i2);
            assert(import_resolves_to(g, i, j, g[m].id));
            assert(edges.contains((i as usize, m as usize)));
            let k = choose|k: int| 0 <= k < edges.len() && edges[k] == (i as usize, m as usize);
            assert(edges[k].0 as int == i);
            assert(edges[k].1 as int == m);
        } else {
            let (i, j) = choose|i: int, j: int| g[i].id == path[lk + 1] && #[trigger] import_resolves_to(g, i, j, path[lk]);
            assert(i == m);
            assert(uses(g, path[lk + 1], s));
            let i3 = choose|i3: int| 0 <= i3 < g.len() && g[i3].id == path[lk + 1] && g[i3].used.contains(s);
            assert(i3 == m);
            assert(import_resolves_to(g, m, j, g[i2].id));
            assert(edges.contains((m as usize, i2 as usize)));
            let k = choose|k: int| 0 <= k < edges.len() && edges[k] == (m as usize, i2 as usize);
            assert(edges[k].0 as int == m);
            assert(edges[k].1 as int == i2);
        }
    }
}

/// Marks module `x` as demanded and queues it.
proof fn lemma_visit_bookkeeping(
    n: int,
    vis: Set<int>,
    x: int,
)
    requires
        0 <= x < n,
        vis.finite(),
        vis.subset_of(set_int_range(0, n)),
    ensures
        vis.insert(x).finite(),
        vis.insert(x).len() <= n,
{
    lemma_int_range(0, n);
    lemma_len_subset(vis.insert(x), set_int_range(0, n));
}

/// For one symbol `sym` that the entry mentions: which modules it is demanded at.
fn demand_closure(graph: &Graph, edges: &Vec<(usize, usize)>, ei: usize, sym: &String) -> (r: Vec<bool>)
    requires
        graph.wf(),
        edges_exact(graph@, edges@),
        ei < graph@.len(),
        graph@[ei as int].used.contains(sym@),
    ensures
        r@.len() == graph@.len(),
        forall|m: int| 0 <= m < graph@.len() ==> (r@[m] <==> demanded(graph@, graph@[ei as int].id, graph@[m].id, sym@)),
{
    broadcast use lemma_seq_contains_after_push;
    let ghost g = graph@;
    let ghost e = g[ei as int].id;
    let ghost s = sym@;
    let n = graph.modules.len();
    let mut visited: Vec<bool> = Vec::new();
    let mut i: usize = 0;
    while i < n
        invariant
            i <= n,
            visited@.len() == i,
            forall|k: int| 0 <= k < i ==> !visited@[k],
        decreases n - i,
    {
        visited.push(false);
        i = i + 1;
    }
    visited.set(ei, true);
    let mut stack: Vec<usize> = Vec::new();
    stack.push(ei);
    proof {
        let path = seq![e];
        assert(demand_chain(g, e, s, path));
        assert(path.last() == e);
        assert forall|k: int| 0 <= k < edges.len() && visited@[#[trigger] edges@[k].0 as int] implies stack@.contains(edges@[k].0) by {
            assert(edge_at(g, edges@[k].0 as int, edges@[k].1 as int));
            assert(edges@[k].0 == ei);
            assert(stack@[0] == ei);
        }
        assert forall|k: int| 0 <= k < edges.len() && visited@[#[trigger] edges@[k].1 as int] implies stack@.contains(edges@[k].1) by {
            assert(edge_at(g, edges@[k].0 as int, edges@[k].1 as int));
            assert(edges@[k].1 == ei);
            assert(stack@[0] == ei);
        }
    }
    let ghost mut vis: Set<int> = set![ei as int];
    proof {
        assert(vis =~= Set::new(|m: int| 0 <= m < n && visited@[m]));
        lemma_int_range(0, n as int);
        lemma_len_subset(vis, set_int_range(0, n as int));
    }
    while stack.len() > 0
        invariant
            g == graph@,
            n == g.len(),
            distinct_ids(g),
            edges_exact(g, edges@),
            ei < n,
            e == g[ei as int].id,
            s == sym@,
            visited@.len() == n,
            visited@[ei as int],
            vis == Set::new(|m: int| 0 <= m < n && visited@[m]),
            vis.finite(),
            vis.len() <= n,
            forall|k: int| 0 <= k < stack.len() ==> #[trigger] stack@[k] < n && visited@[stack@[k] as int],
            forall|a: int, b: int| 0 <= a < b < stack.len() ==> stack@[a] != stack@[b],
            forall|m: int| 0 <= m < n && visited@[m] ==> demanded(g, e, g[m].id, s),
            forall|k: int|
                0 <= k < edges.len() && visited@[#[trigger] edges@[k].0 as int] && !stack@.contains(edges@[k].0)
                    && g[edges@[k].0 as int].used.contains(s) ==> visited@[edges@[k].1 as int],
            forall|k: int|
                0 <= k < edges.len() && visited@[#[trigger] edges@[k].1 as int] && !stack@.contains(edges@[k].1)
                    && g[edges@[k].1 as int].used.contains(s) && g[edges@[k].0 as int].used.contains(s)
                    ==> visited@[edges@[k].0 as int],
        decreases n - vis.len() + stack.len(),
    {
        let ghost old_stack = stack@;
        let ghost vis0 = vis;
        let m = stack.pop().unwrap();
        proof {
            assert(old_stack =~= stack@.push(m));
            assert forall|x: usize| stack@.contains(x) implies x != m by {
                let a = choose|a: int| 0 <= a < stack@.len() && stack@[a] == x;
                assert(old_stack[a] == x);
            }
        }
        let mentions = graph.modules[m].uses_name(sym);
        assert(graph.modules@[m as int]@ == g[m as int]);
        let mut k: usize = 0;
        while mentions && k < edges.len()
            invariant
                g == graph@,
                n == g.len(),
                distinct_ids(g),
                edges_exact(g, edges@),
                ei < n,
                e == g[ei as int].id,
                s == sym@,
                m < n,
                mentions == g[m as int].used.contains(s),
                visited@[m as int],
                !stack@.contains(m),
                k <= edges.len(),
                visited@.len() == n,
                visited@[ei as int],
                vis == Set::new(|m: int| 0 <= m < n && visited@[m]),
                vis.finite(),
                vis.len() <= n,
                vis.len() as int - stack.len() as int == vis0.len() as int - old_stack.len() as int + 1,
                forall|k: int| 0 <= k < stack.len() ==> #[trigger] stack@[k] < n && visited@[stack@[k] as int],
                forall|a: int, b: int| 0 <= a < b < stack.len() ==> stack@[a] != stack@[b],
                forall|m: int| 0 <= m < n && visited@[m] ==> demanded(g, e, g[m].id, s),
                forall|k: int|
                    0 <= k < edges.len() && visited@[#[trigger] edges@[k].0 as int] && edges@[k].0 != m
                        && !stack@.contains(edges@[k].0) && g[edges@[k].0 as int].used.contains(s)
                        ==> visited@[edges@[k].1 as int],
                forall|k: int|
                    0 <= k < edges.len() && visited@[#[trigger] edges@[k].1 as int] && edges@[k].1 != m
                        && !stack@.contains(edges@[k].1) && g[edges@[k].1 as int].used.contains(s)
                        && g[edges@[k].0 as int].used.contains(s) ==> visited@[edges@[k].0 as int],
                forall|kk: int| 0 <= kk < k && #[trigger] edges@[kk].0 == m ==> visited@[edges@[kk].1 as int],
                forall|kk: int|
                    0 <= kk < k && #[trigger] edges@[kk].1 == m && g[edges@[kk].0 as int].used.contains(s)
                        ==> visited@[edges@[kk].0 as int],
            decreases edges.len() - k,
        {
            let (p, d) = edges[k];
            let ghost start_visited = visited@;
            assert(edge_at(g, p as int, d as int));
            let mut target: usize = n;
            if d == m && !visited[p] && graph.modules[p].uses_name(sym) {
                proof {
                    let path = choose|path: Seq<Seq<char>>| #[trigger] demand_chain(g, e, s, path) && path.last() == g[m as int].id;
                    let j = choose|j: int| #[trigger] import_resolves_to(g, p as int, j, g[m as int].id);
                    assert(uses(g, g[p as int].id, s));
                    assert(uses(g, g[m as int].id, s));
                    assert(consumes(g, g[p as int].id, path.last()));
                    assert(demand_step(g, s, path.last(), g[p as int].id));
                    lemma_chain_extend(g, e, s, path, g[p as int].id);
                }
                target = p;
            } else if p == m && !visited[d] {
                proof {
                    let path = choose|path: Seq<Seq<char>>| #[trigger] demand_chain(g, e, s, path) && path.last() == g[m as int].id;
                    let j = choose|j: int| #[trigger] import_resolves_to(g, p as int, j, g[d as int].id);
                    assert(uses(g, g[m as int].id, s));
                    assert(consumes(g, path.last(), g[d as int].id));
                    assert(demand_step(g, s, path.last(), g[d as int].id));
                    lemma_chain_extend(g, e, s, path, g[d as int].id);
                }
                target = d;
            }
            if target < n {
                let ghost old_vis = vis;
                let ghost before = stack@;
                let ghost old_visited = visited@;
                visited.set(target, true);
                stack.push(target);
                proof {
                    assert(vis.subset_of(set_int_range(0, n as int)));
                    lemma_visit_bookkeeping(n as int, vis, target as int);
                    vis = vis.insert(target as int);
                    assert(vis =~= Set::new(|m: int| 0 <= m < n && visited@[m]));
                    assert(!old_vis.contains(target as int));
                    assert(stack@ == before.push(target));
                    assert(visited@ == old_visited.update(target as int, true));
                    assert forall|x: usize| stack@.contains(x) && x != target implies before.contains(x) by {
                        lemma_seq_contains_after_push(before, target, x);
                    }
                    assert forall|x: usize| before.contains(x) implies stack@.contains(x) by {
                        lemma_seq_contains_after_push(before, target, x);
                    }
                    assert(stack@.contains(target)) by {
                        lemma_seq_contains_after_push(before, target, target);
                    }
                    assert forall|kk: int|
                        0 <= kk < edges.len() && visited@[#[trigger] edges@[kk].0 as int] && edges@[kk].0 != m
                            && !stack@.contains(edges@[kk].0) && g[edges@[kk].0 as int].used.contains(s)
                            implies visited@[edges@[kk].1 as int] by {
                        assert(edge_at(g, edges@[kk].0 as int, edges@[kk].1 as int));
                        assert(edges@[kk].0 != target);
                        assert(old_visited[edges@[kk].0 as int]);
                        assert(!before.contains(edges@[kk].0));
                    }
                    assert forall|kk: int|
                        0 <= kk < edges.len() && visited@[#[trigger] edges@[kk].1 as int] && edges@[kk].1 != m
                            && !stack@.contains(edges@[kk].1) && g[edges@[kk].1 as int].used.contains(s)
                            && g[edges@[kk].0 as int].used.contains(s) implies visited@[edges@[kk].0 as int] by {
                        assert(edge_at(g, edges@[kk].0 as int, edges@[kk].1 as int));
                        assert(edges@[kk].1 != target);
                        assert(old_visited[edges@[kk].1 as int]);
                        assert(!before.contains(edges@[kk].1));
                    }
                }
            }
            proof {
                assert forall|kk: int| 0 <= kk < k + 1 && #[trigger] edges@[kk].0 == m implies visited@[edges@[kk].1 as int] by {
                    assert(edge_at(g, edges@[kk].0 as int, edges@[kk].1 as int));
                    if kk < k {
                        assert(start_visited[edges@[kk].1 as int]);
                    }
                }
                assert forall|kk: int|
                    0 <= kk < k + 1 && #[trigger] edges@[kk].1 == m && g[edges@[kk].0 as int].used.contains(s)
                        implies visited@[edges@[kk].0 as int] by {
                    assert(edge_at(g, edges@[kk].0 as int, edges@[kk].1 as int));
                    if kk < k {
                        assert(start_visited[edges@[kk].0 as int]);
                    }
                }
            }
            k = k + 1;
        }
    }
    proof {
        assert forall|m: int| 0 <= m < n implies (visited@[m] <==> demanded(g, e, g[m].id, s)) by {
            if demanded(g, e, g[m].id, s) {
                let path = choose|path: Seq<Seq<char>>| #[trigger] demand_chain(g, e, s, path) && path.last() == g[m].id;
                lemma_chain_visited(g, ei as int, s, path, visited@, edges@, m);
            }
        }
    }
    visited
}

/// The names among the first `t` strings of `v`.
pub open spec fn prefix_names(v: Seq<String>, t: int) -> Set<Seq<char>> {
    Set::new(|x: Seq<char>| exists|u: int| 0 <= u < t && v[u]@ == x)
}

/// The keys of the exports that are demanded for one of the symbols `syms`.
pub open spec fn demanded_keys(g: Seq<ModuleView>, e: Seq<char>, syms: Set<Seq<char>>) -> Set<Seq<char>> {
    Set::new(
        |k: Seq<char>|
            exists|m: Seq<char>, s: Seq<char>|
                syms.contains(s) && demanded(g, e, m, s) && exports(g, m, s) && k == symbol_key(m, s),
    )
}

/// The text `<m>::<s>`.
fn make_key(m: &String, s: &String) -> (r: String)
    ensures
        r@ == symbol_key(m@, s@),
{
    let mut r = m.clone();
    let sep = "::";
    proof {
        reveal_strlit("::");
        assert(sep@ =~= seq![':', ':']);
    }
    r.append(sep);
    r.append(s.as_str());
    r
}

/// Adds `k` to `keep` unless it is there already.
pub(crate) fn insert_unique(keep: &mut Vec<String>, k: String)
    requires
        distinct_strs(old(keep)@),
    ensures
        distinct_strs(final(keep)@),
        str_set(final(keep)@) == str_set(old(keep)@).insert(k@),
{
    let ghost before = keep@;
    if !contains_str(keep, &k) {
        keep.push(k);
        proof {
            assert forall|x: Seq<char>| #[trigger] str_set(keep@).contains(x) == str_set(before).insert(k@).contains(x) by {
                if str_set(before).contains(x) {
                    let i = choose|i: int| 0 <= i < before.len() && before[i]@ == x;
                    assert(keep@[i]@ == x);
                }
                if x == k@ {
                    assert(keep@[before.len() as int]@ == x);
                }
            }
            assert(str_set(keep@) =~= str_set(before).insert(k@));
        }
    } else {
        assert(str_set(keep@) =~= str_set(before).insert(k@));
    }
}

/// The module at index `ei` mentions every symbol that is demanded anywhere from it.
proof fn lemma_demanded_symbol_used(g: Seq<ModuleView>, ei: int, m: Seq<char>, s: Seq<char>)
    requires
        distinct_ids(g),
        0 <= ei < g.len(),
        demanded(g, g[ei].id, m, s),
        m != g[ei].id,
    ensures
        g[ei].used.contains(s),
{
    let path = choose|path: Seq<Seq<char>>| #[trigger] demand_chain(g, g[ei].id, s, path) && path.last() == m;
    let z: int = 0;
    assert(demand_step(g, s, path[z], path[z + 1]));
    let i = choose|i: int| 0 <= i < g.len() && g[i].id == path[0] && g[i].used.contains(s);
    assert(i == ei);
}

/// Tree shaking: the keys `<module>::<name>` of the exports that must be kept when
/// `entry` is the entry module. An export is kept when a demand chain carries the
/// name from the entry to its module: the demand for a name the entry mentions flows
/// into the modules it imports, on through each module that mentions the name, and
/// back to importers that mention it. Every export of the entry is kept.
pub fn tree_shake(graph: &Graph, entry: &str) -> (r: Vec<String>)
    requires
        graph.wf(),
    ensures
        distinct_strs(r@),
        str_set(r@) == kept_keys(graph@, entry@),
{
    let ghost g = graph@;
    let ghost e = entry@;
    let mut keep: Vec<String> = Vec::new();
    let found = graph.find(entry);
    if found.is_none() {
        proof {
            assert forall|k: Seq<char>| !#[trigger] kept_keys(g, e).contains(k) by {
                if kept_keys(g, e).contains(k) {
                    let (m, s) = choose|m: Seq<char>, s: Seq<char>| kept(g, e, m, s) && k == symbol_key(m, s);
                    if m != e {
                        let path = choose|path: Seq<Seq<char>>| #[trigger] demand_chain(g, e, s, path) && path.last() == m;
                        let z: int = 0;
                        assert(demand_step(g, s, path[z], path[z + 1]));
                    }
                }
            }
            assert(str_set(keep@) =~= kept_keys(g, e));
        }
        return keep;
    }
    let ei = found.unwrap();
    let edges = consumer_edges(graph);
    let info = &graph.modules[ei];
    assert(info@ == g[ei as int]);
    let mut t: usize = 0;
    proof {
        assert(str_set(keep@) =~= demanded_keys(g, e, prefix_names(info.used_symbols@, 0)));
    }
    while t < info.used_symbols.len()
        invariant
            g == graph@,
            distinct_ids(g),
            e == entry@,
            ei < g.len(),
            g[ei as int].id == e,
            info@ == g[ei as int],
            edges_exact(g, edges@),
            t <= info.used_symbols@.len(),
            distinct_strs(keep@),
            str_set(keep@) == demanded_keys(g, e, prefix_names(info.used_symbols@, t as int)),
        decreases info.used_symbols@.len() - t,
    {
        let sym = &info.used_symbols[t];
        assert(g[ei as int].used.contains(sym@));
        let closure = demand_closure(graph, &edges, ei, sym);
        let ghost base = str_set(keep@);
        let mut mi: usize = 0;
        while mi < graph.modules.len()
            invariant
                g == graph@,
                distinct_ids(g),
                e == g[ei as int].id,
                ei < g.len(),
                closure@.len() == g.len(),
                forall|m: int| 0 <= m < g.len() ==> (closure@[m] <==> demanded(g, e, g[m].id, sym@)),
                mi <= g.len(),
                distinct_strs(keep@),
                str_set(keep@) == base + Set::new(
                    |k: Seq<char>|
                        exists|mm: int|
                            0 <= mm < mi && closure@[mm] && g[mm].exports.contains(sym@) && k == symbol_key(g[mm].id, sym@),
                ),
            decreases g.len() - mi,
        {
            let ghost before = str_set(keep@);
            let md = &graph.modules[mi];
            assert(md@ == g[mi as int]);
            if closure[mi] && md.exports_name(sym) {
                let key = make_key(&md.id, sym);
                insert_unique(&mut keep, key);
            }
            proof {
                assert(str_set(keep@) =~= base + Set::new(
                    |k: Seq<char>|
                        exists|mm: int|
                            0 <= mm < mi + 1 && closure@[mm] && g[mm].exports.contains(sym@) && k == symbol_key(g[mm].id, sym@),
                ));
            }
            mi = mi + 1;
        }
        proof {
            let syms = prefix_names(info.used_symbols@, t as int);
            let syms2 = prefix_names(info.used_symbols@, t as int + 1);
            assert forall|k: Seq<char>| #[trigger] str_set(keep@).contains(k) == demanded_keys(g, e, syms2).contains(k) by {
                if demanded_keys(g, e, syms2).contains(k) {
                    let (m, s) = choose|m: Seq<char>, s: Seq<char>|
                        syms2.contains(s) && demanded(g, e, m, s) && exports(g, m, s) && k == symbol_key(m, s);
                    let u = choose|u: int| 0 <= u < t + 1 && info.used_symbols@[u]@ == s;
                    if u < t {
                        assert(syms.contains(s));
                        assert(demanded_keys(g, e, syms).contains(k));
                    } else {
                        let mm = choose|mm: int| 0 <= mm < g.len() && g[mm].id == m && g[mm].exports.contains(s);
                        assert(closure@[mm]);
                    }
                }
                if str_set(keep@).contains(k) && !base.contains(k) {
                    let mm = choose|mm: int|
                        0 <= mm < g.len() && closure@[mm] && g[mm].exports.contains(sym@) && k == symbol_key(g[mm].id, sym@);
                    assert(syms2.contains(sym@));
                    assert(exports(g, g[mm].id, sym@));
                }
                if base.contains(k) {
                    let (m, s) = choose|m: Seq<char>, s: Seq<char>|
                        syms.contains(s) && demanded(g, e, m, s) && exports(g, m, s) && k == symbol_key(m, s);
                    let u = choose|u: int| 0 <= u < t && info.used_symbols@[u]@ == s;
                    assert(syms2.contains(s));
                }
            }
            assert(str_set(keep@) =~= demanded_keys(g, e, syms2));
        }
        t = t + 1;
    }
    let ghost demanded_part = str_set(keep@);
    let mut x: usize = 0;
    while x < info.exports.len()
        invariant
            g == graph@,
            distinct_ids(g),
            e == entry@,
            ei < g.len(),
            g[ei as int].id == e,
            info@ == g[ei as int],
            x <= info.exports@.len(),
            distinct_strs(keep@),
            str_set(keep@) == demanded_part + Set::new(
                |k: Seq<char>| exists|xx: int| 0 <= xx < x && k == symbol_key(e, info.exports@[xx]@),
            ),
        decreases info.exports@.len() - x,
    {
        let key = make_key(&info.id, &info.exports[x]);
        insert_unique(&mut keep, key);
        proof {
            assert(str_set(keep@) =~= demanded_part + Set::new(
                |k: Seq<char>| exists|xx: int| 0 <= xx < x + 1 && k == symbol_key(e, info.exports@[xx]@),
            ));
        }
        x = x + 1;
    }
    proof {
        let all = prefix_names(info.used_symbols@, info.used_symbols@.len() as int);
        assert forall|k: Seq<char>| #[trigger] str_set(keep@).contains(k) == kept_keys(g, e).contains(k) by {
            if kept_keys(g, e).contains(k) {
                let (m, s) = choose|m: Seq<char>, s: Seq<char>| kept(g, e, m, s) && k == symbol_key(m, s);
                if demanded(g, e, m, s) && m != e {
                    lemma_demanded_symbol_used(g, ei as int, m, s);
                    let u = choose|u: int| 0 <= u < info.used_symbols@.len() && info.used_symbols@[u]@ == s;
                    assert(all.contains(s));
                    assert(demanded_part.contains(k));
                } else {
                    let i = choose|i: int| 0 <= i < g.len() && g[i].id == m && g[i].exports.contains(s);
                    assert(i == ei);
                    let xx = choose|xx: int| 0 <= xx < info.exports@.len() && info.exports@[xx]@ == s;
                    assert(k == symbol_key(e, info.exports@[xx]@));
                }
            }
            if str_set(keep@).contains(k) {
                if demanded_part.contains(k) {
                    let (m, s) = choose|m: Seq<char>, s: Seq<char>|
                        all.contains(s) && demanded(g, e, m, s) && exports(g, m, s) && k == symbol_key(m, s);
                    assert(kept(g, e, m, s));
                } else {
                    let xx = choose|xx: int| 0 <= xx < info.exports@.len() && k == symbol_key(e, info.exports@[xx]@);
                    let s = info.exports@[xx]@;
                    assert(g[ei as int].exports.contains(s));
                    assert(exports(g, e, s));
                    assert(kept(g, e, e, s));
                }
            }
        }
        assert(str_set(keep@) =~= kept_keys(g, e));
    }
    keep
}

/// Every export of the entry module is kept, whether or not anything mentions it.
pub proof fn lemma_entry_surface_kept(g: Seq<ModuleView>, e: Seq<char>, name: Seq<char>)
    requires
        exports(g, e, name),
    ensures
        kept(g, e, e, name),
        kept_keys(g, e).contains(symbol_key(e, name)),
{
}

/// A name that the entry module neither mentions nor exports is kept for no module,
/// even where some module exports it.
pub proof fn lemma_unrelated_name_dropped(g: Seq<ModuleView>, e: Seq<char>, y: Seq<char>, m: Seq<char>)
    requires
        !uses(g, e, y),
        !exports(g, e, y),
    ensures
        !kept(g, e, m, y),
{
    if demanded(g, e, m, y) && m != e {
        let path = choose|path: Seq<Seq<char>>| #[trigger] demand_chain(g, e, y, path) && path.last() == m;
        let z: int = 0;
        assert(demand_step(g, y, path[z], path[z + 1]));
    }
}

/// Keys of names free of `:` tell their module and name apart.
proof fn lemma_key_parts(m1: Seq<char>, s1: Seq<char>, m2: Seq<char>, s2: Seq<char>)
    requires
        !s1.contains(':'),
        !s2.contains(':'),
        symbol_key(m1, s1) == symbol_key(m2, s2),
    ensures
        m1 == m2,
        s1 == s2,
{
    let k = symbol_key(m1, s1);
    let k2 = symbol_key(m2, s2);
    assert(k.len() == m1.len() + 2 + s1.len());
    assert(k2.len() == m2.len() + 2 + s2.len());
    if s1.len() < s2.len() {
        let t = k.len() - s1.len() - 1;
        assert(k[t] == ':');
        assert(k2[t] == s2[s2.len() - s1.len() - 1]);
    } else if s2.len() < s1.len() {
        let t = k.len() - s2.len() - 1;
        assert(k2[t] == ':');
        assert(k[t] == s1[s1.len() - s2.len() - 1]);
    }
    assert(s1 =~= k.subrange(k.len() - s1.len(), k.len() as int));
    assert(s2 =~= k2.subrange(k2.len() - s2.len(), k2.len() as int));
    assert(m1 =~= k.subrange(0, m1.len() as int));
    assert(m2 =~= k2.subrange(0, m2.len() as int));
}

/// When no exported name holds `:`, a name `y` (free of `:`) that the entry module
/// neither mentions nor exports is the name of no kept key: no `<module>::y` is kept.
pub proof fn lemma_unrelated_name_not_in_keys(g: Seq<ModuleView>, e: Seq<char>, y: Seq<char>, m: Seq<char>)
    requires
        !uses(g, e, y),
        !exports(g, e, y),
        !y.contains(':'),
        forall|i: int, s: Seq<char>| 0 <= i < g.len() && #[trigger] g[i].exports.contains(s) ==> !s.contains(':'),
    ensures
        !kept_keys(g, e).contains(symbol_key(m, y)),
{
    if kept_keys(g, e).contains(symbol_key(m, y)) {
        let (m1, s1) = choose|m1: Seq<char>, s1: Seq<char>| kept(g, e, m1, s1) && symbol_key(m, y) == symbol_key(m1, s1);
        let i = choose|i: int| 0 <= i < g.len() && g[i].id == m1 && g[i].exports.contains(s1);
        lemma_key_parts(m1, s1, m, y);
        lemma_unrelated_name_dropped(g, e, y, m);
    }
}

/// Demand passes on through imports: when `e` imports `f` and `f` imports `h`, `e`
/// mentions `x`, `f` exports and mentions `x`, and `h` exports `x`, the exports `x` of
/// both `f` and `h` are kept.
pub proof fn lemma_transitive_propagation(
    g: Seq<ModuleView>,
    e: Seq<char>,
    f: Seq<char>,
    h: Seq<char>,
    x: Seq<char>,
)
    requires
        consumes(g, e, f),
        consumes(g, f, h),
        uses(g, e, x),
        uses(g, f, x),
        exports(g, f, x),
        exports(g, h, x),
    ensures
        kept(g, e, f, x),
        kept(g, e, h, x),
        kept_keys(g, e).contains(symbol_key(f, x)),
        kept_keys(g, e).contains(symbol_key(h, x)),
{
    let p1 = seq![e];
    assert(demand_chain(g, e, x, p1));
    assert(demand_step(g, x, p1.last(), f));
    lemma_chain_extend(g, e, x, p1, f);
    let p2 = p1.push(f);
    assert(demand_step(g, x, p2.last(), h));
    lemma_chain_extend(g, e, x, p2, h);
    assert(demanded(g, e, f, x));
    assert(demanded(g, e, h, x));
    assert(kept(g, e, f, x));
    assert(kept(g, e, h, x));
}

} // verus!
