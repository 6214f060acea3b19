use vstd::prelude::*;
use vstd::set_lib::*;
use vstd::seq_lib::lemma_seq_contains_after_push;
use crate::graph::{Graph, consumes, distinct_ids, has_module, import_resolves_to};
use crate::module::{ModuleView, str_set};
use crate::path::{is_relative_specifier, normalize_path};
use crate::shake::{consumer_edges, distinct_strs, edge_at, edges_exact, insert_unique};

verus! {

/// A chain of relative imports from `e`: each module on it imports the next one.
pub open spec fn import_chain(g: Seq<ModuleView>, e: Seq<char>, path: Seq<Seq<char>>) -> bool {
    &&& path.len() > 0
    &&& path[0] == e
    &&& forall|k: int| 0 <= k < path.len() - 1 ==> #[trigger] consumes(g, path[k], path[k + 1])
}

/// Module id `x` is reached from `e` by following relative imports.
pub open spec fn reaches(g: Seq<ModuleView>, e: Seq<char>, x: Seq<char>) -> bool {
    exists|path: Seq<Seq<char>>| #[trigger] import_chain(g, e, path) && path.last() == x
}

proof fn lemma_import_chain_extend(g: Seq<ModuleView>, e: Seq<char>, path: Seq<Seq<char>>, next: Seq<char>)
    requires
        import_chain(g, e, path),
        consumes(g, path.last(), next),
    ensures
        import_chain(g, e, path.push(next)),
        path.push(next).last() == next,
{
    let q = path.push(next);
    assert forall|k: int| 0 <= k < q.len() - 1 implies #[trigger] consumes(g, q[k], q[k + 1]) by {
        assert(q[k] == path[k]);
        if k < path.len() - 1 {
            assert(q[k + 1] == path[k + 1]);
        }
    }
}

/// The last step of an import chain of two or more modules starts at a module of `g`
/// reached from `e`.
proof fn lemma_import_chain_last_step(g: Seq<ModuleView>, e: Seq<char>, path: Seq<Seq<char>>)
    requires
        import_chain(g, e, path),
        path.len() > 1,
    ensures
        reaches(g, e, path[path.len() - 2]),
        consumes(g, path[path.len() - 2], path.last()),
{
    let prev = path.drop_last();
    assert forall|k: int| 0 <= k < prev.len() - 1 implies #[trigger] consumes(g, prev[k], prev[k + 1]) by {
        assert(prev[k] == path[k]);
        assert(prev[k + 1] == path[k + 1]);
    }
    assert(import_chain(g, e, prev));
    let lk = path.len() - 2;
    assert(consumes(g, path[lk], path[lk + 1]));
    assert(prev.last() == path[lk]);
}

/// When a set of modules holds the entry and every module that one of its modules
/// imports, it holds every module of `g` that an import chain from the entry ends at.
proof fn lemma_import_chain_visited(
    g: Seq<ModuleView>,
    ei: int,
    path: Seq<Seq<char>>,
    visited: Seq<bool>,
    edges: Seq<(usize, usize)>,
    m: int,
)
    requires
        distinct_ids(g),
        g.len() <= usize::MAX,
        0 <= ei < g.len(),
        visited.len() == g.len(),
        visited[ei],
        edges_exact(g, edges),
        import_chain(g, g[ei].id, path),
        0 <= m < g.len(),
        g[m].id == path.last(),
        forall|k: int| 0 <= k < edges.len() && visited[#[trigger] edges[k].0 as int] ==> visited[edges[k].1 as int],
    ensures
        visited[m],
    decreases path.len(),
{
    if path.len() == 1 {
        assert(g[ei].id == g[m].id);
    } else {
        let prev = path.drop_last();
        assert forall|k: int| 0 <= k < prev.len() - 1 implies #[trigger] consumes(g, prev[k], prev[k + 1]) by {
            assert(prev[k] == path[k]);
            assert(prev[k + 1] == path[k + 1]);
        }
        let lk = path.len() - 2;
        assert(consumes(g, path[lk], path[lk + 1]));
        let (i, j) = choose|i: int, j: int| g[i].id == path[lk] && #[trigger] import_resolves_to(g, i, j, path[lk + 1]);
        lemma_import_chain_visited(g, ei, prev, visited, edges, i);
        assert(import_resolves_to(g, i, j, g[m].id));
        assert(edges.contains((i as usize, m as usize)));
        let k = choose|k: int| 0 <= k < edges.len() && edges[k] == (i as usize, m as usize);
        assert(edges[k].0 as int == i);
        assert(edges[k].1 as int == m);
    }
}

/// The modules of `g` reached from the module at index `ei`, as flags by index.
fn forward_closure(graph: &Graph, edges: &Vec<(usize, usize)>, ei: usize) -> (r: Vec<bool>)
    requires
        graph.wf(),
        edges_exact(graph@, edges@),
        ei < graph@.len(),
    ensures
        r@.len() == graph@.len(),
        forall|m: int| 0 <= m < graph@.len() ==> (r@[m] <==> reaches(graph@, graph@[ei as int].id, graph@[m].id)),
{
    broadcast use lemma_seq_contains_after_push;
    let ghost g = graph@;
    let ghost e = g[ei as int].id;
    let n = graph.modules.len();
    let mut visited: Vec<bool> = Vec::new();
    let mut i: usize = 0;
    while i < n
        invariant
            i <= n,
            visited@.len() == i,
            forall|k: int| 0 <= k < i ==> !visited@[k],
        decreases n - i,
    {
        visited.push(false);
        i = i + 1;
    }
    visited.set(ei, true);
    let mut stack: Vec<usize> = Vec::new();
    stack.push(ei);
    proof {
        let path = seq![e];
        assert(import_chain(g, e, path));
        assert(path.last() == e);
        assert forall|k: int| 0 <= k < edges.len() && visited@[#[trigger] edges@[k].0 as int] implies stack@.contains(edges@[k].0) by {
            assert(edge_at(g, edges@[k].0 as int, edges@[k].1 as int));
            assert(edges@[k].0 == ei);
            assert(stack@[0] == ei);
        }
    }
    let ghost mut vis: Set<int> = set![ei as int];
    proof {
        assert(vis =~= Set::new(|m: int| 0 <= m < n && visited@[m]));
        lemma_int_range(0, n as int);
        lemma_len_subset(vis, set_int_range(0, n as int));
    }
    while stack.len() > 0
        invariant
            g == graph@,
            n == g.len(),
            distinct_ids(g),
            edges_exact(g, edges@),
            ei < n,
            e == g[ei as int].id,
            visited@.len() == n,
            visited@[ei as int],
            vis == Set::new(|m: int| 0 <= m < n && visited@[m]),
            vis.finite(),
            vis.len() <= n,
            forall|k: int| 0 <= k < stack.len() ==> #[trigger] stack@[k] < n && visited@[stack@[k] as int],
            forall|a: int, b: int| 0 <= a < b < stack.len() ==> stack@[a] != stack@[b],
            forall|m: int| 0 <= m < n && visited@[m] ==> reaches(g, e, g[m].id),
            forall|k: int|
                0 <= k < edges.len() && visited@[#[trigger] edges@[k].0 as int] && !stack@.contains(edges@[k].0)
                    ==> visited@[edges@[k].1 as int],
        decreases n - vis.len() + stack.len(),
    {
        let ghost old_stack = stack@;
        let ghost vis0 = vis;
        let m = stack.pop().unwrap();
        proof {
            assert(old_stack =~= stack@.push(m));
            assert forall|x: usize| stack@.contains(x) implies x != m by {
                let a = choose|a: int| 0 <= a < stack@.len() && stack@[a] == x;
                assert(old_stack[a] == x);
            }
        }
        let mut k: usize = 0;
        while k < edges.len()
            invariant
                g == graph@,
                n == g.len(),
                distinct_ids(g),
                edges_exact(g, edges@),
                ei < n,
                e == g[ei as int].id,
                m < n,
                visited@[m as int],
                !stack@.contains(m),
                k <= edges.len(),
                visited@.len() == n,
                visited@[ei as int],
                vis == Set::new(|m: int| 0 <= m < n && visited@[m]),
                vis.finite(),
                vis.len() <= n,
                vis.len() as int - stack.len() as int == vis0.len() as int - old_stack.len() as int + 1,
                forall|k: int| 0 <= k < stack.len() ==> #[trigger] stack@[k] < n && visited@[stack@[k] as int],
                forall|a: int, b: int| 0 <= a < b < stack.len() ==> stack@[a] != stack@[b],
                forall|m: int| 0 <= m < n && visited@[m] ==> reaches(g, e, g[m].id),
                forall|k: int|
                    0 <= k < edges.len() && visited@[#[trigger] edges@[k].0 as int] && edges@[k].0 != m
                        && !stack@.contains(edges@[k].0) ==> visited@[edges@[k].1 as int],
                forall|kk: int| 0 <= kk < k && #[trigger] edges@[kk].0 == m ==> visited@[edges@[kk].1 as int],
            decreases edges.len() - k,
        {
            let (p, d) = edges[k];
            let ghost start_visited = visited@;
            assert(edge_at(g, p as int, d as int));
            if p == m && !visited[d] {
                proof {
                    let path = choose|path: Seq<Seq<char>>| #[trigger] import_chain(g, e, path) && path.last() == g[m as int].id;
                    let j = choose|j: int| #[trigger] import_resolves_to(g, p as int, j, g[d as int].id);
                    assert(consumes(g, path.last(), g[d as int].id));
                    lemma_import_chain_extend(g, e, path, g[d as int].id);
                }
                let ghost old_vis = vis;
                let ghost before = stack@;
                let ghost old_visited = visited@;
                visited.set(d, true);
                stack.push(d);
                proof {
                    vis = vis.insert(d as int);
                    assert(vis =~= Set::new(|m: int| 0 <= m < n && visited@[m]));
                    assert(!old_vis.contains(d as int));
                    lemma_int_range(0, n as int);
                    lemma_len_subset(vis, set_int_range(0, n as int));
                    assert(stack@ == before.push(d));
                    assert(visited@ == old_visited.update(d as int, true));
                    assert forall|x: usize| stack@.contains(x) && x != d implies before.contains(x) by {
                        lemma_seq_contains_after_push(before, d, x);
                    }
                    assert forall|x: usize| before.contains(x) implies stack@.contains(x) by {
                        lemma_seq_contains_after_push(before, d, x);
                    }
                    assert(stack@.contains(d)) by {
                        lemma_seq_contains_after_push(before, d, d);
                    }
                    assert forall|kk: int|
                        0 <= kk < edges.len() && visited@[#[trigger] edges@[kk].0 as int] && edges@[kk].0 != m
                            && !stack@.contains(edges@[kk].0) implies visited@[edges@[kk].1 as int] by {
                        assert(edge_at(g, edges@[kk].0 as int, edges@[kk].1 as int));
                        assert(edges@[kk].0 != d);
                        assert(old_visited[edges@[kk].0 as int]);
                        assert(!before.contains(edges@[kk].0));
                    }
                }
            }
            proof {
                assert forall|kk: int| 0 <= kk < k + 1 && #[trigger] edges@[kk].0 == m implies visited@[edges@[kk].1 as int] by {
                    assert(edge_at(g, edges@[kk].0 as int, edges@[kk].1 as int));
                    if kk < k {
                        assert(start_visited[edges@[kk].1 as int]);
                    }
                }
            }
            k = k + 1;
        }
    }
    proof {
        assert forall|m: int| 0 <= m < n implies (visited@[m] <==> reaches(g, e, g[m].id)) by {
            if reaches(g, e, g[m].id) {
                let path = choose|path: Seq<Seq<char>>| #[trigger] import_chain(g, e, path) && path.last() == g[m].id;
                lemma_import_chain_visited(g, ei as int, path, visited@, edges@, m);
            }
        }
    }
    visited
}

/// The ids reached from the module at index `mm` in one step or none: its own id and
/// the ids its relative imports resolve to.
pub open spec fn one_step_ids(g: Seq<ModuleView>, mm: int) -> Set<Seq<char>> {
    Set::new(|x: Seq<char>| x == g[mm].id || exists|j: int| #[trigger] import_resolves_to(g, mm, j, x))
}

/// Module reachability: the ids of every module reached from `entry` by following
/// relative imports, `entry` included, each once. An id that a reached module imports
/// is listed even when the graph has no module under it.
pub fn reachable_modules(graph: &Graph, entry: &str) -> (r: Vec<String>)
    requires
        graph.wf(),
    ensures
        distinct_strs(r@),
        str_set(r@) == Set::new(|x: Seq<char>| reaches(graph@, entry@, x)),
{
    let ghost g = graph@;
    let ghost e = entry@;
    let mut out: Vec<String> = Vec::new();
    let found = graph.find(entry);
    if found.is_none() {
        insert_unique(&mut out, entry.to_owned());
        proof {
            assert forall|x: Seq<char>| #[trigger] str_set(out@).contains(x) == reaches(g, e, x) by {
                let p = seq![e];
                assert(import_chain(g, e, p));
                if reaches(g, e, x) {
                    let path = choose|path: Seq<Seq<char>>| #[trigger] import_chain(g, e, path) && path.last() == x;
                    if path.len() > 1 {
                        let z: int = 0;
                        assert(consumes(g, path[z], path[z + 1]));
                        let (i, j) = choose|i: int, j: int| g[i].id == path[z] && #[trigger] import_resolves_to(g, i, j, path[z + 1]);
                        assert(has_module(g, e));
                    }
                }
                assert(str_set(Seq::<String>::empty()).insert(e) =~= set![e]);
            }
            assert(str_set(out@) =~= Set::new(|x: Seq<char>| reaches(g, e, x)));
        }
        return out;
    }
    let ei = found.unwrap();
    let edges = consumer_edges(graph);
    let flags = forward_closure(graph, &edges, ei);
    let n = graph.modules.len();
    let mut m: usize = 0;
    proof {
        assert(str_set(out@) =~= Set::new(|x: Seq<char>| exists|mm: int| 0 <= mm < 0 && flags@[mm] && #[trigger] one_step_ids(g, mm).contains(x)));
    }
    while m < n
        invariant
            g == graph@,
            n == g.len(),
            distinct_ids(g),
            ei < n,
            e == g[ei as int].id,
            flags@.len() == n,
            forall|k: int| 0 <= k < n ==> (flags@[k] <==> reaches(g, e, g[k].id)),
            m <= n,
            distinct_strs(out@),
            str_set(out@) == Set::new(|x: Seq<char>| exists|mm: int| 0 <= mm < m && flags@[mm] && #[trigger] one_step_ids(g, mm).contains(x)),
        decreases n - m,
    {
        let ghost before = str_set(out@);
        if flags[m] {
            let info = &graph.modules[m];
            assert(info@ == g[m as int]);
            insert_unique(&mut out, info.id.clone());
            let mut j: usize = 0;
            while j < info.imports.len()
                invariant
                    g == graph@,
                    n == g.len(),
                    m < n,
                    info@ == g[m as int],
                    j <= info.imports@.len(),
                    distinct_strs(out@),
                    str_set(out@) == before + Set::new(
                        |x: Seq<char>| x == g[m as int].id || exists|jj: int| 0 <= jj < j && #[trigger] import_resolves_to(g, m as int, jj, x),
                    ),
                decreases info.imports@.len() - j,
            {
                let imp = &info.imports[j];
                assert(imp@ == g[m as int].imports[j as int]);
                if is_relative_specifier(imp.as_str()) {
                    let dep = normalize_path(info.id.as_str(), imp.as_str());
                    assert(import_resolves_to(g, m as int, j as int, dep@));
                    insert_unique(&mut out, dep);
                }
                proof {
                    assert(str_set(out@) =~= before + Set::new(
                        |x: Seq<char>| x == g[m as int].id || exists|jj: int| 0 <= jj < j + 1 && #[trigger] import_resolves_to(g, m as int, jj, x),
                    ));
                }
                j = j + 1;
            }
            proof {
                assert forall|x: Seq<char>| #[trigger] str_set(out@).contains(x) == (before.contains(x) || one_step_ids(g, m as int).contains(x)) by {
                    if one_step_ids(g, m as int).contains(x) && x != g[m as int].id {
                        let jj = choose|jj: int| #[trigger] import_resolves_to(g, m as int, jj, x);
                    }
                }
            }
        }
        proof {
            assert(str_set(out@) =~= Set::new(|x: Seq<char>| exists|mm: int| 0 <= mm < m + 1 && flags@[mm] && #[trigger] one_step_ids(g, mm).contains(x)));
        }
        m = m + 1;
    }
    proof {
        assert forall|x: Seq<char>| #[trigger] str_set(out@).contains(x) == reaches(g, e, x) by {
            if reaches(g, e, x) {
                let path = choose|path: Seq<Seq<char>>| #[trigger] import_chain(g, e, path) && path.last() == x;
                if path.len() == 1 {
                    assert(one_step_ids(g, ei as int).contains(x));
                } else {
                    lemma_import_chain_last_step(g, e, path);
                    let lk = path.len() - 2;
                    let (i, j) = choose|i: int, j: int| g[i].id == path[lk] && #[trigger] import_resolves_to(g, i, j, path.last());
                    assert(flags@[i]);
                    assert(one_step_ids(g, i).contains(x));
                }
            }
            if str_set(out@).contains(x) {
                let mm = choose|mm: int| 0 <= mm < n && flags@[mm] && #[trigger] one_step_ids(g, mm).contains(x);
                let path = choose|path: Seq<Seq<char>>| #[trigger] import_chain(g, e, path) && path.last() == g[mm].id;
                if x != g[mm].id {
                    let j = choose|j: int| #[trigger] import_resolves_to(g, mm, j, x);
                    assert(consumes(g, path.last(), x));
                    lemma_import_chain_extend(g, e, path, x);
                }
            }
        }
        assert(str_set(out@) =~= Set::new(|x: Seq<char>| reaches(g, e, x)));
    }
    out
}

} // verus!
