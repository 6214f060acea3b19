use vstd::prelude::*;
use crate::graph::{Graph, closed, distinct_ids, has_module, import_resolves_to};
use crate::module::{ModuleInfo, ModuleView, str_set};
use crate::path::{canonical, canonical_path, is_relative, is_relative_specifier, normalize_path, resolve_spec};

verus! {

/// The ids that the relative imports of `m` resolve to.
pub open spec fn dependency_ids(m: ModuleView) -> Set<Seq<char>> {
    Set::new(
        |d: Seq<char>|
            exists|j: int| 0 <= j < m.imports.len() && is_relative(m.imports[j]) && resolve_spec(m.id, m.imports[j]) == d,
    )
}

/// `id` is the entry `e` or what a relative import of a module of `g` resolves to.
pub open spec fn named(g: Seq<ModuleView>, e: Seq<char>, id: Seq<char>) -> bool {
    id == e || exists|i: int, j: int| #[trigger] import_resolves_to(g, i, j, id)
}

/// Builds the graph of the modules reachable from an entry module by relative imports,
/// one module at a time: it names the next module to load, and the caller, which reads
/// and parses it, hands its facts back. A module already in the graph is never named
/// again, so cycles and shared dependencies are loaded once.
pub struct GraphBuilder {
    entry: String,
    graph: Graph,
    pending: Vec<String>,
    awaiting: Option<String>,
    handed: Ghost<Seq<Seq<char>>>,
}

impl GraphBuilder {
    /// The entry module's id.
    pub closed spec fn entry_id(&self) -> Seq<char> {
        self.entry@
    }

    /// The graph built so far.
    pub closed spec fn graph_view(&self) -> Seq<ModuleView> {
        self.graph@
    }

    /// The ids still to be looked at (some may be in the graph by now).
    pub closed spec fn pending_ids(&self) -> Seq<Seq<char>> {
        Seq::new(self.pending@.len(), |i: int| self.pending@[i]@)
    }

    /// The id handed out for loading whose facts have not come back yet.
    pub closed spec fn awaiting_id(&self) -> Option<Seq<char>> {
        match self.awaiting {
            Some(a) => Some(a@),
            None => None,
        }
    }

    /// Every id handed out for loading so far, in order.
    pub closed spec fn handed_out(&self) -> Seq<Seq<char>> {
        self.handed@
    }

    /// Nothing is left to load.
    pub open spec fn is_done(&self) -> bool {
        self.pending_ids().len() == 0 && self.awaiting_id() is None
    }

    /// `id` is in the graph, awaited, or still to be looked at.
    pub open spec fn is_known(&self, id: Seq<char>) -> bool {
        has_module(self.graph_view(), id) || self.pending_ids().contains(id) || self.awaiting_id() == Some(id)
    }

    pub open spec fn wf(&self) -> bool {
        &&& distinct_ids(self.graph_view())
        &&& self.handed_out().no_duplicates()
        &&& forall|id: Seq<char>|
            #[trigger] self.handed_out().contains(id) <==> (has_module(self.graph_view(), id) || self.awaiting_id() == Some(id))
        &&& forall|a: Seq<char>| self.awaiting_id() == Some(a) ==> !has_module(self.graph_view(), a)
        &&& forall|i: int, j: int, d: Seq<char>| #[trigger] import_resolves_to(self.graph_view(), i, j, d) ==> self.is_known(d)
        &&& self.is_known(self.entry_id())
        &&& forall|id: Seq<char>| #[trigger] self.is_known(id) ==> named(self.graph_view(), self.entry_id(), id)
    }

    /// A builder for the graph of `entry`: nothing loaded, the entry still to load.
    /// The entry id is taken in canonical form, as resolved imports are.
    pub fn new(entry: &str) -> (r: GraphBuilder)
        ensures
            r.wf(),
            r.entry_id() == canonical(entry@),
            r.graph_view().len() == 0,
            r.pending_ids() == seq![canonical(entry@)],
            r.awaiting_id() is None,
            r.handed_out().len() == 0,
    {
        let id = canonical_path(entry);
        let mut pending: Vec<String> = Vec::new();
        pending.push(id.clone());
        let r = GraphBuilder {
            entry: id,
            graph: Graph::new(),
            pending,
            awaiting: None,
            handed: Ghost(Seq::empty()),
        };
        assert(r.pending_ids() =~= seq![canonical(entry@)]);
        assert(r.pending_ids()[0] == canonical(entry@));
        r
    }

    /// The id of the next module to load and parse, or `None` when the graph is complete.
    /// The id is never one already in the graph. Until its facts come back through
    /// `add_module`, the same id is named again.
    pub fn next_module(&mut self) -> (r: Option<String>)
        requires
            old(self).wf(),
        ensures
            final(self).wf(),
            final(self).entry_id() == old(self).entry_id(),
            final(self).graph_view() == old(self).graph_view(),
            match r {
                Some(id) => {
                    &&& old(self).awaiting_id() == Some(id@) || old(self).pending_ids().contains(id@)
                    &&& !has_module(old(self).graph_view(), id@)
                    &&& final(self).awaiting_id() == Some(id@)
                    &&& match old(self).awaiting_id() {
                        Some(a) => a == id@ && final(self).handed_out() == old(self).handed_out(),
                        None => final(self).handed_out() == old(self).handed_out().push(id@),
                    }
                },
                None => final(self).is_done() && final(self).handed_out() == old(self).handed_out(),
            },
    {
        broadcast use vstd::seq_lib::lemma_seq_contains_after_push;
        match &self.awaiting {
            Some(a) => {
                return Some(a.clone());
            },
            None => {},
        }
        let ghost g = self.graph@;
        let ghost h = self.handed@;
        while self.pending.len() > 0
            invariant
                self.wf(),
                self.graph@ == g,
                self.handed@ == h,
                g == old(self).graph@,
                h == old(self).handed@,
                old(self).awaiting is None,
                forall|x: Seq<char>| self.pending_ids().contains(x) ==> old(self).pending_ids().contains(x),
                self.awaiting is None,
                self.entry_id() == old(self).entry_id(),
            decreases self.pending@.len(),
        {
            let ghost before = self.pending_ids();
            let ghost pre = *self;
            let id = self.pending.pop().unwrap();
            proof {
                assert(before =~= self.pending_ids().push(id@));
                assert(before.contains(id@)) by {
                    vstd::seq_lib::lemma_seq_contains_after_push(self.pending_ids(), id@, id@);
                }
                assert forall|x: Seq<char>| self.pending_ids().contains(x) implies before.contains(x) by {
                    vstd::seq_lib::lemma_seq_contains_after_push(self.pending_ids(), id@, x);
                }
            }
            if !self.graph.contains(id.as_str()) {
                self.awaiting = Some(id.clone());
                proof {
                    self.handed = Ghost(h.push(id@));
                    assert forall|x: Seq<char>| before.contains(x) implies self.is_known(x) by {
                        vstd::seq_lib::lemma_seq_contains_after_push(self.pending_ids(), id@, x);
                    }
                    assert(!h.contains(id@));
                    assert forall|x: Seq<char>| #[trigger] self.is_known(x) implies named(self.graph_view(), self.entry_id(), x) by {
                        assert(pre.is_known(x));
                    }
                    assert forall|x: Seq<char>|
                        #[trigger] self.handed_out().contains(x) <==> (has_module(self.graph_view(), x) || self.awaiting_id() == Some(x)) by {
                        vstd::seq_lib::lemma_seq_contains_after_push(h, id@, x);
                    }
                }
                return Some(id);
            }
            proof {
                assert forall|x: Seq<char>| before.contains(x) implies self.is_known(x) by {
                    vstd::seq_lib::lemma_seq_contains_after_push(self.pending_ids(), id@, x);
                }
                assert forall|x: Seq<char>| #[trigger] self.is_known(x) implies named(self.graph_view(), self.entry_id(), x) by {
                    assert(pre.is_known(x));
                }
            }
        }
        None
    }

    /// Hands back the facts of the awaited module. They are added to the graph, and
    /// the modules that its relative imports name are queued, when `info.id` is the
    /// awaited id; otherwise nothing changes and the result is `false`.
    pub fn add_module(&mut self, info: ModuleInfo) -> (r: bool)
        requires
            old(self).wf(),
        ensures
            final(self).wf(),
            final(self).entry_id() == old(self).entry_id(),
            final(self).handed_out() == old(self).handed_out(),
            r == (old(self).awaiting_id() == Some(info.id@)),
            r ==> {
                &&& final(self).graph_view() == old(self).graph_view().push(info@)
                &&& final(self).awaiting_id() is None
                &&& forall|d: Seq<char>|
                    #[trigger] final(self).pending_ids().contains(d)
                        <==> (old(self).pending_ids().contains(d) || dependency_ids(info@).contains(d))
            },
            !r ==> *final(self) == *old(self),
    {
        broadcast use vstd::seq_lib::lemma_seq_contains_after_push;
        let wanted = match &self.awaiting {
            Some(a) => *a == info.id,
            None => false,
        };
        if !wanted {
            return false;
        }
        let ghost m = info@;
        let mut deps: Vec<String> = Vec::new();
        let mut j: usize = info.imports.len();
        while j > 0
            invariant
                j <= info.imports@.len(),
                m == info@,
                forall|d: Seq<char>|
                    #[trigger] str_set(deps@).contains(d) <==> exists|jj: int|
                        j <= jj < m.imports.len() && is_relative(m.imports[jj]) && resolve_spec(m.id, m.imports[jj]) == d,
            decreases j,
        {
            j = j - 1;
            let imp = &info.imports[j];
            let ghost before = deps@;
            assert(imp@ == m.imports[j as int]);
            if is_relative_specifier(imp.as_str()) {
                let dep = normalize_path(info.id.as_str(), imp.as_str());
                let ghost dv = dep@;
                deps.push(dep);
                proof {
                    assert forall|d: Seq<char>| #[trigger] str_set(deps@).contains(d) <==> (str_set(before).contains(d) || d == dv) by {
                        if str_set(before).contains(d) {
                            let i = choose|i: int| 0 <= i < before.len() && before[i]@ == d;
                            assert(deps@[i]@ == d);
                        }
                        if d == dv {
                            assert(deps@[before.len() as int]@ == d);
                        }
                        if str_set(deps@).contains(d) {
                            let i = choose|i: int| 0 <= i < deps@.len() && deps@[i]@ == d;
                            if i < before.len() {
                                assert(before[i]@ == d);
                            }
                        }
                    }
                }
            }
            proof {
                assert forall|d: Seq<char>|
                    #[trigger] str_set(deps@).contains(d) <==> exists|jj: int|
                        j <= jj < m.imports.len() && is_relative(m.imports[jj]) && resolve_spec(m.id, m.imports[jj]) == d by {
                    if exists|jj: int|
                        j <= jj < m.imports.len() && is_relative(m.imports[jj]) && resolve_spec(m.id, m.imports[jj]) == d {
                        let jj = choose|jj: int|
                            j <= jj < m.imports.len() && is_relative(m.imports[jj]) && resolve_spec(m.id, m.imports[jj]) == d;
                        if jj > j {
                            assert(str_set(before).contains(d));
                        }
                    }
                }
            }
        }
        let ghost old_self = *self;
        let ghost g = self.graph@;
        self.graph.modules.push(info);
        self.awaiting = None;
        let ghost old_pending = self.pending_ids();
        let ghost all_deps = deps@;
        self.pending.append(&mut deps);
        proof {
            let g2 = self.graph@;
            assert(g2 =~= g.push(m));
            assert(old_self.awaiting_id() == Some(m.id));
            assert(!has_module(g, m.id));
            assert forall|a: int, b: int| 0 <= a < g2.len() && 0 <= b < g2.len() && a != b implies g2[a].id != g2[b].id by {
                if a < g.len() && b < g.len() {
                    assert(g2[a] == g[a] && g2[b] == g[b]);
                } else if a < g.len() {
                    assert(g2[a] == g[a]);
                } else if b < g.len() {
                    assert(g2[b] == g[b]);
                }
            }
            assert(dependency_ids(m) =~= Set::new(
                |d: Seq<char>| exists|jj: int| 0 <= jj < m.imports.len() && is_relative(m.imports[jj]) && resolve_spec(m.id, m.imports[jj]) == d,
            ));
            assert forall|d: Seq<char>|
                #[trigger] self.pending_ids().contains(d) <==> (old_pending.contains(d) || dependency_ids(m).contains(d)) by {
                if self.pending_ids().contains(d) {
                    let i = choose|i: int| 0 <= i < self.pending_ids().len() && self.pending_ids()[i] == d;
                    if i < old_pending.len() {
                        assert(old_pending[i] == d);
                    } else {
                        assert(self.pending@[i] == all_deps[i - old_pending.len()]);
                        assert(str_set(all_deps).contains(d));
                    }
                }
                if old_pending.contains(d) {
                    let i = choose|i: int| 0 <= i < old_pending.len() && old_pending[i] == d;
                    assert(self.pending_ids()[i] == d);
                }
                if dependency_ids(m).contains(d) {
                    assert(str_set(all_deps).contains(d));
                    let i = choose|i: int| 0 <= i < all_deps.len() && all_deps[i]@ == d;
                    assert(self.pending_ids()[old_pending.len() + i] == d);
                }
            }
            assert forall|x: Seq<char>| has_module(g2, x) <==> (has_module(g, x) || x == m.id) by {
                if has_module(g2, x) {
                    let i = choose|i: int| 0 <= i < g2.len() && g2[i].id == x;
                    if i < g.len() {
                        assert(g[i].id == x);
                    }
                }
                if has_module(g, x) {
                    let i = choose|i: int| 0 <= i < g.len() && g[i].id == x;
                    assert(g2[i].id == x);
                }
                if x == m.id {
                    assert(g2[g.len() as int].id == x);
                }
            }
            assert forall|i: int, jj: int, d: Seq<char>| #[trigger] import_resolves_to(g2, i, jj, d) implies self.is_known(d) by {
                if i < g.len() {
                    assert(g2[i] == g[i]);
                    assert(import_resolves_to(g, i, jj, d));
                    assert(old_self.is_known(d));
                } else {
                    assert(g2[i] == m);
                    assert(dependency_ids(m).contains(d));
                }
            }
            assert(old_self.is_known(old_self.entry_id()));
            assert forall|x: Seq<char>| #[trigger] self.is_known(x) implies named(g2, self.entry_id(), x) by {
                if dependency_ids(m).contains(x) && !old_pending.contains(x) && !has_module(g, x) {
                    let jj = choose|jj: int| 0 <= jj < m.imports.len() && is_relative(m.imports[jj]) && resolve_spec(m.id, m.imports[jj]) == x;
                    assert(import_resolves_to(g2, g.len() as int, jj, x));
                } else {
                    if x == m.id {
                        assert(old_self.is_known(x));
                    } else if old_pending.contains(x) {
                        assert(old_self.is_known(x));
                    } else {
                        assert(has_module(g, x));
                        assert(old_self.is_known(x));
                    }
                    assert(named(g, self.entry_id(), x));
                    if x != self.entry_id() {
                        let (i, j) = choose|i: int, j: int| #[trigger] import_resolves_to(g, i, j, x);
                        assert(g2[i] == g[i]);
                        assert(import_resolves_to(g2, i, j, x));
                    }
                }
            }
            assert forall|x: Seq<char>| #[trigger] old_pending.contains(x) implies self.pending_ids().contains(x) by {}
        }
        true
    }

    /// The graph built, once nothing is left to load: then every relative import of
    /// every module in it resolves to a module in it, and it holds the entry.
    pub fn into_graph(self) -> (r: Graph)
        requires
            self.wf(),
        ensures
            r.wf(),
            r@ == self.graph_view(),
            forall|i: int| 0 <= i < r@.len() ==> named(r@, self.entry_id(), #[trigger] r@[i].id),
            self.is_done() ==> closed(r@) && has_module(r@, self.entry_id()),
    {
        proof {
            assert forall|i: int| 0 <= i < self.graph@.len() implies named(self.graph@, self.entry_id(), #[trigger] self.graph@[i].id) by {
                assert(has_module(self.graph@, self.graph@[i].id));
                assert(self.is_known(self.graph@[i].id));
            }
            if self.is_done() {
                assert forall|i: int, j: int, d: Seq<char>| #[trigger] import_resolves_to(self.graph@, i, j, d) implies has_module(self.graph@, d) by {
                    assert(self.is_known(d));
                }
            }
        }
        self.graph
    }
}

/// No module is loaded twice in a build: each id is handed out for loading at most
/// once, ids in the graph are unique, and every module of the graph is one that was
/// handed out, so each is parsed exactly once whatever cycles or shared imports exist.
/// Every operation of the builder keeps `wf`, and `handed_out` only grows.
pub proof fn lemma_each_module_parsed_once(b: &GraphBuilder)
    requires
        b.wf(),
    ensures
        b.handed_out().no_duplicates(),
        distinct_ids(b.graph_view()),
        forall|id: Seq<char>| has_module(b.graph_view(), id) ==> #[trigger] b.handed_out().contains(id),
        b.is_done() ==> forall|id: Seq<char>| #[trigger] b.handed_out().contains(id) <==> has_module(b.graph_view(), id),
{
}

} // verus!
