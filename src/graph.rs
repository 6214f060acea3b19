use vstd::prelude::*;
use crate::module::{ModuleInfo, ModuleView};
use crate::path::{is_relative, resolve_spec};

verus! {

/// Whether some module of `g` has the id `id`.
pub open spec fn has_module(g: Seq<ModuleView>, id: Seq<char>) -> bool {
    exists|i: int| 0 <= i < g.len() && g[i].id == id
}

/// No two modules of `g` share an id.
pub open spec fn distinct_ids(g: Seq<ModuleView>) -> bool {
    forall|i: int, j: int| 0 <= i < g.len() && 0 <= j < g.len() && i != j ==> g[i].id != g[j].id
}

/// Module `m` of `g` exports `s`.
pub open spec fn exports(g: Seq<ModuleView>, m: Seq<char>, s: Seq<char>) -> bool {
    exists|i: int| 0 <= i < g.len() && g[i].id == m && g[i].exports.contains(s)
}

/// Module `m` of `g` mentions the identifier `s`.
pub open spec fn uses(g: Seq<ModuleView>, m: Seq<char>, s: Seq<char>) -> bool {
    exists|i: int| 0 <= i < g.len() && g[i].id == m && g[i].used.contains(s)
}

/// Import `j` of the module at index `i` is relative and resolves to `d`.
pub open spec fn import_resolves_to(g: Seq<ModuleView>, i: int, j: int, d: Seq<char>) -> bool {
    0 <= i < g.len() && 0 <= j < g[i].imports.len() && is_relative(g[i].imports[j])
        && resolve_spec(g[i].id, g[i].imports[j]) == d
}

/// Module `p` of `g` imports module `d` by a relative specifier: `p` consumes `d`.
pub open spec fn consumes(g: Seq<ModuleView>, p: Seq<char>, d: Seq<char>) -> bool {
    exists|i: int, j: int| g[i].id == p && #[trigger] import_resolves_to(g, i, j, d)
}

/// Every relative import of every module of `g` resolves to a module of `g`.
pub open spec fn closed(g: Seq<ModuleView>) -> bool {
    forall|i: int, j: int, d: Seq<char>| #[trigger] import_resolves_to(g, i, j, d) ==> has_module(g, d)
}

/// A dependency graph: the modules found from an entry module, each under its own id.
pub struct Graph {
    pub modules: Vec<ModuleInfo>,
}

impl View for Graph {
    type V = Seq<ModuleView>;

    open spec fn view(&self) -> Seq<ModuleView> {
        Seq::new(self.modules@.len(), |i: int| self.modules@[i]@)
    }
}

impl Graph {
    /// Module ids are unique within the graph.
    pub open spec fn wf(&self) -> bool {
        distinct_ids(self@)
    }

    /// An empty graph.
    pub fn new() -> (r: Graph)
        ensures
            r@.len() == 0,
            r.wf(),
    {
        Graph { modules: Vec::new() }
    }

    /// The index of the module with id `id`, if the graph holds one.
    pub fn find(&self, id: &str) -> (r: Option<usize>)
        ensures
            match r {
                Some(i) => i < self@.len() && self@[i as int].id == id@,
                None => !has_module(self@, id@),
            },
    {
        let key = id.to_owned();
        let mut i: usize = 0;
        while i < self.modules.len()
            invariant
                i <= self.modules@.len(),
                key@ == id@,
                forall|k: int| 0 <= k < i ==> self@[k].id != id@,
            decreases self.modules@.len() - i,
        {
            if self.modules[i].id == key {
                return Some(i);
            }
            i = i + 1;
        }
        None
    }

    /// Whether the graph holds a module with id `id`.
    pub fn contains(&self, id: &str) -> (r: bool)
        ensures
            r == has_module(self@, id@),
    {
        self.find(id).is_some()
    }

    /// The module with id `id`, if the graph holds one.
    pub fn get(&self, id: &str) -> (r: Option<&ModuleInfo>)
        ensures
            match r {
                Some(m) => m@.id == id@ && exists|i: int| 0 <= i < self@.len() && self@[i] == m@,
                None => !has_module(self@, id@),
            },
    {
        match self.find(id) {
            Some(i) => Some(&self.modules[i]),
            None => None,
        }
    }

    /// Whether no two modules share an id.
    pub fn ids_unique(&self) -> (r: bool)
        ensures
            r == self.wf(),
    {
        let n = self.modules.len();
        let mut i: usize = 0;
        while i < n
            invariant
                n == self@.len(),
                i <= n,
                forall|a: int, b: int| 0 <= a < i && 0 <= b < n && a != b ==> self@[a].id != self@[b].id,
            decreases n - i,
        {
            let mut j: usize = 0;
            while j < n
                invariant
                    n == self@.len(),
                    i < n,
                    j <= n,
                    forall|a: int, b: int| 0 <= a < i && 0 <= b < n && a != b ==> self@[a].id != self@[b].id,
                    forall|b: int| 0 <= b < j && b != i ==> self@[i as int].id != self@[b].id,
                decreases n - j,
            {
                if j != i && self.modules[i].id == self.modules[j].id {
                    assert(self@[i as int].id == self@[j as int].id);
                    return false;
                }
                j = j + 1;
            }
            i = i + 1;
        }
        true
    }

    /// A copy of the graph.
    pub fn duplicate(&self) -> (r: Graph)
        ensures
            r@ == self@,
    {
        let mut out: Vec<ModuleInfo> = Vec::new();
        let mut i: usize = 0;
        while i < self.modules.len()
            invariant
                i <= self.modules@.len(),
                out@.len() == i,
                forall|k: int| 0 <= k < i ==> out@[k]@ == self.modules@[k]@,
            decreases self.modules@.len() - i,
        {
            out.push(self.modules[i].duplicate());
            i = i + 1;
        }
        let r = Graph { modules: out };
        assert(r@ =~= self@);
        r
    }
}

} // verus!
