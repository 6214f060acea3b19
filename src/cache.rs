use vstd::prelude::*;
use crate::graph::Graph;
use crate::module::ModuleView;

verus! {

/// Built graphs kept by entry path, so that repeated builds of one entry are not redone.
/// It has no invalidation: a graph stays as stored even when the files change later.
pub struct GraphCache {
    keys: Vec<String>,
    graphs: Vec<Graph>,
}

impl View for GraphCache {
    type V = Map<Seq<char>, Seq<ModuleView>>;

    closed spec fn view(&self) -> Map<Seq<char>, Seq<ModuleView>> {
        Map::new(
            |k: Seq<char>| exists|i: int| 0 <= i < self.keys@.len() && self.keys@[i]@ == k,
            |k: Seq<char>| self.graphs@[choose|i: int| 0 <= i < self.keys@.len() && self.keys@[i]@ == k]@,
        )
    }
}

impl GraphCache {
    /// Keys are unique and each has its graph, whose module ids are unique.
    pub closed spec fn wf(&self) -> bool {
        &&& self.keys@.len() == self.graphs@.len()
        &&& forall|i: int, j: int| 0 <= i < self.keys@.len() && 0 <= j < self.keys@.len() && i != j ==> self.keys@[i]@ != self.keys@[j]@
        &&& forall|i: int| 0 <= i < self.graphs@.len() ==> #[trigger] self.graphs@[i].wf()
    }

    /// An empty cache.
    pub fn new() -> (r: GraphCache)
        ensures
            r.wf(),
            r@ == Map::<Seq<char>, Seq<ModuleView>>::empty(),
    {
        let r = GraphCache { keys: Vec::new(), graphs: Vec::new() };
        assert(r@ =~= Map::<Seq<char>, Seq<ModuleView>>::empty());
        r
    }

    fn index_of(&self, entry: &str) -> (r: Option<usize>)
        requires
            self.wf(),
        ensures
            match r {
                Some(i) => i < self.keys@.len() && self.keys@[i as int]@ == entry@,
                None => !self@.contains_key(entry@),
            },
    {
        let key = entry.to_owned();
        let mut i: usize = 0;
        while i < self.keys.len()
            invariant
                i <= self.keys@.len(),
                key@ == entry@,
                forall|k: int| 0 <= k < i ==> self.keys@[k]@ != entry@,
            decreases self.keys@.len() - i,
        {
            if self.keys[i] == key {
                return Some(i);
            }
            i = i + 1;
        }
        None
    }

    /// A copy of the graph stored for `entry`, if any.
    pub fn lookup(&self, entry: &str) -> (r: Option<Graph>)
        requires
            self.wf(),
        ensures
            match r {
                Some(g) => self@.contains_key(entry@) && self@[entry@] == g@ && g.wf(),
                None => !self@.contains_key(entry@),
            },
    {
        match self.index_of(entry) {
            Some(i) => {
                proof {
                    let c = choose|c: int| 0 <= c < self.keys@.len() && self.keys@[c]@ == entry@;
                    assert(c == i);
                    assert(self.graphs@[i as int].wf());
                }
                let g = self.graphs[i].duplicate();
                Some(g)
            },
            None => None,
        }
    }

    /// Stores `g` for `entry`, replacing what was stored for it before.
    pub fn store(&mut self, entry: &str, g: Graph)
        requires
            old(self).wf(),
            g.wf(),
        ensures
            final(self).wf(),
            final(self)@ == old(self)@.insert(entry@, g@),
    {
        let ghost gv = g@;
        match self.index_of(entry) {
            Some(i) => {
                self.graphs.set(i, g);
            },
            None => {
                self.keys.push(entry.to_owned());
                self.graphs.push(g);
            },
        }
        proof {
            let old_c = old(self)@;
            assert forall|k: Seq<char>| #[trigger] self@.contains_key(k) == old_c.insert(entry@, gv).contains_key(k) by {
                if old_c.contains_key(k) {
                    let c = choose|c: int| 0 <= c < old(self).keys@.len() && old(self).keys@[c]@ == k;
                    assert(self.keys@[c]@ == k);
                }
                if k == entry@ {
                    let c = choose|c: int| 0 <= c < self.keys@.len() && self.keys@[c]@ == entry@;
                }
                if self.keys@.len() > old(self).keys@.len() {
                    assert(self.keys@[old(self).keys@.len() as int]@ == entry@);
                }
            }
            assert forall|k: Seq<char>| #[trigger] self@.contains_key(k) implies self@[k] == old_c.insert(entry@, gv)[k] by {
                let c = choose|c: int| 0 <= c < self.keys@.len() && self.keys@[c]@ == k;
                if k != entry@ {
                    let c0 = choose|c0: int| 0 <= c0 < old(self).keys@.len() && old(self).keys@[c0]@ == k;
                    assert(self.keys@[c0]@ == k);
                    assert(c == c0);
                }
            }
            assert(self@ =~= old_c.insert(entry@, gv));
        }
    }
}

/// The cached build, called twice for one entry with the files unchanged, returns the
/// same graph both times. On a miss the first call stores the graph it built: `store`
/// leaves the cache at `before@.insert(entry, built)`. From that cache `lookup` returns
/// `built`, and as `lookup` changes nothing, every later lookup of `entry` returns it too.
pub proof fn lemma_cached_build_repeats(
    before: &GraphCache,
    after: &GraphCache,
    entry: Seq<char>,
    built: Seq<ModuleView>,
)
    requires
        after@ == before@.insert(entry, built),
    ensures
        after@.contains_key(entry),
        after@[entry] == built,
{
}

} // verus!
