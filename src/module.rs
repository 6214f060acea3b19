use vstd::prelude::*;

verus! {

/// The set of the strings that a vector holds.
pub open spec fn str_set(v: Seq<String>) -> Set<Seq<char>> {
    Set::new(|x: Seq<char>| exists|i: int| 0 <= i < v.len() && v[i]@ == x)
}

/// The strings of a vector, in order.
pub open spec fn str_seq(v: Seq<String>) -> Seq<Seq<char>> {
    Seq::new(v.len(), |i: int| v[i]@)
}

/// What the analysis knows of one module.
pub struct ModuleView {
    pub id: Seq<char>,
    pub imports: Seq<Seq<char>>,
    pub exports: Set<Seq<char>>,
    pub used: Set<Seq<char>>,
}

/// One module's extracted facts: its id (its path), the specifiers it imports from,
/// in source order, the names it exports, and every identifier it mentions.
/// `exports` and `used_symbols` stand for sets: only membership counts.
pub struct ModuleInfo {
    pub id: String,
    pub imports: Vec<String>,
    pub exports: Vec<String>,
    pub used_symbols: Vec<String>,
}

impl View for ModuleInfo {
    type V = ModuleView;

    open spec fn view(&self) -> ModuleView {
        ModuleView {
            id: self.id@,
            imports: str_seq(self.imports@),
            exports: str_set(self.exports@),
            used: str_set(self.used_symbols@),
        }
    }
}

/// Whether `v` holds the string `s`.
pub fn contains_str(v: &Vec<String>, s: &String) -> (r: bool)
    ensures
        r == str_set(v@).contains(s@),
{
    let mut i: usize = 0;
    while i < v.len()
        invariant
            i <= v.len(),
            forall|k: int| 0 <= k < i ==> v@[k]@ != s@,
        decreases v.len() - i,
    {
        if v[i] == *s {
            return true;
        }
        i = i + 1;
    }
    false
}

/// A copy of a vector of strings.
pub fn copy_strings(v: &Vec<String>) -> (r: Vec<String>)
    ensures
        r@ == v@,
{
    let mut out: Vec<String> = Vec::new();
    let mut i: usize = 0;
    while i < v.len()
        invariant
            i <= v.len(),
            out@ == v@.subrange(0, i as int),
        decreases v.len() - i,
    {
        out.push(v[i].clone());
        i = i + 1;
        assert(out@ =~= v@.subrange(0, i as int));
    }
    assert(out@ =~= v@);
    out
}

impl ModuleInfo {
    /// The facts of a module that could not be parsed: nothing imported, exported or used.
    pub fn empty(id: &str) -> (r: ModuleInfo)
        ensures
            r@.id == id@,
            r@.imports.len() == 0,
            r@.exports.is_empty(),
            r@.used.is_empty(),
    {
        let r = ModuleInfo {
            id: id.to_owned(),
            imports: Vec::new(),
            exports: Vec::new(),
            used_symbols: Vec::new(),
        };
        assert(r@.exports =~= Set::empty());
        assert(r@.used =~= Set::empty());
        r
    }

    /// Whether the module exports `name`.
    pub fn exports_name(&self, name: &String) -> (r: bool)
        ensures
            r == self@.exports.contains(name@),
    {
        contains_str(&self.exports, name)
    }

    /// Whether the module mentions the identifier `name` anywhere.
    pub fn uses_name(&self, name: &String) -> (r: bool)
        ensures
            r == self@.used.contains(name@),
    {
        contains_str(&self.used_symbols, name)
    }

    /// A copy of the module's facts.
    pub fn duplicate(&self) -> (r: ModuleInfo)
        ensures
            r@ == self@,
            r.id@ == self.id@,
            r.imports@ == self.imports@,
            r.exports@ == self.exports@,
            r.used_symbols@ == self.used_symbols@,
    {
        ModuleInfo {
            id: self.id.clone(),
            imports: copy_strings(&self.imports),
            exports: copy_strings(&self.exports),
            used_symbols: copy_strings(&self.used_symbols),
        }
    }
}

} // verus!
