use vstd::prelude::*;
use std::path::Path;
use crate::module::str_seq;

verus! {

/// The directory part of a path, as `std::path::Path::parent` computes it.
pub uninterp spec fn parent_dir(p: Seq<char>) -> Option<Seq<char>>;

/// A directory and a relative path joined, as `std::path::Path::join` computes it.
pub uninterp spec fn joined_path(dir: Seq<char>, rel: Seq<char>) -> Seq<char>;

/// A specifier is relative when it begins with `.`.
pub open spec fn is_relative(spec: Seq<char>) -> bool {
    spec.len() > 0 && spec[0] == '.'
}

/// Folds one segment into the segments so far: empty and `.` segments are dropped, and
/// `..` removes the segment before it (at the root of an absolute path it is dropped; at
/// the start of a relative path, or after another `..`, it stays).
pub open spec fn seg_step(prev: Seq<Seq<char>>, seg: Seq<char>, absolute: bool) -> Seq<Seq<char>> {
    if seg.len() == 0 || seg == seq!['.'] {
        prev
    } else if seg == seq!['.', '.'] {
        if prev.len() > 0 && prev.last() != seq!['.', '.'] {
            prev.drop_last()
        } else if absolute {
            prev
        } else {
            prev.push(seg)
        }
    } else {
        prev.push(seg)
    }
}

/// Reading `p` left to right: the folded segments completed so far, and the segment
/// being read (segments are separated by `/`).
pub open spec fn canon_state(p: Seq<char>, absolute: bool) -> (Seq<Seq<char>>, Seq<char>)
    decreases p.len(),
{
    if p.len() == 0 {
        (Seq::empty(), Seq::empty())
    } else {
        let st = canon_state(p.drop_last(), absolute);
        if p.last() == '/' {
            (seg_step(st.0, st.1, absolute), Seq::empty())
        } else {
            (st.0, st.1.push(p.last()))
        }
    }
}

/// Segments joined with `/` between them.
pub open spec fn join_segments(segs: Seq<Seq<char>>) -> Seq<char>
    decreases segs.len(),
{
    if segs.len() == 0 {
        Seq::empty()
    } else if segs.len() == 1 {
        segs[0]
    } else {
        join_segments(segs.drop_last()) + seq!['/'] + segs.last()
    }
}

/// The canonical form of a path: `.` segments and repeated separators dropped, each
/// `name/..` folded away, a leading `/` kept, and `.` for an empty relative path.
pub open spec fn canonical(p: Seq<char>) -> Seq<char> {
    let absolute = p.len() > 0 && p[0] == '/';
    let st = canon_state(p, absolute);
    let body = join_segments(seg_step(st.0, st.1, absolute));
    if absolute {
        seq!['/'] + body
    } else if body.len() == 0 {
        seq!['.']
    } else {
        body
    }
}

/// The module id that a relative specifier names, seen from the importing module:
/// the specifier joined to the directory that holds the importer (`.` when it has none),
/// in canonical form.
pub open spec fn resolve_spec(base: Seq<char>, rel: Seq<char>) -> Seq<char> {
    match parent_dir(base) {
        Some(dir) => canonical(joined_path(dir, rel)),
        None => canonical(joined_path(seq!['.'], rel)),
    }
}

/// Relies on `std::path::Path::parent`: the path without its last component, if any.
#[verifier::external_body]
fn path_parent(p: &str) -> (r: Option<String>)
    ensures
        match r {
            Some(d) => parent_dir(p@) == Some(d@),
            None => parent_dir(p@) is None,
        },
{
    Path::new(p).parent().map(|d| d.to_string_lossy().to_string())
}

/// Relies on `std::path::Path::join`: `rel` appended to `dir`.
#[verifier::external_body]
fn path_join(dir: &str, rel: &str) -> (r: String)
    ensures
        r@ == joined_path(dir@, rel@),
{
    Path::new(dir).join(rel).to_string_lossy().to_string()
}

/// Whether an import specifier is relative (begins with `.`).
pub fn is_relative_specifier(spec: &str) -> (r: bool)
    ensures
        r == is_relative(spec@),
{
    let n = spec.unicode_len();
    n > 0 && spec.get_char(0) == '.'
}

/// Whether `s` is exactly `.`.
fn is_dot(s: &str) -> (r: bool)
    ensures
        r == (s@ == seq!['.']),
{
    let n = s.unicode_len();
    if n == 1 && s.get_char(0) == '.' {
        assert(s@ =~= seq!['.']);
        true
    } else {
        false
    }
}

/// Whether `s` is exactly `..`.
fn is_dot_dot(s: &str) -> (r: bool)
    ensures
        r == (s@ == seq!['.', '.']),
{
    let n = s.unicode_len();
    if n == 2 && s.get_char(0) == '.' && s.get_char(1) == '.' {
        assert(s@ =~= seq!['.', '.']);
        true
    } else {
        false
    }
}

/// Folds the segment `seg` into `stack`.
fn push_segment(stack: &mut Vec<String>, seg: &str, absolute: bool)
    ensures
        str_seq(final(stack)@) == seg_step(str_seq(old(stack)@), seg@, absolute),
{
    let ghost before = str_seq(stack@);
    if seg.unicode_len() == 0 || is_dot(seg) {
        return;
    }
    if is_dot_dot(seg) {
        let n = stack.len();
        if n > 0 && !is_dot_dot(stack[n - 1].as_str()) {
            stack.pop();
            assert(str_seq(stack@) =~= before.drop_last());
            return;
        }
        if absolute {
            return;
        }
    }
    stack.push(seg.to_owned());
    assert(str_seq(stack@) =~= before.push(seg@));
}

/// The canonical form of the path `p`: `.` segments and repeated separators dropped,
/// each `name/..` folded away.
pub fn canonical_path(p: &str) -> (r: String)
    ensures
        r@ == canonical(p@),
{
    let n = p.unicode_len();
    let absolute = n > 0 && p.get_char(0) == '/';
    let ghost abs = p@.len() > 0 && p@[0] == '/';
    assert(absolute == abs);
    let mut stack: Vec<String> = Vec::new();
    let mut start: usize = 0;
    let mut i: usize = 0;
    assert(p@.subrange(0, 0) =~= Seq::<char>::empty());
    assert(str_seq(stack@) =~= Seq::<Seq<char>>::empty());
    while i < n
        invariant
            n == p@.len(),
            absolute == abs,
            start <= i <= n,
            str_seq(stack@) == canon_state(p@.subrange(0, i as int), abs).0,
            p@.subrange(start as int, i as int) == canon_state(p@.subrange(0, i as int), abs).1,
        decreases n - i,
    {
        let ghost pre = p@.subrange(0, i as int);
        let ghost post = p@.subrange(0, i as int + 1);
        assert(post.drop_last() =~= pre);
        assert(post.last() == p@[i as int]);
        if p.get_char(i) == '/' {
            let seg = p.substring_char(start, i);
            push_segment(&mut stack, seg, absolute);
            start = i + 1;
            assert(p@.subrange(start as int, i as int + 1) =~= Seq::<char>::empty());
        } else {
            assert(p@.subrange(start as int, i as int + 1) =~= p@.subrange(start as int, i as int).push(p@[i as int]));
        }
        i = i + 1;
    }
    assert(p@.subrange(0, n as int) =~= p@);
    let last = p.substring_char(start, n);
    push_segment(&mut stack, last, absolute);
    let ghost segs = str_seq(stack@);
    let mut out = String::new();
    if absolute {
        let root = "/";
        proof {
            reveal_strlit("/");
            assert(root@ =~= seq!['/']);
        }
        out.append(root);
    }
    let ghost prefix = out@;
    let mut k: usize = 0;
    assert(segs.take(0) =~= Seq::<Seq<char>>::empty());
    assert(out@ =~= prefix + join_segments(segs.take(0)));
    while k < stack.len()
        invariant
            segs == str_seq(stack@),
            k <= stack@.len(),
            out@ == prefix + join_segments(segs.take(k as int)),
        decreases stack@.len() - k,
    {
        assert(segs.take(k as int + 1).drop_last() =~= segs.take(k as int));
        if k > 0 {
            let sep = "/";
            proof {
                reveal_strlit("/");
                assert(sep@ =~= seq!['/']);
            }
            out.append(sep);
        } else {
            assert(segs.take(1) =~= seq![segs[0]]);
        }
        out.append(stack[k].as_str());
        assert(out@ =~= prefix + join_segments(segs.take(k as int + 1)));
        k = k + 1;
    }
    assert(segs.take(stack@.len() as int) =~= segs);
    if !absolute && out.unicode_len() == 0 {
        let dot = ".";
        proof {
            reveal_strlit(".");
            assert(dot@ =~= seq!['.']);
        }
        return dot.to_owned();
    }
    out
}

/// Resolves `rel` against the directory that holds the module `base`, and puts the
/// result in canonical form, so that one module has one id however it is reached.
pub fn normalize_path(base: &str, rel: &str) -> (r: String)
    ensures
        r@ == resolve_spec(base@, rel@),
{
    match path_parent(base) {
        Some(dir) => {
            let joined = path_join(dir.as_str(), rel);
            canonical_path(joined.as_str())
        },
        None => {
            let here = ".";
            proof {
                reveal_strlit(".");
                assert(here@ =~= seq!['.']);
            }
            let joined = path_join(here, rel);
            canonical_path(joined.as_str())
        },
    }
}

/// Resolution is a function of the importing module and the specifier alone:
/// resolving the same specifier from the same module always gives the same id.
pub proof fn lemma_resolution_deterministic(
    base1: Seq<char>,
    rel1: Seq<char>,
    base2: Seq<char>,
    rel2: Seq<char>,
)
    requires
        base1 == base2,
        rel1 == rel2,
    ensures
        resolve_spec(base1, rel1) == resolve_spec(base2, rel2),
{
}

/// The importing module matters only through its directory: two modules in the same
/// directory resolve a specifier to the same id.
pub proof fn lemma_resolution_by_directory(base1: Seq<char>, base2: Seq<char>, rel: Seq<char>)
    requires
        parent_dir(base1) == parent_dir(base2),
    ensures
        resolve_spec(base1, rel) == resolve_spec(base2, rel),
{
}

} // verus!
