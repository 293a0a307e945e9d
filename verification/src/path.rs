//! Paths inside an image: slash-separated, relative, and read as a
//! sequence of components.
//!
//! A component is a non-empty run of characters other than `/`. The
//! components of a string are its maximal such runs, in order, so leading,
//! trailing and repeated separators count for nothing. The normal form of
//! a path is its components joined by single separators.

use vstd::prelude::*;
use vstd::string::StringExecFns;
use crate::text::{
    leading_run, lemma_leading_run, lemma_leading_run_after, lemma_split, split, split_parts,
    trailing_run, trim_char, without_ends,
};


verus! {

/// The path separator.
pub open spec fn sep() -> char {
    '/'
}

/// A component is non-empty and holds no separator.
pub open spec fn is_component(c: Seq<char>) -> bool {
    c.len() > 0 && forall|i: int| 0 <= i < c.len() ==> c[i] != sep()
}

/// Every element is a component.
pub open spec fn all_components(cs: Seq<Seq<char>>) -> bool {
    forall|i: int| 0 <= i < cs.len() ==> is_component(#[trigger] cs[i])
}

/// The character sequences that a vector of strings holds.
pub open spec fn names(v: Seq<String>) -> Seq<Seq<char>> {
    Seq::new(v.len(), |i: int| v[i]@)
}

/// The finished components, with the run in progress added if it holds
/// anything.
pub open spec fn flush(done: Seq<Seq<char>>, run: Seq<char>) -> Seq<Seq<char>> {
    if run.len() > 0 {
        done.push(run)
    } else {
        done
    }
}

/// Reading `s` from the left: the components finished so far, and the run
/// of characters since the last separator.
pub open spec fn scan(s: Seq<char>) -> (Seq<Seq<char>>, Seq<char>)
    decreases s.len(),
{
    if s.len() == 0 {
        (Seq::empty(), Seq::empty())
    } else {
        let (done, run) = scan(s.drop_last());
        if s.last() == sep() {
            (flush(done, run), Seq::empty())
        } else {
            (done, run.push(s.last()))
        }
    }
}

/// The components of `s`.
pub open spec fn components(s: Seq<char>) -> Seq<Seq<char>> {
    flush(scan(s).0, scan(s).1)
}

/// The components joined by single separators.
pub open spec fn join(cs: Seq<Seq<char>>) -> Seq<char>
    decreases cs.len(),
{
    if cs.len() == 0 {
        Seq::empty()
    } else if cs.len() == 1 {
        cs[0]
    } else {
        join(cs.drop_last()).push(sep()) + cs.last()
    }
}

/// The normal form of a path.
pub open spec fn normalize(s: Seq<char>) -> Seq<char> {
    join(components(s))
}

/// A path is normalized when it is its own normal form.
pub open spec fn is_normalized(s: Seq<char>) -> bool {
    normalize(s) == s
}

proof fn lemma_scan_valid(s: Seq<char>)
    ensures
        all_components(scan(s).0),
        forall|i: int| 0 <= i < scan(s).1.len() ==> scan(s).1[i] != sep(),
    decreases s.len(),
{
    if s.len() > 0 {
        lemma_scan_valid(s.drop_last());
    }
}

/// What `components` yields are components.
pub proof fn lemma_components_valid(s: Seq<char>)
    ensures
        all_components(components(s)),
{
    lemma_scan_valid(s);
}

proof fn lemma_scan_run(s: Seq<char>, x: Seq<char>)
    requires
        forall|i: int| 0 <= i < x.len() ==> x[i] != sep(),
    ensures
        scan(s + x) == (scan(s).0, scan(s).1 + x),
    decreases x.len(),
{
    if x.len() > 0 {
        let y = x.drop_last();
        lemma_scan_run(s, y);
        assert((s + x).drop_last() =~= s + y);
    }
}

proof fn lemma_scan_join(cs: Seq<Seq<char>>)
    requires
        all_components(cs),
        cs.len() > 0,
    ensures
        scan(join(cs)) == (cs.drop_last(), cs.last()),
    decreases cs.len(),
{
    let empty = Seq::<char>::empty();
    if cs.len() == 1 {
        lemma_scan_run(empty, cs[0]);
    } else {
        let front = cs.drop_last();
        lemma_scan_join(front);
        let head = join(front).push(sep());
        assert(head.drop_last() =~= join(front));
        lemma_scan_run(head, cs.last());
    }
}

/// Splitting undoes joining: the components of joined components are
/// those components.
pub proof fn lemma_components_of_join(cs: Seq<Seq<char>>)
    requires
        all_components(cs),
    ensures
        components(join(cs)) == cs,
{
    if cs.len() > 0 {
        lemma_scan_join(cs);
    }
}

/// A normal form is normalized, and has the components of what it came
/// from.
pub proof fn lemma_normalize(s: Seq<char>)
    ensures
        is_normalized(normalize(s)),
        components(normalize(s)) == components(s),
{
    lemma_components_valid(s);
    lemma_components_of_join(components(s));
}

/// Joined components are normalized.
pub proof fn lemma_join_normalized(cs: Seq<Seq<char>>)
    requires
        all_components(cs),
    ensures
        is_normalized(join(cs)),
{
    lemma_components_of_join(cs);
}

/// `prefix` is what `steps` begins with.
pub open spec fn begins_with(steps: Seq<Seq<char>>, prefix: Seq<Seq<char>>) -> bool {
    prefix.len() <= steps.len() && steps.take(prefix.len() as int) == prefix
}

/// Reading on from a point where no run is in progress keeps the
/// components that were finished there, in their places.
proof fn lemma_scan_keeps(s: Seq<char>, x: Seq<char>)
    requires
        scan(s).1.len() == 0,
    ensures
        begins_with(scan(s + x).0, scan(s).0),
        begins_with(components(s + x), scan(s).0),
    decreases x.len(),
{
    let base = scan(s).0;
    if x.len() == 0 {
        assert(base.take(base.len() as int) =~= base);
    } else {
        let y = x.drop_last();
        lemma_scan_keeps(s, y);
        assert((s + x).drop_last() =~= s + y);
        assert(begins_with(components(s + x), base)) by {
            let (done2, run2) = scan(s + x);
            assert(flush(done2, run2).take(base.len() as int) =~= done2.take(base.len() as int));
        }
    }
}

/// The join of components falls into the join of the first `n`, a
/// separator, and the join of the rest.
proof fn lemma_join_split(cs: Seq<Seq<char>>, n: int)
    requires
        0 < n < cs.len(),
    ensures
        join(cs) == join(cs.take(n)).push(sep()) + join(cs.skip(n)),
    decreases cs.len(),
{
    let front = cs.drop_last();
    if n < cs.len() - 1 {
        lemma_join_split(front, n);
        assert(front.take(n) =~= cs.take(n));
        assert(front.skip(n) =~= cs.skip(n).drop_last());
    }
}

/// A path lies under a directory, in the sense that it begins with the
/// directory and a separator, exactly if it lies strictly below it: its
/// components begin with those of the directory and go on.
pub proof fn lemma_under_is_below(path: Seq<char>, dir: Seq<char>)
    requires
        is_normalized(path),
        is_normalized(dir),
        dir.len() > 0,
    ensures
        dir.push(sep()).is_prefix_of(path) <==> components(dir).len() < components(path).len()
            && begins_with(components(path), components(dir)),
{
    let cd = components(dir);
    let cp = components(path);
    lemma_components_valid(dir);
    let head = dir.push(sep());
    if head.is_prefix_of(path) {
        let rest = path.skip(head.len() as int);
        assert(path =~= head + rest);
        assert(head.drop_last() =~= dir);
        lemma_scan_keeps(head, rest);
    }
    if cd.len() < cp.len() && begins_with(cp, cd) {
        lemma_join_split(cp, cd.len() as int);
    }
}

/// The path without the separators at its two ends.
pub open spec fn cut(path: Seq<char>) -> Seq<char> {
    without_ends(path, sep())
}

/// Some part is empty.
pub open spec fn has_empty(parts: Seq<Seq<char>>) -> bool {
    exists|i: int| 0 <= i < parts.len() && (#[trigger] parts[i]).len() == 0
}

/// The steps that a path names from the root down. The separators at
/// its two ends are cut; if nothing is left, there are no steps, and the
/// path names the root. Else the steps are the parts between the
/// separators that are left, and the path names nothing where one of
/// these parts is empty.
pub open spec fn steps_of(path: Seq<char>) -> Option<Seq<Seq<char>>> {
    let inner = cut(path);
    if inner.len() == 0 {
        Some(Seq::empty())
    } else if has_empty(split(inner, sep())) {
        None
    } else {
        Some(split(inner, sep()))
    }
}

/// Splitting goes on in the last part while no separator comes.
proof fn lemma_split_run(s: Seq<char>, x: Seq<char>)
    requires
        forall|i: int| 0 <= i < x.len() ==> x[i] != sep(),
    ensures
        split(s, sep()).len() > 0,
        split(s + x, sep()) == split(s, sep()).update(
            split(s, sep()).len() - 1,
            split(s, sep()).last() + x,
        ),
    decreases x.len(),
{
    let parts = split(s, sep());
    lemma_split(s, sep());
    if x.len() == 0 {
        assert(s + x =~= s);
        assert(parts.last() + x =~= parts.last());
        assert(parts.update(parts.len() - 1, parts.last()) =~= parts);
    } else {
        let y = x.drop_last();
        lemma_split_run(s, y);
        assert((s + x).drop_last() =~= s + y);
        assert((parts.last() + y).push(x.last()) =~= parts.last() + x);
        assert(split(s + x, sep()) =~= parts.update(parts.len() - 1, parts.last() + x));
    }
}

/// Splitting undoes joining, too: the parts of joined components are
/// those components.
proof fn lemma_split_join(cs: Seq<Seq<char>>)
    requires
        all_components(cs),
        cs.len() > 0,
    ensures
        split(join(cs), sep()) == cs,
    decreases cs.len(),
{
    let none = Seq::<char>::empty();
    if cs.len() == 1 {
        lemma_split_run(none, cs[0]);
        assert(none + cs[0] =~= cs[0]);
        assert(split(none, sep()) =~= seq![none]);
        assert(seq![none].update(0, none + cs[0]) =~= cs);
    } else {
        let front = cs.drop_last();
        lemma_split_join(front);
        let head = join(front).push(sep());
        assert(head.drop_last() =~= join(front));
        assert(split(head, sep()) == front.push(none));
        lemma_split_run(head, cs.last());
        assert(none + cs.last() =~= cs.last());
        assert(front.push(none).update(front.len() as int, cs.last()) =~= cs);
    }
}

/// Joined components begin with the first character of the first and end
/// with the last character of the last.
proof fn lemma_join_ends(cs: Seq<Seq<char>>)
    requires
        all_components(cs),
        cs.len() > 0,
    ensures
        join(cs).len() > 0,
        join(cs)[0] == cs[0][0],
        join(cs).last() == cs.last().last(),
    decreases cs.len(),
{
    if cs.len() > 1 {
        lemma_join_ends(cs.drop_last());
    }
}

/// A normalized path names its components.
pub proof fn lemma_normalized_direct(path: Seq<char>)
    requires
        is_normalized(path),
    ensures
        steps_of(path) == Some(components(path)),
{
    lemma_normalized_ends(path);
    lemma_components_valid(path);
    let cs = components(path);
    if path.len() > 0 {
        assert(cut(path) =~= path);
        assert(cs.len() > 0) by {
            if cs.len() == 0 {
                assert(join(cs) =~= Seq::<char>::empty());
            }
        }
        lemma_split_join(cs);
    } else {
        assert(cs =~= Seq::<Seq<char>>::empty());
    }
}

/// A normalized path is cut of nothing: it neither begins nor ends with
/// a separator.
proof fn lemma_normalized_ends(path: Seq<char>)
    requires
        is_normalized(path),
    ensures
        leading_run(path, sep()) == 0,
        trailing_run(path, sep()) == 0,
        path.len() > 0 ==> path.last() != sep(),
{
    lemma_components_valid(path);
    lemma_leading_run(path, sep());
    let cs = components(path);
    if cs.len() > 0 {
        lemma_join_ends(cs);
    } else {
        assert(path =~= Seq::<char>::empty());
    }
}

/// A normalized path with a separator in front names the same steps.
pub proof fn lemma_rooted_direct(path: Seq<char>)
    requires
        is_normalized(path),
    ensures
        steps_of(seq![sep()] + path) == Some(components(path)),
{
    let with = seq![sep()] + path;
    lemma_normalized_direct(path);
    lemma_normalized_ends(path);
    lemma_leading_run_after(path, sep());
    if path.len() > 0 {
        assert(with.last() == path.last());
        assert(with.subrange(1, with.len() as int) =~= path);
        assert(cut(path) =~= path);
    }
}

/// Splits a path into the steps it names, unless an empty part stands
/// among them.
pub fn direct_steps(path: &str) -> (r: Option<Vec<String>>)
    ensures
        match r {
            Some(parts) => steps_of(path@) == Some(names(parts@)),
            None => steps_of(path@) is None,
        },
{
    let inner = trim_char(path, '/');
    if inner.is_empty() {
        let none: Vec<String> = Vec::new();
        assert(names(none@) =~= Seq::<Seq<char>>::empty());
        return Some(none);
    }
    let parts = split_parts(inner, '/');
    assert(names(parts@) =~= split(inner@, sep()));
    let mut i: usize = 0;
    while i < parts.len()
        invariant
            i <= parts.len(),
            cut(path@).len() > 0,
            names(parts@) == split(cut(path@), sep()),
            forall|j: int| 0 <= j < i ==> (#[trigger] names(parts@)[j]).len() > 0,
        decreases parts.len() - i,
    {
        if parts[i].as_str().is_empty() {
            assert(names(parts@)[i as int].len() == 0);
            return None;
        }
        i = i + 1;
    }
    Some(parts)
}

/// Splits a path into its components.
pub fn split_path(path: &str) -> (parts: Vec<String>)
    ensures
        names(parts@) == components(path@),
{

    let mut parts: Vec<String> = Vec::new();
    let mut run = String::new();
    let ghost i: int = 0;
    for ch in it: path.chars()
        invariant
            it.seq() == path@,
            i == it.index(),
            names(parts@) == scan(path@.take(i)).0,
            run@ == scan(path@.take(i)).1,
    {
        proof {
            assert(path@.take(i + 1).drop_last() =~= path@.take(i));
        }
        if ch == '/' {
            if !run.as_str().is_empty() {
                parts.push(run);
            }
            run = String::new();
        } else {
            run.push(ch);
        }
        proof {
            i = i + 1;
        }
    }
    proof {
        assert(path@.take(i) =~= path@);
    }
    if !run.as_str().is_empty() {
        parts.push(run);
    }
    parts
}

/// Joins the first `n` of the given components by single separators.
pub fn join_prefix(parts: &Vec<String>, n: usize) -> (path: String)
    requires
        n <= parts.len(),
    ensures
        path@ == join(names(parts@).take(n as int)),
{
    let mut path = String::new();
    let mut i: usize = 0;
    while i < n
        invariant
            i <= n <= parts.len(),
            path@ == join(names(parts@).take(i as int)),
        decreases n - i,
    {
        proof {
            reveal_strlit("/");
            let cs = names(parts@).take(i + 1);
            assert(cs.drop_last() =~= names(parts@).take(i as int));
        }
        if i > 0 {
            path.append("/");
        }
        path.append(parts[i].as_str());
        i = i + 1;
    }
    path
}

/// Joins the components by single separators.
pub fn join_path(parts: &Vec<String>) -> (path: String)
    ensures
        path@ == join(names(parts@)),
{
    proof {
        assert(names(parts@).take(parts@.len() as int) =~= names(parts@));
    }
    join_prefix(parts, parts.len())
}

/// Brings a path into its normal form.
pub fn normalize_path(path: &str) -> (normal: String)
    ensures
        normal@ == normalize(path@),
        is_normalized(normal@),
{
    proof {
        lemma_normalize(path@);
    }
    let parts = split_path(path);
    join_path(&parts)
}

} // verus!
