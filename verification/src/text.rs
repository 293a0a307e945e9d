//! Character-level helpers for `str`: ordering, prefixes and searching.
//!
//! Every contract here is stated over the view of a string, its sequence
//! of characters.

use vstd::prelude::*;
use vstd::std_specs::iter::IteratorSpec;
use vstd::string::StrSliceExecFns;

verus! {

/// `String::push` appends one character to the end of the string.
pub assume_specification[ String::push ](s: &mut String, ch: char)
    ensures
        final(s)@ == old(s)@.push(ch),
;

/// Strict lexicographic order on character sequences: characters compare
/// by code point, and a proper prefix comes before its extensions.
pub open spec fn lex_lt(a: Seq<char>, b: Seq<char>) -> bool
    decreases a.len(),
{
    if b.len() == 0 {
        false
    } else if a.len() == 0 {
        true
    } else if a[0] != b[0] {
        a[0] < b[0]
    } else {
        lex_lt(a.drop_first(), b.drop_first())
    }
}

/// Nothing comes before itself.
pub proof fn lemma_lex_lt_irreflexive(a: Seq<char>)
    ensures
        !lex_lt(a, a),
    decreases a.len(),
{
    if a.len() > 0 {
        lemma_lex_lt_irreflexive(a.drop_first());
    }
}

/// Of two sequences at most one comes before the other.
pub proof fn lemma_lex_lt_asymmetric(a: Seq<char>, b: Seq<char>)
    ensures
        !(lex_lt(a, b) && lex_lt(b, a)),
    decreases a.len(),
{
    if a.len() > 0 && b.len() > 0 && a[0] == b[0] {
        lemma_lex_lt_asymmetric(a.drop_first(), b.drop_first());
    }
}

/// Two different sequences are ordered one way or the other.
pub proof fn lemma_lex_lt_total(a: Seq<char>, b: Seq<char>)
    ensures
        a == b || lex_lt(a, b) || lex_lt(b, a),
    decreases a.len(),
{
    if a.len() > 0 && b.len() > 0 && a[0] == b[0] {
        lemma_lex_lt_total(a.drop_first(), b.drop_first());
        if a.drop_first() == b.drop_first() {
            assert(a =~= seq![a[0]] + a.drop_first());
        }
    }
}

/// The order is transitive.
pub proof fn lemma_lex_lt_transitive(a: Seq<char>, b: Seq<char>, c: Seq<char>)
    requires
        lex_lt(a, b),
        lex_lt(b, c),
    ensures
        lex_lt(a, c),
    decreases a.len(),
{
    if a.len() > 0 && a[0] == b[0] && b[0] == c[0] {
        lemma_lex_lt_transitive(a.drop_first(), b.drop_first(), c.drop_first());
    }
}

/// How one string stands to another in lexicographic order.
#[derive(Clone, Copy, Debug, PartialEq, Eq, Structural)]
pub enum Rank {
    Before,
    Same,
    After,
}

/// The rank of `a` relative to `b`.
pub open spec fn rank_of(a: Seq<char>, b: Seq<char>) -> Rank {
    if a == b {
        Rank::Same
    } else if lex_lt(a, b) {
        Rank::Before
    } else {
        Rank::After
    }
}

/// `After` means that the second sequence comes strictly first.
pub proof fn lemma_rank_after(a: Seq<char>, b: Seq<char>)
    ensures
        rank_of(a, b) == Rank::After <==> lex_lt(b, a),
{
    lemma_lex_lt_total(a, b);
    lemma_lex_lt_asymmetric(a, b);
}

/// Compares two strings character by character.
pub fn rank(a: &str, b: &str) -> (r: Rank)
    ensures
        r == rank_of(a@, b@),
{

    let mut ia = a.chars();
    let mut ib = b.chars();
    let ghost k: int = 0;
    proof {
        assert(a@.skip(0) =~= a@);
    }
    loop
        invariant
            0 <= k <= a@.len(),
            k <= b@.len(),
            ia.remaining() == a@.skip(k),
            ib.remaining() == b@.skip(k),
            rank_of(a@, b@) == rank_of(a@.skip(k), b@.skip(k)),
        decreases a@.len() - k,
    {
        let ghost ra = a@.skip(k);
        let ghost rb = b@.skip(k);
        let x = ia.next();
        let y = ib.next();
        proof {
            lemma_lex_lt_total(ra, rb);
        }
        match (x, y) {
            (None, None) => {
                return Rank::Same;
            },
            (None, Some(_)) => {
                return Rank::Before;
            },
            (Some(_), None) => {
                return Rank::After;
            },
            (Some(cx), Some(cy)) => {
                if cx != cy {
                    return if cx < cy {
                        Rank::Before
                    } else {
                        Rank::After
                    };
                }
                proof {
                    assert(ra =~= seq![cx] + ra.drop_first());
                    assert(rb =~= seq![cy] + rb.drop_first());
                    assert(ra.drop_first() =~= a@.skip(k + 1));
                    assert(rb.drop_first() =~= b@.skip(k + 1));
                    k = k + 1;
                }
            },
        }
    }
}

/// Tells whether two strings hold the same characters.
pub fn str_eq(a: &str, b: &str) -> (r: bool)
    ensures
        r == (a@ == b@),
{
    match rank(a, b) {
        Rank::Same => true,
        _ => false,
    }
}

/// Tells whether `s` begins with `prefix`.
pub fn starts_with(s: &str, prefix: &str) -> (r: bool)
    ensures
        r == prefix@.is_prefix_of(s@),
{

    let mut ip = prefix.chars();
    let mut is = s.chars();
    let ghost k: int = 0;
    loop
        invariant
            0 <= k <= prefix@.len(),
            k <= s@.len(),
            ip.remaining() == prefix@.skip(k),
            is.remaining() == s@.skip(k),
            prefix@.take(k) == s@.take(k),
        decreases prefix@.len() - k,
    {
        let x = ip.next();
        match x {
            None => {
                return true;
            },
            Some(cx) => {
                let y = is.next();
                match y {
                    None => {
                        return false;
                    },
                    Some(cy) => {
                        if cx != cy {
                            return false;
                        }
                        proof {
                            k = k + 1;
                        }
                    },
                }
            },
        }
    }
}

/// The index of the first occurrence of `c` in `s`, if there is one.
pub open spec fn first_position(s: Seq<char>, c: char) -> Option<int>
    decreases s.len(),
{
    if s.len() == 0 {
        None
    } else {
        match first_position(s.drop_last(), c) {
            Some(i) => Some(i),
            None => if s.last() == c {
                Some(s.len() - 1)
            } else {
                None
            },
        }
    }
}

/// The index of the last occurrence of `c` in `s`, if there is one.
pub open spec fn last_position(s: Seq<char>, c: char) -> Option<int>
    decreases s.len(),
{
    if s.len() == 0 {
        None
    } else if s.last() == c {
        Some(s.len() - 1)
    } else {
        last_position(s.drop_last(), c)
    }
}

/// What `first_position` finds: an occurrence with none before it, and
/// nothing exactly when the character does not occur.
pub proof fn lemma_first_position(s: Seq<char>, c: char)
    ensures
        match first_position(s, c) {
            Some(i) => 0 <= i < s.len() && s[i] == c && forall|j: int| 0 <= j < i ==> s[j] != c,
            None => forall|j: int| 0 <= j < s.len() ==> s[j] != c,
        },
    decreases s.len(),
{
    if s.len() > 0 {
        let t = s.drop_last();
        lemma_first_position(t, c);
        assert(forall|j: int| 0 <= j < t.len() ==> t[j] == s[j]);
    }
}

/// What `last_position` finds: an occurrence with none after it, and
/// nothing exactly when the character does not occur.
pub proof fn lemma_last_position(s: Seq<char>, c: char)
    ensures
        match last_position(s, c) {
            Some(i) => 0 <= i < s.len() && s[i] == c && forall|j: int|
                i < j < s.len() ==> s[j] != c,
            None => forall|j: int| 0 <= j < s.len() ==> s[j] != c,
        },
    decreases s.len(),
{
    if s.len() > 0 {
        let t = s.drop_last();
        lemma_last_position(t, c);
        assert(forall|j: int| 0 <= j < t.len() ==> t[j] == s[j]);
    }
}

/// Finds the first occurrence of `c` in `s`, counted in characters.
pub fn find_first(s: &str, c: char) -> (r: Option<usize>)
    ensures
        match r {
            Some(i) => first_position(s@, c) == Some(i as int),
            None => first_position(s@, c) is None,
        },
{

    let mut found: Option<usize> = None;
    let mut i: usize = 0;
    let n = s.unicode_len();
    for ch in it: s.chars()
        invariant
            it.seq() == s@,
            n == s@.len(),
            i == it.index(),
            match found {
                Some(j) => first_position(s@.take(i as int), c) == Some(j as int),
                None => first_position(s@.take(i as int), c) is None,
            },
    {
        proof {
            assert(s@.take(i + 1).drop_last() =~= s@.take(i as int));
        }
        if found.is_none() && ch == c {
            found = Some(i);
        }
        i = i + 1;
    }
    proof {
        assert(s@.take(i as int) =~= s@);
    }
    found
}

/// Finds the last occurrence of `c` in `s`, counted in characters.
pub fn find_last(s: &str, c: char) -> (r: Option<usize>)
    ensures
        match r {
            Some(i) => last_position(s@, c) == Some(i as int),
            None => last_position(s@, c) is None,
        },
{

    let mut found: Option<usize> = None;
    let mut i: usize = 0;
    let n = s.unicode_len();
    for ch in it: s.chars()
        invariant
            it.seq() == s@,
            n == s@.len(),
            i == it.index(),
            match found {
                Some(j) => last_position(s@.take(i as int), c) == Some(j as int),
                None => last_position(s@.take(i as int), c) is None,
            },
    {
        proof {
            assert(s@.take(i + 1).drop_last() =~= s@.take(i as int));
        }
        if ch == c {
            found = Some(i);
        }
        i = i + 1;
    }
    proof {
        assert(s@.take(i as int) =~= s@);
    }
    found
}

/// The parts of `s` between the occurrences of `sep`, empty parts among
/// them: one part more than `s` holds separators.
pub open spec fn split(s: Seq<char>, sep: char) -> Seq<Seq<char>>
    decreases s.len(),
{
    if s.len() == 0 {
        seq![Seq::empty()]
    } else {
        let front = split(s.drop_last(), sep);
        if s.last() == sep {
            front.push(Seq::empty())
        } else {
            front.update(front.len() - 1, front.last().push(s.last()))
        }
    }
}

/// There is always a part, and no part holds the separator.
pub proof fn lemma_split(s: Seq<char>, sep: char)
    ensures
        split(s, sep).len() > 0,
        forall|i: int, j: int|
            0 <= i < split(s, sep).len() && 0 <= j < split(s, sep)[i].len() ==> split(s, sep)[i][j]
                != sep,
    decreases s.len(),
{
    if s.len() > 0 {
        lemma_split(s.drop_last(), sep);
    }
}

/// Splits `s` at every `sep`.
pub fn split_parts(s: &str, sep: char) -> (parts: Vec<String>)
    ensures
        Seq::new(parts@.len(), |i: int| parts@[i]@) == split(s@, sep),
{

    let mut parts: Vec<String> = Vec::new();
    let mut run = String::new();
    let ghost i: int = 0;
    for ch in it: s.chars()
        invariant
            it.seq() == s@,
            i == it.index(),
            Seq::new(parts@.len(), |i: int| parts@[i]@).push(run@) == split(s@.take(i), sep),
    {
        proof {
            assert(s@.take(i + 1).drop_last() =~= s@.take(i));
        }
        if ch == sep {
            parts.push(run);
            run = String::new();
        } else {
            run.push(ch);
        }
        proof {
            i = i + 1;
        }
    }
    proof {
        assert(s@.take(i) =~= s@);
    }
    parts.push(run);
    parts
}

/// White space, as Unicode defines it.
pub open spec fn is_space(c: char) -> bool {
    ||| c == ' '
    ||| '\t' <= c <= '\r'
    ||| c == '\u{85}'
    ||| c == '\u{a0}'
    ||| c == '\u{1680}'
    ||| '\u{2000}' <= c <= '\u{200a}'
    ||| c == '\u{2028}'
    ||| c == '\u{2029}'
    ||| c == '\u{202f}'
    ||| c == '\u{205f}'
    ||| c == '\u{3000}'
}

/// Tells whether a character is white space.
pub fn space(c: char) -> (r: bool)
    ensures
        r == is_space(c),
{
    c == ' ' || ('\t' <= c && c <= '\r') || c == '\u{85}' || c == '\u{a0}' || c == '\u{1680}' || (
    '\u{2000}' <= c && c <= '\u{200a}') || c == '\u{2028}' || c == '\u{2029}' || c == '\u{202f}'
        || c == '\u{205f}' || c == '\u{3000}'
}

/// The number of white-space characters that `s` begins with.
pub open spec fn leading_spaces(s: Seq<char>) -> int
    decreases s.len(),
{
    if s.len() == 0 {
        0
    } else {
        let before = leading_spaces(s.drop_last());
        if before == s.len() - 1 && is_space(s.last()) {
            before + 1
        } else {
            before
        }
    }
}

/// The number of white-space characters that `s` ends with.
pub open spec fn trailing_spaces(s: Seq<char>) -> int
    decreases s.len(),
{
    if s.len() > 0 && is_space(s.last()) {
        1 + trailing_spaces(s.drop_last())
    } else {
        0
    }
}

/// `s` begins with `leading_spaces(s)` white-space characters and no
/// more.
pub proof fn lemma_leading_spaces(s: Seq<char>)
    ensures
        0 <= leading_spaces(s) <= s.len(),
        forall|j: int| 0 <= j < leading_spaces(s) ==> is_space(s[j]),
        leading_spaces(s) < s.len() ==> !is_space(s[leading_spaces(s)]),
    decreases s.len(),
{
    if s.len() > 0 {
        let t = s.drop_last();
        lemma_leading_spaces(t);
        assert(forall|j: int| 0 <= j < t.len() ==> t[j] == s[j]);
    }
}

/// `s` ends with `trailing_spaces(s)` white-space characters and no
/// more.
pub proof fn lemma_trailing_spaces(s: Seq<char>)
    ensures
        0 <= trailing_spaces(s) <= s.len(),
        forall|j: int| s.len() - trailing_spaces(s) <= j < s.len() ==> is_space(s[j]),
        trailing_spaces(s) < s.len() ==> !is_space(s[s.len() - trailing_spaces(s) - 1]),
    decreases s.len(),
{
    if s.len() > 0 {
        let t = s.drop_last();
        lemma_trailing_spaces(t);
        assert(forall|j: int| 0 <= j < t.len() ==> t[j] == s[j]);
    }
}

/// `s` without the white space at its two ends.
pub open spec fn trimmed(s: Seq<char>) -> Seq<char> {
    if leading_spaces(s) == s.len() {
        Seq::empty()
    } else {
        s.subrange(leading_spaces(s), s.len() - trailing_spaces(s))
    }
}

/// Cuts the white space off the two ends of `s`.
pub fn trim<'a>(s: &'a str) -> (r: &'a str)
    ensures
        r@ == trimmed(s@),
{

    let mut lead: usize = 0;
    let mut trail: usize = 0;
    let mut i: usize = 0;
    let n = s.unicode_len();
    for ch in it: s.chars()
        invariant
            it.seq() == s@,
            n == s@.len(),
            i == it.index(),
            lead == leading_spaces(s@.take(i as int)),
            trail == trailing_spaces(s@.take(i as int)),
            lead <= i,
            trail <= i,
    {
        proof {
            assert(s@.take(i + 1).drop_last() =~= s@.take(i as int));
        }
        if space(ch) {
            if lead == i {
                lead = lead + 1;
            }
            trail = trail + 1;
        } else {
            trail = 0;
        }
        i = i + 1;
    }
    proof {
        assert(s@.take(i as int) =~= s@);
        lemma_leading_spaces(s@);
        lemma_trailing_spaces(s@);
    }
    if lead == n {
        s.substring_char(0, 0)
    } else {
        s.substring_char(lead, n - trail)
    }
}

/// The number of times that `c` stands at the beginning of `s`.
pub open spec fn leading_run(s: Seq<char>, c: char) -> int
    decreases s.len(),
{
    if s.len() == 0 {
        0
    } else {
        let before = leading_run(s.drop_last(), c);
        if before == s.len() - 1 && s.last() == c {
            before + 1
        } else {
            before
        }
    }
}

/// The number of times that `c` stands at the end of `s`.
pub open spec fn trailing_run(s: Seq<char>, c: char) -> int
    decreases s.len(),
{
    if s.len() > 0 && s.last() == c {
        1 + trailing_run(s.drop_last(), c)
    } else {
        0
    }
}

/// `s` begins with `leading_run(s, c)` times `c` and no more.
pub proof fn lemma_leading_run(s: Seq<char>, c: char)
    ensures
        0 <= leading_run(s, c) <= s.len(),
        forall|j: int| 0 <= j < leading_run(s, c) ==> s[j] == c,
        leading_run(s, c) < s.len() ==> s[leading_run(s, c)] != c,
    decreases s.len(),
{
    if s.len() > 0 {
        let t = s.drop_last();
        lemma_leading_run(t, c);
        assert(forall|j: int| 0 <= j < t.len() ==> t[j] == s[j]);
    }
}

/// `s` ends with `trailing_run(s, c)` times `c` and no more.
pub proof fn lemma_trailing_run(s: Seq<char>, c: char)
    ensures
        0 <= trailing_run(s, c) <= s.len(),
        forall|j: int| s.len() - trailing_run(s, c) <= j < s.len() ==> s[j] == c,
        trailing_run(s, c) < s.len() ==> s[s.len() - trailing_run(s, c) - 1] != c,
    decreases s.len(),
{
    if s.len() > 0 {
        let t = s.drop_last();
        lemma_trailing_run(t, c);
        assert(forall|j: int| 0 <= j < t.len() ==> t[j] == s[j]);
    }
}

/// One more `c` in front is one more at the beginning.
pub proof fn lemma_leading_run_after(s: Seq<char>, c: char)
    ensures
        leading_run(seq![c] + s, c) == 1 + leading_run(s, c),
    decreases s.len(),
{
    let with = seq![c] + s;
    if s.len() == 0 {
        assert(with.drop_last() =~= s);
    } else {
        lemma_leading_run_after(s.drop_last(), c);
        assert(with.drop_last() =~= seq![c] + s.drop_last());
    }
}

/// `s` without the `c` at its two ends.
pub open spec fn without_ends(s: Seq<char>, c: char) -> Seq<char> {
    if leading_run(s, c) == s.len() {
        Seq::empty()
    } else {
        s.subrange(leading_run(s, c), s.len() - trailing_run(s, c))
    }
}

/// Cuts every `c` off the two ends of `s`.
pub fn trim_char<'a>(s: &'a str, c: char) -> (r: &'a str)
    ensures
        r@ == without_ends(s@, c),
{
    let mut lead: usize = 0;
    let mut trail: usize = 0;
    let mut i: usize = 0;
    let n = s.unicode_len();
    for ch in it: s.chars()
        invariant
            it.seq() == s@,
            n == s@.len(),
            i == it.index(),
            lead == leading_run(s@.take(i as int), c),
            trail == trailing_run(s@.take(i as int), c),
            lead <= i,
            trail <= i,
    {
        proof {
            assert(s@.take(i + 1).drop_last() =~= s@.take(i as int));
        }
        if ch == c {
            if lead == i {
                lead = lead + 1;
            }
            trail = trail + 1;
        } else {
            trail = 0;
        }
        i = i + 1;
    }
    proof {
        assert(s@.take(i as int) =~= s@);
        lemma_leading_run(s@, c);
        lemma_trailing_run(s@, c);
    }
    if lead == n {
        s.substring_char(0, 0)
    } else {
        s.substring_char(lead, n - trail)
    }
}

/// What follows `prefix` in `s`, if `s` begins with it.
pub open spec fn without_prefix(s: Seq<char>, prefix: Seq<char>) -> Option<Seq<char>> {
    if prefix.is_prefix_of(s) {
        Some(s.skip(prefix.len() as int))
    } else {
        None
    }
}

/// What stands before the last character of `s`, if that is `c`.
pub open spec fn without_last(s: Seq<char>, c: char) -> Option<Seq<char>> {
    if s.len() > 0 && s.last() == c {
        Some(s.drop_last())
    } else {
        None
    }
}

/// Takes `prefix` off the front of `s`.
pub fn strip_prefix<'a>(s: &'a str, prefix: &str) -> (r: Option<&'a str>)
    ensures
        match r {
            Some(rest) => without_prefix(s@, prefix@) == Some(rest@),
            None => without_prefix(s@, prefix@) is None,
        },
{
    if starts_with(s, prefix) {
        let rest = s.substring_char(prefix.unicode_len(), s.unicode_len());
        Some(rest)
    } else {
        None
    }
}

/// Takes the character `c` off the end of `s`.
pub fn strip_last<'a>(s: &'a str, c: char) -> (r: Option<&'a str>)
    ensures
        match r {
            Some(rest) => without_last(s@, c) == Some(rest@),
            None => without_last(s@, c) is None,
        },
{
    let n = s.unicode_len();
    proof {
        lemma_last_position(s@, c);
    }
    match find_last(s, c) {
        Some(i) => {
            if i + 1 == n {
                let rest = s.substring_char(0, i);
                Some(rest)
            } else {
                None
            }
        },
        None => None,
    }
}

} // verus!
