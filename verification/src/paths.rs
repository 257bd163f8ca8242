//! Path-string structure: separator depth, parent prefix, base name,
//! extension, ASCII lowercasing and substring markers.
//!
//! A path is a plain string; components are separated by `/`. The parent of
//! a path is everything before its last separator (none when it has no
//! separator), the name is everything after it.

use vstd::prelude::*;
use vstd::string::StrSliceExecFns;

verus! {

/// Number of separator characters in a path; the depth used to order the
/// bottom-up size aggregation.
pub open spec fn depth_of(p: Seq<char>) -> nat
    decreases p.len(),
{
    if p.len() == 0 {
        0
    } else {
        depth_of(p.drop_last()) + if p.last() == '/' {
            1nat
        } else {
            0nat
        }
    }
}

/// The parent prefix of a path: everything before the last separator.
pub open spec fn parent_of(p: Seq<char>) -> Option<Seq<char>>
    decreases p.len(),
{
    if p.len() == 0 {
        None
    } else if p.last() == '/' {
        Some(p.drop_last())
    } else {
        parent_of(p.drop_last())
    }
}

/// The base name of a path: everything after the last separator.
pub open spec fn name_of(p: Seq<char>) -> Seq<char>
    decreases p.len(),
{
    if p.len() == 0 {
        p
    } else if p.last() == '/' {
        Seq::empty()
    } else {
        name_of(p.drop_last()).push(p.last())
    }
}

/// A parent lies strictly above its child: it holds one separator fewer.
pub proof fn lemma_parent_depth(p: Seq<char>)
    requires
        parent_of(p) is Some,
    ensures
        depth_of(parent_of(p)->Some_0) < depth_of(p),
    decreases p.len(),
{
    if p.len() > 0 && p.last() != '/' {
        lemma_parent_depth(p.drop_last());
    }
}

/// Relates the recursive definitions to the index `k` of the last separator.
pub proof fn lemma_split_at_last_slash(p: Seq<char>, k: int)
    requires
        0 <= k < p.len(),
        p[k] == '/',
        forall|j: int| k < j < p.len() ==> p[j] != '/',
    ensures
        parent_of(p) == Some(p.take(k)),
        name_of(p) == p.skip(k + 1),
    decreases p.len(),
{
    if k == p.len() - 1 {
        assert(p.drop_last() =~= p.take(k));
        assert(name_of(p) =~= p.skip(k + 1));
    } else {
        lemma_split_at_last_slash(p.drop_last(), k);
        assert(p.drop_last().take(k) =~= p.take(k));
        assert(p.drop_last().skip(k + 1).push(p.last()) =~= p.skip(k + 1));
    }
}

/// When a path holds no separator it is its own name and has no parent.
pub proof fn lemma_no_slash(p: Seq<char>)
    requires
        forall|j: int| 0 <= j < p.len() ==> p[j] != '/',
    ensures
        parent_of(p) is None,
        name_of(p) == p,
        depth_of(p) == 0,
    decreases p.len(),
{
    if p.len() > 0 {
        lemma_no_slash(p.drop_last());
        assert(name_of(p.drop_last()).push(p.last()) =~= p);
    }
}

/// The extension of a base name: what follows its last dot, provided that
/// dot is not the leading character (a leading dot marks a hidden name).
pub open spec fn ext_of_name(n: Seq<char>) -> Option<Seq<char>>
    decreases n.len(),
{
    if n.len() <= 1 {
        None
    } else if n.last() == '.' {
        Some(Seq::empty())
    } else {
        match ext_of_name(n.drop_last()) {
            Option::None => None,
            Option::Some(e) => Some(e.push(n.last())),
        }
    }
}

/// ASCII lowercasing of one character; everything outside `A`..`Z` is kept.
pub open spec fn lower_char(c: char) -> char {
    if 'A' <= c && c <= 'Z' {
        (((c as u8) + 32) as char)
    } else {
        c
    }
}

/// ASCII lowercasing of a character sequence.
pub open spec fn lower_seq(s: Seq<char>) -> Seq<char> {
    s.map_values(|c: char| lower_char(c))
}

/// The needle occurs in the haystack starting at offset `i`.
pub open spec fn is_match_at(h: Seq<char>, n: Seq<char>, i: int) -> bool {
    0 <= i && i + n.len() <= h.len() && h.subrange(i, i + n.len() as int) == n
}

/// The needle occurs somewhere in the haystack.
pub open spec fn contains_seq(h: Seq<char>, n: Seq<char>) -> bool {
    exists|i: int| is_match_at(h, n, i)
}

/// Lexicographic order on character sequences, by code point.
pub open spec fn lex_le(a: Seq<char>, b: Seq<char>) -> bool
    decreases a.len(),
{
    if a.len() == 0 {
        true
    } else if b.len() == 0 {
        false
    } else if a[0] < b[0] {
        true
    } else if a[0] > b[0] {
        false
    } else {
        lex_le(a.drop_first(), b.drop_first())
    }
}

/// Any two sequences are lexicographically comparable.
pub proof fn lemma_lex_total(a: Seq<char>, b: Seq<char>)
    ensures
        lex_le(a, b) || lex_le(b, a),
    decreases a.len(),
{
    if a.len() > 0 && b.len() > 0 && a[0] == b[0] {
        lemma_lex_total(a.drop_first(), b.drop_first());
    }
}

/// Sequences below one another are equal.
pub proof fn lemma_lex_antisymmetric(a: Seq<char>, b: Seq<char>)
    requires
        lex_le(a, b),
        lex_le(b, a),
    ensures
        a == b,
    decreases a.len(),
{
    if a.len() == 0 {
        assert(b.len() == 0);
        assert(a =~= b);
    } else {
        assert(b.len() > 0);
        assert(a[0] == b[0]);
        lemma_lex_antisymmetric(a.drop_first(), b.drop_first());
        assert forall|i: int| 0 <= i < a.len() implies a[i] == b[i] by {
            if i > 0 {
                assert(a[i] == a.drop_first()[i - 1]);
                assert(b[i] == b.drop_first()[i - 1]);
            }
        }
        assert(a =~= b);
    }
}

/// The order is transitive.
pub proof fn lemma_lex_transitive(a: Seq<char>, b: Seq<char>, c: Seq<char>)
    requires
        lex_le(a, b),
        lex_le(b, c),
    ensures
        lex_le(a, c),
    decreases a.len(),
{
    if a.len() > 0 && b.len() > 0 && c.len() > 0 && a[0] == b[0] && b[0] == c[0] {
        lemma_lex_transitive(a.drop_first(), b.drop_first(), c.drop_first());
    }
}

/// The lowercase extension a path carries: the lowercased tail of its base
/// name after the last dot, unless that dot leads the name.
pub open spec fn extension_of(p: Seq<char>) -> Option<Seq<char>> {
    match ext_of_name(name_of(p)) {
        Option::None => None,
        Option::Some(e) => Some(lower_seq(e)),
    }
}

/// Relates `ext_of_name` to the index `k` of the last dot in a name.
pub proof fn lemma_ext_split(n: Seq<char>, k: int)
    requires
        0 <= k < n.len(),
        n[k] == '.',
        forall|j: int| k < j < n.len() ==> n[j] != '.',
    ensures
        ext_of_name(n) == if k >= 1 {
            Some(n.skip(k + 1))
        } else {
            Option::<Seq<char>>::None
        },
    decreases n.len(),
{
    if k == n.len() - 1 {
        if n.len() > 1 {
            assert(n.skip(k + 1) =~= Seq::<char>::empty());
        }
    } else {
        lemma_ext_split(n.drop_last(), k);
        if k >= 1 {
            assert(n.drop_last().skip(k + 1).push(n.last()) =~= n.skip(k + 1));
        }
    }
}

/// A name without a dot has no extension.
pub proof fn lemma_no_dot(n: Seq<char>)
    requires
        forall|j: int| 0 <= j < n.len() ==> n[j] != '.',
    ensures
        ext_of_name(n) is None,
    decreases n.len(),
{
    if n.len() > 1 {
        lemma_no_dot(n.drop_last());
    }
}

/// ASCII-lowercases a string, leaving characters outside `A`..`Z` alone.
pub fn to_lower(s: &str) -> (r: String)
    ensures
        r@ == lower_seq(s@),
{
    let n = s.unicode_len();
    let mut r = String::new();
    let mut i: usize = 0;
    while i < n
        invariant
            n == s@.len(),
            i <= n,
            r@ == lower_seq(s@.take(i as int)),
        decreases n - i,
    {
        let c = s.get_char(i);
        let lc: char = if c >= 'A' && c <= 'Z' {
            (((c as u8) + 32) as char)
        } else {
            c
        };
        proof {
            assert(lc == lower_char(s@[i as int]));
            assert(lower_seq(s@.take(i as int)).push(lc) =~= lower_seq(s@.take(i as int + 1)));
        }
        r.push(lc);
        i = i + 1;
    }
    proof {
        assert(s@.take(n as int) =~= s@);
    }
    r
}

/// Splits a path into its parent prefix and its base name.
pub fn split_path(p: &str) -> (r: (Option<String>, String))
    ensures
        r.1@ == name_of(p@),
        match r.0 {
            Option::Some(q) => parent_of(p@) == Some(q@),
            Option::None => parent_of(p@) is None,
        },
{
    let n = p.unicode_len();
    let mut i: usize = n;
    while i > 0
        invariant
            n == p@.len(),
            i <= n,
            forall|j: int| i <= j < n ==> p@[j] != '/',
        decreases i,
    {
        if p.get_char(i - 1) == '/' {
            let parent = p.substring_char(0, i - 1).to_owned();
            let name = p.substring_char(i, n).to_owned();
            proof {
                lemma_split_at_last_slash(p@, i - 1);
                assert(parent@ =~= p@.take(i - 1));
                assert(name@ =~= p@.skip(i as int));
            }
            return (Some(parent), name);
        }
        i = i - 1;
    }
    proof {
        lemma_no_slash(p@);
    }
    (None, p.to_owned())
}

/// The lowercase extension of a path, or nothing when its base name carries
/// none.
pub fn get_extension(path: &str) -> (r: Option<String>)
    ensures
        match r {
            Option::Some(e) => extension_of(path@) == Some(e@),
            Option::None => extension_of(path@) is None,
        },
{
    let (_parent, name) = split_path(path);
    let n = name.as_str().unicode_len();
    let mut i: usize = n;
    while i > 0
        invariant
            name@ == name_of(path@),
            n == name@.len(),
            i <= n,
            forall|j: int| i <= j < n ==> name@[j] != '.',
        decreases i,
    {
        if name.as_str().get_char(i - 1) == '.' {
            proof {
                lemma_ext_split(name@, i - 1);
            }
            if i >= 2 {
                let raw = name.as_str().substring_char(i, n);
                proof {
                    assert(raw@ =~= name@.skip(i as int));
                }
                return Some(to_lower(raw));
            } else {
                return None;
            }
        }
        i = i - 1;
    }
    proof {
        lemma_no_dot(name@);
    }
    None
}

/// Whether the needle occurs anywhere in the haystack.
pub fn contains_sub(h: &str, n: &str) -> (b: bool)
    ensures
        b == contains_seq(h@, n@),
{
    let hl = h.unicode_len();
    let nl = n.unicode_len();
    if nl > hl {
        proof {
            assert forall|x: int| !is_match_at(h@, n@, x) by {}
        }
        return false;
    }
    if nl == 0 {
        proof {
            assert(h@.subrange(0, 0) =~= n@);
            assert(is_match_at(h@, n@, 0));
        }
        return true;
    }
    let mut i: usize = 0;
    while i <= hl - nl
        invariant
            hl == h@.len(),
            nl == n@.len(),
            1 <= nl <= hl,
            i <= hl - nl + 1,
            forall|x: int| 0 <= x < i ==> !is_match_at(h@, n@, x),
        decreases hl - nl - i + 1,
    {
        let mut j: usize = 0;
        let mut ok = true;
        while j < nl
            invariant
                hl == h@.len(),
                nl == n@.len(),
                i + nl <= hl,
                j <= nl,
                ok ==> forall|y: int| 0 <= y < j ==> h@[i + y] == n@[y],
                !ok ==> !is_match_at(h@, n@, i as int),
            decreases nl - j,
        {
            if h.get_char(i + j) != n.get_char(j) {
                proof {
                    if is_match_at(h@, n@, i as int) {
                        assert(h@.subrange(i as int, i + nl as int)[j as int] == h@[i + j]);
                    }
                }
                ok = false;
                j = nl;
            } else {
                j = j + 1;
            }
        }
        if ok {
            proof {
                assert(h@.subrange(i as int, i + nl as int) =~= n@);
                assert(is_match_at(h@, n@, i as int));
            }
            return true;
        }
        i = i + 1;
    }
    proof {
        assert forall|x: int| !is_match_at(h@, n@, x) by {
            if 0 <= x && x + nl <= hl {
                assert(x < i);
            }
        }
    }
    false
}

/// Lexicographic comparison of two strings, by code point.
pub fn lex_le_exec(a: &str, b: &str) -> (r: bool)
    ensures
        r == lex_le(a@, b@),
{
    let al = a.unicode_len();
    let bl = b.unicode_len();
    let mut i: usize = 0;
    proof {
        assert(a@.skip(0) =~= a@);
        assert(b@.skip(0) =~= b@);
    }
    loop
        invariant
            al == a@.len(),
            bl == b@.len(),
            i <= al,
            i <= bl,
            lex_le(a@, b@) == lex_le(a@.skip(i as int), b@.skip(i as int)),
        decreases al - i,
    {
        if i >= al {
            return true;
        }
        if i >= bl {
            return false;
        }
        let ca = a.get_char(i);
        let cb = b.get_char(i);
        if (ca as u32) < (cb as u32) {
            return true;
        }
        if (ca as u32) > (cb as u32) {
            return false;
        }
        proof {
            assert(a@.skip(i as int)[0] == a@[i as int]);
            assert(b@.skip(i as int)[0] == b@[i as int]);
            assert(a@.skip(i as int).drop_first() =~= a@.skip(i as int + 1));
            assert(b@.skip(i as int).drop_first() =~= b@.skip(i as int + 1));
        }
        i = i + 1;
    }
}

/// The number of separators in a path.
pub fn depth_exec(p: &str) -> (d: usize)
    ensures
        d == depth_of(p@),
{
    let n = p.unicode_len();
    let mut d: usize = 0;
    let mut i: usize = 0;
    while i < n
        invariant
            n == p@.len(),
            i <= n,
            d <= i,
            d == depth_of(p@.take(i as int)),
        decreases n - i,
    {
        proof {
            assert(p@.take(i as int + 1).drop_last() =~= p@.take(i as int));
            assert(p@.take(i as int + 1).last() == p@[i as int]);
        }
        if p.get_char(i) == '/' {
            d = d + 1;
        }
        i = i + 1;
    }
    proof {
        assert(p@.take(n as int) =~= p@);
    }
    d
}

/// Whether a string begins with the given character.
pub fn starts_with_char(s: &str, c: char) -> (r: bool)
    ensures
        r == (s@.len() > 0 && s@[0] == c),
{
    if s.unicode_len() == 0 {
        false
    } else {
        s.get_char(0) == c
    }
}

} // verus!
