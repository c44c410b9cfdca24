//! Verified text utilities over `Seq<char>` views: substring search, prefix
//! tests, path basename and extension extraction, ASCII-case-insensitive
//! comparison and separator splitting.

use vstd::prelude::*;

verus! {

use vstd::string::*;

/// `t` occurs in `s` starting at index `i`.
pub open spec fn contains_at(s: Seq<char>, t: Seq<char>, i: int) -> bool {
    0 <= i && i + t.len() <= s.len() && s.subrange(i, i + t.len()) == t
}

/// `t` occurs somewhere in `s` (anywhere-substring match).
pub open spec fn has_substring(s: Seq<char>, t: Seq<char>) -> bool {
    exists|i: int| contains_at(s, t, i)
}

/// The characters of `s`, in order, as a vector.
pub fn chars_of(s: &str) -> (r: Vec<char>)
    ensures
        r@ == s@,
{
    let n = s.unicode_len();
    let mut r: Vec<char> = Vec::new();
    let mut i: usize = 0;
    while i < n
        invariant
            i <= n,
            n == s@.len(),
            r@ == s@.subrange(0, i as int),
        decreases n - i,
    {
        let c = s.get_char(i);
        r.push(c);
        proof {
            assert(r@ =~= s@.subrange(0, i + 1));
        }
        i = i + 1;
    }
    proof {
        assert(s@.subrange(0, n as int) =~= s@);
    }
    r
}

/// Whether `t` occurs in `s` at position `i`.
pub fn chars_match_at(s: &Vec<char>, t: &Vec<char>, i: usize) -> (r: bool)
    requires
        i + t@.len() <= s@.len(),
    ensures
        r == contains_at(s@, t@, i as int),
{
    let n = s.len();
    let m = t.len();
    let mut j: usize = 0;
    while j < m
        invariant
            j <= m,
            n == s@.len(),
            m == t@.len(),
            i + m <= n,
            forall|k: int| 0 <= k < j ==> s@[i + k] == t@[k],
        decreases m - j,
    {
        if s[i + j] != t[j] {
            proof {
                assert(s@.subrange(i as int, i + m) != t@) by {
                    assert(s@.subrange(i as int, i + m)[j as int] != t@[j as int]);
                }
            }
            return false;
        }
        j = j + 1;
    }
    proof {
        assert(s@.subrange(i as int, i + m) =~= t@);
    }
    true
}

/// Anywhere-substring search.
pub fn chars_contain(s: &Vec<char>, t: &Vec<char>) -> (r: bool)
    ensures
        r == has_substring(s@, t@),
{
    let n = s.len();
    let m = t.len();
    if m > n {
        proof {
            assert(forall|i: int| !contains_at(s@, t@, i));
        }
        return false;
    }
    if m == 0 {
        proof {
            assert(s@.subrange(0, 0) =~= t@);
            assert(contains_at(s@, t@, 0));
        }
        return true;
    }
    let mut i: usize = 0;
    while i <= n - m
        invariant
            1 <= m <= n,
            n == s@.len(),
            m == t@.len(),
            i <= n - m + 1,
            forall|j: int| 0 <= j < i ==> !contains_at(s@, t@, j),
        decreases n - i,
    {
        if chars_match_at(s, t, i) {
            return true;
        }
        i = i + 1;
    }
    proof {
        assert(forall|j: int| j > n - m ==> !contains_at(s@, t@, j));
    }
    false
}

/// Anywhere-substring search on string slices.
pub fn contains_substring(s: &str, t: &str) -> (r: bool)
    ensures
        r == has_substring(s@, t@),
{
    let sv = chars_of(s);
    let tv = chars_of(t);
    chars_contain(&sv, &tv)
}

/// Whether `p` is a prefix of `s`.
pub fn chars_prefix(s: &Vec<char>, p: &Vec<char>) -> (r: bool)
    ensures
        r == p@.is_prefix_of(s@),
{
    if p.len() > s.len() {
        return false;
    }
    let r = chars_match_at(s, p, 0);
    proof {
        if contains_at(s@, p@, 0) {
            assert(p@.is_prefix_of(s@));
        } else {
            assert(!(s@.subrange(0, p@.len() as int) == p@));
            assert(!p@.is_prefix_of(s@));
        }
    }
    r
}

/// Character-for-character equality of two string slices.
pub fn str_eq(a: &str, b: &str) -> (r: bool)
    ensures
        r == (a@ == b@),
{
    let av = chars_of(a);
    let bv = chars_of(b);
    if av.len() != bv.len() {
        return false;
    }
    let r = chars_match_at(&av, &bv, 0);
    proof {
        assert(a@.subrange(0, a@.len() as int) =~= a@);
    }
    r
}

/// Whether `p` is a prefix of `s`, on string slices.
pub fn str_starts_with(s: &str, p: &str) -> (r: bool)
    ensures
        r == p@.is_prefix_of(s@),
{
    let sv = chars_of(s);
    let pv = chars_of(p);
    chars_prefix(&sv, &pv)
}

/// A prefix agrees with the whole at every index it covers.
pub proof fn lemma_prefix_index(x: Seq<char>, y: Seq<char>)
    requires
        x.is_prefix_of(y),
    ensures
        x.len() <= y.len(),
        forall|i: int| 0 <= i < x.len() ==> x[i] == y[i],
{
    assert(forall|i: int| 0 <= i < x.len() ==> x[i] == y.subrange(0, x.len() as int)[i]);
}

/// Prefix of a prefix.
pub proof fn lemma_prefix_trans(a: Seq<char>, b: Seq<char>, c: Seq<char>)
    requires
        a.is_prefix_of(b),
        b.is_prefix_of(c),
    ensures
        a.is_prefix_of(c),
{
    lemma_prefix_index(a, b);
    lemma_prefix_index(b, c);
    assert(a =~= c.subrange(0, a.len() as int));
}

/// A sequence is a prefix of itself extended.
pub proof fn lemma_prefix_extend(x: Seq<char>, t: Seq<char>)
    ensures
        x.is_prefix_of(x + t),
{
    assert(x =~= (x + t).subrange(0, x.len() as int));
}

/// The final path segment: everything after the last `/`, or the whole
/// string when no `/` occurs.
pub open spec fn spec_basename(p: Seq<char>) -> Seq<char> {
    match p.index_of_last('/') {
        Some(i) => p.subrange(i + 1, p.len() as int),
        None => p,
    }
}

/// Index of the last occurrence of `c` in `v`, scanning the whole vector.
pub fn find_last(v: &Vec<char>, c: char) -> (r: Option<usize>)
    ensures
        r is Some <==> v@.index_of_last(c) is Some,
        r is Some ==> r->0 == v@.index_of_last(c)->0,
{
    let n = v.len();
    let mut i: usize = n;
    proof {
        v@.index_of_last_ensures(c);
    }
    while i > 0
        invariant
            i <= n,
            n == v@.len(),
            forall|k: int| i <= k < n ==> v@[k] != c,
            v@.index_of_last(c) is Some ==> 0 <= v@.index_of_last(c)->0 < v@.len()
                && v@[v@.index_of_last(c)->0] == c,
            v@.index_of_last(c) is None ==> !v@.contains(c),
            v@.contains(c) && v@.index_of_last(c) is Some ==> forall|j: int|
                v@.index_of_last(c)->0 < j < v@.len() ==> v@[j] != c,
        decreases i,
    {
        if v[i - 1] == c {
            proof {
                assert(v@.contains(c));
                let w = v@.index_of_last(c)->0;
                assert(v@[i - 1] == c);
                if w < i - 1 {
                    assert(v@[i - 1] != c);
                }
                if w > i - 1 {
                    assert(v@[w] != c);
                }
                assert(w == i - 1);
            }
            return Some(i - 1);
        }
        i = i - 1;
    }
    proof {
        if v@.index_of_last(c) is Some {
            let w = v@.index_of_last(c)->0;
            assert(v@[w] != c);
        }
    }
    None
}

/// Extracts the final path segment as an owned string.
pub fn basename_of(p: &str) -> (r: String)
    ensures
        r@ == spec_basename(p@),
{
    let v = chars_of(p);
    let n = v.len();
    proof {
        p@.index_of_last_ensures('/');
    }
    match find_last(&v, '/') {
        Some(i) => {
            let piece = p.substring_char(i + 1, n);
            piece.to_owned()
        },
        None => p.to_owned(),
    }
}

/// The extension of a path: the part of the basename after its last `.`,
/// provided that `.` is not the basename's first character. `None` when the
/// basename holds no such dot.
pub open spec fn spec_extension(p: Seq<char>) -> Option<Seq<char>> {
    let b = spec_basename(p);
    match b.index_of_last('.') {
        Some(i) => if i > 0 {
            Some(b.subrange(i + 1, b.len() as int))
        } else {
            None
        },
        None => None,
    }
}

/// Extracts the extension as an owned string, mirroring [`spec_extension`].
pub fn extension_of(p: &str) -> (r: Option<String>)
    ensures
        match spec_extension(p@) {
            Some(e) => r is Some && r->0@ == e,
            None => r is None,
        },
{
    let b = basename_of(p);
    let bv = chars_of(b.as_str());
    let n = bv.len();
    proof {
        b@.index_of_last_ensures('.');
    }
    match find_last(&bv, '.') {
        Some(i) => {
            if i > 0 {
                let piece = b.as_str().substring_char(i + 1, n);
                Some(piece.to_owned())
            } else {
                None
            }
        },
        None => None,
    }
}

/// `c` equals lowercase target `l` up to ASCII case folding.
pub open spec fn lower_char_eq(c: char, l: char) -> bool {
    c == l || (65 <= c as u32 <= 90 && c as u32 + 32 == l as u32)
}

/// `e` equals `t` (an ASCII-lowercase word) up to ASCII case folding.
pub open spec fn lower_matches(e: Seq<char>, t: Seq<char>) -> bool {
    e.len() == t.len() && forall|i: int| 0 <= i < e.len() ==> lower_char_eq(e[i], t[i])
}

/// ASCII-case-insensitive comparison of `e` against a lowercase target `t`.
pub fn eq_ignore_ascii_case(e: &Vec<char>, t: &str) -> (r: bool)
    ensures
        r == lower_matches(e@, t@),
{
    let tv = chars_of(t);
    let n = e.len();
    if n != tv.len() {
        return false;
    }
    let mut i: usize = 0;
    while i < n
        invariant
            i <= n,
            n == e@.len(),
            n == tv@.len(),
            tv@ == t@,
            forall|k: int| 0 <= k < i ==> lower_char_eq(e@[k], t@[k]),
        decreases n - i,
    {
        let c = e[i];
        let l = tv[i];
        let same = if c == l {
            true
        } else {
            let cu = c as u32;
            let lu = l as u32;
            65 <= cu && cu <= 90 && cu + 32 == lu
        };
        if !same {
            proof {
                assert(!lower_char_eq(e@[i as int], t@[i as int]));
            }
            return false;
        }
        i = i + 1;
    }
    true
}

/// Split on a separator character; `n` separators yield `n + 1` pieces.
pub open spec fn spec_split(s: Seq<char>, sep: char) -> Seq<Seq<char>>
    decreases s.len(),
{
    if s.len() == 0 {
        seq![Seq::<char>::empty()]
    } else if s[0] == sep {
        seq![Seq::<char>::empty()] + spec_split(s.skip(1), sep)
    } else {
        let rest = spec_split(s.skip(1), sep);
        seq![seq![s[0]] + rest[0]] + rest.skip(1)
    }
}

/// A split has at least one piece.
pub proof fn lemma_split_len(s: Seq<char>, sep: char)
    ensures
        spec_split(s, sep).len() >= 1,
    decreases s.len(),
{
    if s.len() != 0 {
        lemma_split_len(s.skip(1), sep);
    }
}

/// When `s` has no separator, the split is `s` alone.
pub proof fn lemma_split_none(s: Seq<char>, sep: char)
    requires
        forall|k: int| 0 <= k < s.len() ==> s[k] != sep,
    ensures
        spec_split(s, sep) =~= seq![s],
    decreases s.len(),
{
    if s.len() == 0 {
        assert(s =~= Seq::<char>::empty());
        assert(spec_split(s, sep) =~= seq![s]);
    } else {
        assert(s[0] != sep);
        assert(forall|k: int| 0 <= k < s.skip(1).len() ==> s.skip(1)[k] != sep);
        lemma_split_none(s.skip(1), sep);
        let rest = spec_split(s.skip(1), sep);
        assert(rest =~= seq![s.skip(1)]);
        assert(rest[0] == s.skip(1));
        assert(rest.skip(1) =~= Seq::<Seq<char>>::empty());
        assert(seq![s[0]] + s.skip(1) =~= s);
        assert(spec_split(s, sep) =~= seq![seq![s[0]] + rest[0]] + rest.skip(1));
        assert(spec_split(s, sep) =~= seq![s]);
    }
}

/// When the first separator of `s` sits at `i`, the split is the piece before
/// it followed by the split of what comes after it.
pub proof fn lemma_split_at_first(s: Seq<char>, sep: char, i: int)
    requires
        0 <= i < s.len(),
        s[i] == sep,
        forall|k: int| 0 <= k < i ==> s[k] != sep,
    ensures
        spec_split(s, sep) =~= seq![s.subrange(0, i)] + spec_split(
            s.skip(i + 1),
            sep,
        ),
    decreases i,
{
    if i == 0 {
        assert(s.subrange(0, 0) =~= Seq::<char>::empty());
        assert(s.skip(1) =~= s.skip(i + 1));
    } else {
        let t = s.skip(1);
        assert(t[i - 1] == sep);
        assert(forall|k: int| 0 <= k < i - 1 ==> t[k] != sep);
        lemma_split_at_first(t, sep, i - 1);
        lemma_split_len(t.skip(i), sep);
        assert(t.skip(i) =~= s.skip(i + 1));
        assert(seq![s[0]] + t.subrange(0, i - 1) =~= s.subrange(0, i));
        assert(spec_split(s, sep) =~= seq![s.subrange(0, i)] + spec_split(s.skip(i + 1), sep));
    }
}

/// Splits a string on a separator character.
pub fn split_char(s: &str, sep: char) -> (r: Vec<String>)
    ensures
        r.deep_view() == spec_split(s@, sep),
{
    let v = chars_of(s);
    let n = v.len();
    let mut r: Vec<String> = Vec::new();
    let mut seg_start: usize = 0;
    let mut i: usize = 0;
    proof {
        assert(r.deep_view() =~= Seq::<Seq<char>>::empty());
        assert(s@.skip(0) =~= s@);
        assert(spec_split(s@, sep) =~= r.deep_view() + spec_split(s@.skip(0), sep));
    }
    while i < n
        invariant
            seg_start <= i <= n,
            n == v@.len(),
            v@ == s@,
            forall|k: int| seg_start <= k < i ==> v@[k] != sep,
            spec_split(s@, sep) =~= r.deep_view() + spec_split(s@.skip(seg_start as int), sep),
        decreases n - i,
    {
        if v[i] == sep {
            let piece = s.substring_char(seg_start, i);
            proof {
                let tail = s@.skip(seg_start as int);
                assert(tail[i - seg_start] == sep);
                assert(forall|k: int| 0 <= k < i - seg_start ==> tail[k] != sep);
                lemma_split_at_first(tail, sep, i - seg_start);
                assert(tail.subrange(0, i - seg_start) =~= s@.subrange(
                    seg_start as int,
                    i as int,
                ));
                assert(tail.skip(i - seg_start + 1) =~= s@.skip(i + 1));
            }
            r.push(piece.to_owned());
            proof {
                assert(spec_split(s@, sep) =~= r.deep_view() + spec_split(s@.skip(i + 1), sep));
            }
            seg_start = i + 1;
        }
        i = i + 1;
    }
    let piece = s.substring_char(seg_start, n);
    proof {
        let tail = s@.skip(seg_start as int);
        assert(forall|k: int| 0 <= k < tail.len() ==> tail[k] != sep);
        lemma_split_none(tail, sep);
        assert(tail =~= s@.subrange(seg_start as int, n as int));
    }
    r.push(piece.to_owned());
    proof {
        assert(r.deep_view() =~= spec_split(s@, sep));
    }
    r
}

} // verus!
