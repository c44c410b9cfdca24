//! The ranked substring query engine. Phase one ranks stored rows that
//! match the query — executables first, then most recently indexed, then
//! shallower rows, then rows whose name leaves the shortest residue once
//! every occurrence of the query is removed — and keeps at most
//! [`STORED_QUERY_LIMIT`](crate::STORED_QUERY_LIMIT). Phase two filters a
//! live listing of the executable search path, skipping paths phase one
//! already produced.

use vstd::prelude::*;

verus! {

use vstd::relations::sorted_by;
use vstd::seq_lib::lemma_multiset_commutative;
use crate::STORED_QUERY_LIMIT;
use crate::records::{Entry, Request, SearchResult, spec_to_result, to_search_result};
use crate::store::{Store, lemma_filter_push};
use crate::text::{chars_match_at, chars_of, has_substring, str_eq};

/// The name with every occurrence of `q` removed, left to right — what the
/// stored lookup ranks by (`REPLACE(name, q, '')`). An empty `q` removes
/// nothing.
pub open spec fn strip_all(s: Seq<char>, q: Seq<char>) -> Seq<char>
    decreases s.len(),
{
    if q.len() == 0 || s.len() < q.len() {
        s
    } else if s.subrange(0, q.len() as int) == q {
        strip_all(s.skip(q.len() as int), q)
    } else {
        seq![s[0]] + strip_all(s.skip(1), q)
    }
}

/// The residue length the ranking compares.
pub open spec fn spec_residual(name: Seq<char>, q: Seq<char>) -> int {
    strip_all(name, q).len() as int
}

/// Case-insensitive equality of two characters, ASCII-only folding — the
/// folding the stored lookup's `LIKE` applies.
pub open spec fn ci_eq(a: char, b: char) -> bool {
    ||| a == b
    ||| (65 <= a as u32 <= 90 && b as u32 == a as u32 + 32)
    ||| (65 <= b as u32 <= 90 && a as u32 == b as u32 + 32)
}

/// `q` occurs in `s` at `i`, up to ASCII case.
pub open spec fn ci_contains_at(s: Seq<char>, q: Seq<char>, i: int) -> bool {
    &&& 0 <= i
    &&& i + q.len() <= s.len()
    &&& forall|k: int| 0 <= k < q.len() ==> ci_eq(s[i + k], #[trigger] q[k])
}

/// `q` occurs somewhere in `s`, up to ASCII case.
pub open spec fn has_substring_ci(s: Seq<char>, q: Seq<char>) -> bool {
    exists|i: int| ci_contains_at(s, q, i)
}

/// A stored row matches the query when its name or its path contains the
/// query, up to ASCII case.
pub open spec fn entry_matches(e: Entry, q: Seq<char>) -> bool {
    has_substring_ci(e.name@, q) || has_substring_ci(e.path@, q)
}

/// Predicate form of [`entry_matches`].
pub open spec fn match_pred(q: Seq<char>) -> spec_fn(Entry) -> bool {
    |e: Entry| entry_matches(e, q)
}

/// The ranking: executables first, then larger `last_accessed`, then
/// smaller depth, then smaller residue. A total preorder.
pub open spec fn spec_rank_le(q: Seq<char>, a: Entry, b: Entry) -> bool {
    if a.executable != b.executable {
        a.executable
    } else if a.last_accessed != b.last_accessed {
        a.last_accessed > b.last_accessed
    } else if a.depth != b.depth {
        a.depth < b.depth
    } else {
        spec_residual(a.name@, q) <= spec_residual(b.name@, q)
    }
}

/// Relation form of [`spec_rank_le`].
pub open spec fn rank_rel(q: Seq<char>) -> spec_fn(Entry, Entry) -> bool {
    |a: Entry, b: Entry| spec_rank_le(q, a, b)
}

/// How many rows the stored lookup may hand out for `len` matches.
pub open spec fn spec_limit(len: int) -> int {
    if len > STORED_QUERY_LIMIT as int {
        STORED_QUERY_LIMIT as int
    } else {
        len
    }
}

/// Phase one's records: the ranked matches, cut to the limit, as results.
pub open spec fn spec_phase1(sorted: Seq<Entry>) -> Seq<SearchResult> {
    sorted.take(spec_limit(sorted.len() as int)).map_values(|e: Entry| spec_to_result(e))
}

/// The paths phase one already produced.
pub open spec fn spec_seen(p1: Seq<SearchResult>) -> Seq<Seq<char>> {
    p1.map_values(|r: SearchResult| r.path@)
}

/// What phase one guarantees: some ranking-sorted arrangement of exactly
/// the matching rows, cut to the limit, yields the output.
pub open spec fn stored_query_post(rows: Seq<Entry>, q: Seq<char>, out: Seq<SearchResult>)
    -> bool {
    exists|sorted: Seq<Entry>|
        #![trigger sorted.to_multiset()]
        {
            &&& sorted.to_multiset() == rows.filter(match_pred(q)).to_multiset()
            &&& sorted_by(sorted, rank_rel(q))
            &&& out == spec_phase1(sorted)
        }
}

/// One direct child of a directory on the executable search path, as the
/// live scan sees it.
pub struct ScanCandidate {
    pub name: String,
    pub path: String,
    pub is_file: bool,
    pub executable: bool,
}

/// Phase two keeps a candidate that is a regular file, executable, whose
/// basename contains the query (exactly), and whose path phase one did not
/// already produce.
pub open spec fn scan_keep(q: Seq<char>, seen: Seq<Seq<char>>) -> spec_fn(ScanCandidate) -> bool {
    |c: ScanCandidate| c.is_file && c.executable && has_substring(c.name@, q) && !seen.contains(
        c.path@,
    )
}

/// The record a kept candidate is reported as.
pub open spec fn spec_scan_result(c: ScanCandidate) -> SearchResult {
    SearchResult {
        name: c.name,
        path: c.path,
        is_desktop: false,
        is_executable: true,
        icon: None,
    }
}

/// Phase two's records, in listing order.
pub open spec fn spec_phase2(cands: Seq<ScanCandidate>, q: Seq<char>, seen: Seq<Seq<char>>)
    -> Seq<SearchResult> {
    cands.filter(scan_keep(q, seen)).map_values(|c: ScanCandidate| spec_scan_result(c))
}

/// What the whole engine guarantees: phase one's records followed by phase
/// two's, with phase two skipping phase one's paths.
pub open spec fn search_post(
    rows: Seq<Entry>,
    q: Seq<char>,
    cands: Seq<ScanCandidate>,
    out: Seq<SearchResult>,
) -> bool {
    exists|sorted: Seq<Entry>|
        #![trigger sorted.to_multiset()]
        {
            &&& sorted.to_multiset() == rows.filter(match_pred(q)).to_multiset()
            &&& sorted_by(sorted, rank_rel(q))
            &&& out == spec_phase1(sorted) + spec_phase2(
                cands,
                q,
                spec_seen(spec_phase1(sorted)),
            )
        }
}

/// Computes the residue length: the name's length once every occurrence of
/// the query is removed, left to right.
pub fn residual_len(name: &Vec<char>, q: &Vec<char>) -> (r: usize)
    ensures
        r == spec_residual(name@, q@),
{
    let n = name.len();
    let m = q.len();
    if m == 0 {
        return n;
    }
    let mut i: usize = 0;
    let mut kept: usize = 0;
    proof {
        assert(name@.skip(0) =~= name@);
    }
    while i < n
        invariant
            i <= n,
            kept <= i,
            n == name@.len(),
            m == q@.len(),
            m >= 1,
            strip_all(name@, q@).len() == kept + strip_all(name@.skip(i as int), q@).len(),
        decreases n - i,
    {
        let ghost t = name@.skip(i as int);
        if m <= n - i {
            if chars_match_at(name, q, i) {
                proof {
                    assert(t.subrange(0, m as int) =~= name@.subrange(i as int, i + m));
                    assert(t.skip(m as int) =~= name@.skip(i + m));
                }
                i = i + m;
            } else {
                proof {
                    assert(t.subrange(0, m as int) =~= name@.subrange(i as int, i + m));
                    assert(t.skip(1) =~= name@.skip(i + 1));
                    assert(t[0] == name@[i as int]);
                    assert(strip_all(t, q@).len() == 1 + strip_all(name@.skip(i + 1), q@).len());
                }
                kept = kept + 1;
                i = i + 1;
            }
        } else {
            proof {
                assert(t.len() < m);
                assert(strip_all(t, q@) == t);
            }
            kept = kept + (n - i);
            i = n;
        }
    }
    proof {
        assert(name@.skip(n as int) =~= Seq::<char>::empty());
    }
    kept
}

/// Compares two rows under the ranking.
fn rank_leq(q: &Vec<char>, a: &Entry, b: &Entry) -> (r: bool)
    ensures
        r == spec_rank_le(q@, *a, *b),
{
    if a.executable != b.executable {
        a.executable
    } else if a.last_accessed != b.last_accessed {
        a.last_accessed > b.last_accessed
    } else if a.depth != b.depth {
        a.depth < b.depth
    } else {
        let av = chars_of(a.name.as_str());
        let bv = chars_of(b.name.as_str());
        let ra = residual_len(&av, q);
        let rb = residual_len(&bv, q);
        ra <= rb
    }
}

/// The position before the first element the new row ranks at or above.
fn find_insert_pos(q: &Vec<char>, out: &Vec<Entry>, e: &Entry) -> (pos: usize)
    ensures
        pos <= out@.len(),
        forall|k: int| 0 <= k < pos ==> spec_rank_le(q@, #[trigger] out@[k], *e),
        pos < out@.len() ==> spec_rank_le(q@, *e, out@[pos as int]),
{
    let n = out.len();
    let mut pos: usize = 0;
    while pos < n
        invariant
            pos <= n,
            n == out@.len(),
            forall|k: int| 0 <= k < pos ==> spec_rank_le(q@, #[trigger] out@[k], *e),
        decreases n - pos,
    {
        if rank_leq(q, e, &out[pos]) {
            return pos;
        }
        proof {
            assert(spec_rank_le(q@, out@[pos as int], *e));
        }
        pos = pos + 1;
    }
    pos
}

/// Inserts a row into a ranked vector, keeping it sorted.
fn insert_ranked(q: &Vec<char>, out: &mut Vec<Entry>, e: Entry)
    requires
        sorted_by(old(out)@, rank_rel(q@)),
    ensures
        sorted_by(final(out)@, rank_rel(q@)),
        final(out)@.to_multiset() == old(out)@.to_multiset().insert(e),
{
    let ghost s0 = out@;
    let ghost rel = rank_rel(q@);
    let n = out.len();
    let pos = find_insert_pos(q, out, &e);
    out.insert(pos, e);
    proof {
        broadcast use vstd::multiset::group_multiset_axioms;
        broadcast use vstd::seq_lib::group_to_multiset_ensures;

        let s1 = out@;
        let left = s0.subrange(0, pos as int);
        let right = s0.subrange(pos as int, n as int);
        assert(s1 =~= left.push(e) + right);
        assert forall|i: int, j: int| 0 <= i < j < s1.len() implies #[trigger] rel(
            s1[i],
            s1[j],
        ) by {
            if i < pos {
                assert(s1[i] == s0[i]);
            } else if i == pos {
                assert(s1[i] == e);
            } else {
                assert(s1[i] == s0[i - 1]);
            }
            if j < pos {
                assert(s1[j] == s0[j]);
            } else if j == pos {
                assert(s1[j] == e);
            } else {
                assert(s1[j] == s0[j - 1]);
            }
            assert(forall|a: int, b: int|
                0 <= a < b < s0.len() ==> #[trigger] rel(s0[a], s0[b]));
            if j == pos {
                assert(spec_rank_le(q@, s0[i], e));
            } else if i == pos {
                if pos < n {
                    assert(spec_rank_le(q@, e, s0[pos as int]));
                    if j - 1 > pos {
                        assert(rel(s0[pos as int], s0[j - 1]));
                    }
                }
            } else if i < pos && j > pos {
                assert(rel(s0[i], s0[j - 1]));
            }
        }
        assert((left.push(e) + right).to_multiset() == left.push(e).to_multiset().add(
            right.to_multiset(),
        )) by {
            lemma_multiset_commutative(left.push(e), right);
        }
        assert((left + right).to_multiset() == left.to_multiset().add(right.to_multiset())) by {
            lemma_multiset_commutative(left, right);
        }
        assert(s0 =~= left + right);
        assert(left.push(e).to_multiset() =~= left.to_multiset().insert(e));
        assert(s1.to_multiset() =~= s0.to_multiset().insert(e));
    }
}

/// Sorts rows under the ranking; the result is a sorted permutation.
pub fn sort_by_rank(q: &Vec<char>, v: Vec<Entry>) -> (r: Vec<Entry>)
    ensures
        sorted_by(r@, rank_rel(q@)),
        r@.to_multiset() == v@.to_multiset(),
{
    let n = v.len();
    let mut out: Vec<Entry> = Vec::new();
    let mut i: usize = 0;
    proof {
        broadcast use vstd::seq_lib::group_to_multiset_ensures;

        assert(v@.subrange(0, 0) =~= Seq::<Entry>::empty());
        assert(out@.to_multiset() =~= v@.subrange(0, 0).to_multiset());
    }
    while i < n
        invariant
            i <= n,
            n == v@.len(),
            sorted_by(out@, rank_rel(q@)),
            out@.to_multiset() == v@.subrange(0, i as int).to_multiset(),
        decreases n - i,
    {
        insert_ranked(q, &mut out, v[i].duplicate());
        proof {
            broadcast use vstd::seq_lib::group_to_multiset_ensures;

            assert(v@.subrange(0, i + 1) =~= v@.subrange(0, i as int).push(v@[i as int]));
        }
        i = i + 1;
    }
    proof {
        assert(v@.subrange(0, n as int) =~= v@);
    }
    out
}

/// Case-insensitive occurrence test at one position.
fn ci_match_at(s: &Vec<char>, q: &Vec<char>, i: usize) -> (r: bool)
    requires
        i + q@.len() <= s@.len(),
    ensures
        r == ci_contains_at(s@, q@, i as int),
{
    let m = q.len();
    let n = s.len();
    let mut k: usize = 0;
    while k < m
        invariant
            k <= m,
            m == q@.len(),
            n == s@.len(),
            i + m <= n,
            forall|x: int| 0 <= x < k ==> ci_eq(s@[i + x], #[trigger] q@[x]),
        decreases m - k,
    {
        let a = s[i + k];
        let b = q[k];
        let same = if a == b {
            true
        } else {
            let au = a as u32;
            let bu = b as u32;
            (65 <= au && au <= 90 && bu == au + 32) || (65 <= bu && bu <= 90 && au == bu + 32)
        };
        if !same {
            proof {
                assert(!ci_eq(s@[i + k], q@[k as int]));
            }
            return false;
        }
        k = k + 1;
    }
    true
}

/// Case-insensitive anywhere-substring test.
fn ci_contains(s: &Vec<char>, q: &Vec<char>) -> (r: bool)
    ensures
        r == has_substring_ci(s@, q@),
{
    let n = s.len();
    let m = q.len();
    if m > n {
        proof {
            assert(forall|i: int| !ci_contains_at(s@, q@, i));
        }
        return false;
    }
    if m == 0 {
        proof {
            assert(ci_contains_at(s@, q@, 0));
        }
        return true;
    }
    let mut i: usize = 0;
    while i <= n - m
        invariant
            1 <= m <= n,
            n == s@.len(),
            m == q@.len(),
            i <= n - m + 1,
            forall|j: int| 0 <= j < i ==> !ci_contains_at(s@, q@, j),
        decreases n - i,
    {
        if ci_match_at(s, q, i) {
            return true;
        }
        i = i + 1;
    }
    proof {
        assert(forall|j: int| j > n - m ==> !ci_contains_at(s@, q@, j));
    }
    false
}

/// Whether a stored row matches the query.
fn matches_entry(e: &Entry, qv: &Vec<char>) -> (r: bool)
    ensures
        r == entry_matches(*e, qv@),
{
    let nv = chars_of(e.name.as_str());
    let pv = chars_of(e.path.as_str());
    ci_contains(&nv, qv) || ci_contains(&pv, qv)
}

/// Collects the rows matching the query, in storage order.
fn collect_matches(store: &Store, qv: &Vec<char>) -> (r: Vec<Entry>)
    ensures
        r@ == store@.filter(match_pred(qv@)),
{
    let rows = store.rows_snapshot();
    let ghost all = rows@;
    let ghost pred = match_pred(qv@);
    let n = rows.len();
    let mut out: Vec<Entry> = Vec::new();
    proof {
        reveal(Seq::filter);
        assert(all.subrange(0, 0) =~= Seq::<Entry>::empty());
        assert(out@ =~= all.subrange(0, 0).filter(pred));
    }
    let mut i: usize = 0;
    while i < n
        invariant
            i <= n,
            n == rows@.len(),
            rows@ == all,
            pred == match_pred(qv@),
            out@ =~= all.subrange(0, i as int).filter(pred),
        decreases n - i,
    {
        let keep = matches_entry(&rows[i], qv);
        proof {
            lemma_filter_push(all.subrange(0, i as int), pred, all[i as int]);
            assert(all.subrange(0, i as int).push(all[i as int]) =~= all.subrange(0, i + 1));
        }
        if keep {
            out.push(rows[i].duplicate());
        }
        i = i + 1;
    }
    proof {
        assert(all.subrange(0, n as int) =~= all);
    }
    out
}

/// Cuts a ranked vector to the stored-lookup limit.
fn take_limit(v: Vec<Entry>) -> (r: Vec<Entry>)
    ensures
        r@ == v@.take(spec_limit(v@.len() as int)),
{
    let n = v.len();
    let lim = if n > STORED_QUERY_LIMIT {
        STORED_QUERY_LIMIT
    } else {
        n
    };
    let mut out: Vec<Entry> = Vec::new();
    let mut i: usize = 0;
    while i < lim
        invariant
            i <= lim <= n,
            n == v@.len(),
            lim == spec_limit(n as int),
            out@ =~= v@.subrange(0, i as int),
        decreases lim - i,
    {
        out.push(v[i].duplicate());
        proof {
            assert(out@ =~= v@.subrange(0, i + 1));
        }
        i = i + 1;
    }
    proof {
        assert(out@ =~= v@.take(spec_limit(v@.len() as int)));
    }
    out
}

/// Converts ranked rows into result records.
fn map_results(v: &Vec<Entry>) -> (r: Vec<SearchResult>)
    ensures
        r@ == v@.map_values(|e: Entry| spec_to_result(e)),
{
    let n = v.len();
    let mut out: Vec<SearchResult> = Vec::new();
    proof {
        assert(out@ =~= v@.subrange(0, 0).map_values(|e: Entry| spec_to_result(e)));
    }
    let mut i: usize = 0;
    while i < n
        invariant
            i <= n,
            n == v@.len(),
            out@ =~= v@.subrange(0, i as int).map_values(|e: Entry| spec_to_result(e)),
        decreases n - i,
    {
        out.push(to_search_result(&v[i]));
        proof {
            assert(out@ =~= v@.subrange(0, i + 1).map_values(|e: Entry| spec_to_result(e)));
        }
        i = i + 1;
    }
    proof {
        assert(v@.subrange(0, n as int) =~= v@);
    }
    out
}

/// The paths of phase one's records, for phase two to skip.
fn result_paths(v: &Vec<SearchResult>) -> (r: Vec<String>)
    ensures
        r.deep_view() == spec_seen(v@),
{
    let n = v.len();
    let mut out: Vec<String> = Vec::new();
    proof {
        assert(out.deep_view() =~= spec_seen(v@.subrange(0, 0)));
    }
    let mut i: usize = 0;
    while i < n
        invariant
            i <= n,
            n == v@.len(),
            out.deep_view() =~= spec_seen(v@.subrange(0, i as int)),
        decreases n - i,
    {
        let ghost old_out = out.deep_view();
        out.push(v[i].path.clone());
        proof {
            assert(out.deep_view() =~= old_out.push(v@[i as int].path@));
            assert(out.deep_view() =~= spec_seen(v@.subrange(0, i + 1)));
        }
        i = i + 1;
    }
    proof {
        assert(v@.subrange(0, n as int) =~= v@);
    }
    out
}

/// Whether a path was already produced.
fn seen_contains(seen: &Vec<String>, p: &str) -> (r: bool)
    ensures
        r == seen.deep_view().contains(p@),
{
    let n = seen.len();
    let mut i: usize = 0;
    while i < n
        invariant
            i <= n,
            n == seen@.len(),
            forall|k: int| 0 <= k < i ==> seen.deep_view()[k] != p@,
        decreases n - i,
    {
        if str_eq(seen[i].as_str(), p) {
            proof {
                assert(seen.deep_view()[i as int] == p@);
            }
            return true;
        }
        i = i + 1;
    }
    proof {
        assert(forall|k: int| 0 <= k < seen.deep_view().len() ==> seen.deep_view()[k] != p@);
    }
    false
}

/// Phase one: the ranked stored lookup.
pub fn query_stored(store: &Store, query: &str) -> (r: Vec<SearchResult>)
    ensures
        stored_query_post(store@, query@, r@),
{
    let qv = chars_of(query);
    let matched = collect_matches(store, &qv);
    let ranked = sort_by_rank(&qv, matched);
    let ghost sorted = ranked@;
    let cut = take_limit(ranked);
    let r = map_results(&cut);
    proof {
        assert(r@ == spec_phase1(sorted));
        assert(sorted.to_multiset() == store@.filter(match_pred(query@)).to_multiset());
    }
    r
}

/// Phase two: filters the live listing of the executable search path.
pub fn scan_path(query: &str, seen: &Vec<String>, cands: &Vec<ScanCandidate>) -> (r: Vec<
    SearchResult,
>)
    ensures
        r@ == spec_phase2(cands@, query@, seen.deep_view()),
{
    let qv = chars_of(query);
    let ghost pred = scan_keep(query@, seen.deep_view());
    let n = cands.len();
    let mut out: Vec<SearchResult> = Vec::new();
    proof {
        reveal(Seq::filter);
        assert(cands@.subrange(0, 0) =~= Seq::<ScanCandidate>::empty());
        assert(out@ =~= cands@.subrange(0, 0).filter(pred).map_values(
            |c: ScanCandidate| spec_scan_result(c),
        ));
    }
    let mut i: usize = 0;
    while i < n
        invariant
            i <= n,
            n == cands@.len(),
            qv@ == query@,
            pred == scan_keep(query@, seen.deep_view()),
            out@ =~= cands@.subrange(0, i as int).filter(pred).map_values(
                |c: ScanCandidate| spec_scan_result(c),
            ),
        decreases n - i,
    {
        let c = &cands[i];
        let nv = chars_of(c.name.as_str());
        let keep = c.is_file && c.executable && crate::text::chars_contain(&nv, &qv)
            && !seen_contains(seen, c.path.as_str());
        proof {
            lemma_filter_push(cands@.subrange(0, i as int), pred, cands@[i as int]);
            assert(cands@.subrange(0, i as int).push(cands@[i as int]) =~= cands@.subrange(
                0,
                i + 1,
            ));
        }
        if keep {
            out.push(
                SearchResult {
                    name: c.name.clone(),
                    path: c.path.clone(),
                    is_desktop: false,
                    is_executable: true,
                    icon: None,
                },
            );
        }
        i = i + 1;
    }
    proof {
        assert(cands@.subrange(0, n as int) =~= cands@);
    }
    out
}

/// The whole engine: the ranked stored lookup, then the live scan of the
/// executable search path with phase one's paths skipped.
pub fn search(query: &str, store: &Store, cands: &Vec<ScanCandidate>) -> (r: Vec<SearchResult>)
    ensures
        search_post(store@, query@, cands@, r@),
{
    let mut p1 = query_stored(store, query);
    let ghost sorted = choose|sorted: Seq<Entry>|
        #![trigger sorted.to_multiset()]
        {
            &&& sorted.to_multiset() == store@.filter(match_pred(query@)).to_multiset()
            &&& sorted_by(sorted, rank_rel(query@))
            &&& p1@ == spec_phase1(sorted)
        };
    let seen = result_paths(&p1);
    let p2 = scan_path(query, &seen, cands);
    append_results(&mut p1, &p2);
    proof {
        assert(p1@ == spec_phase1(sorted) + spec_phase2(
            cands@,
            query@,
            spec_seen(spec_phase1(sorted)),
        ));
    }
    p1
}

/// Appends result records.
fn append_results(dst: &mut Vec<SearchResult>, src: &Vec<SearchResult>)
    ensures
        final(dst)@ == old(dst)@ + src@,
{
    let n = src.len();
    let mut i: usize = 0;
    proof {
        assert(dst@ =~= old(dst)@ + src@.subrange(0, 0));
    }
    while i < n
        invariant
            i <= n,
            n == src@.len(),
            dst@ =~= old(dst)@ + src@.subrange(0, i as int),
        decreases n - i,
    {
        dst.push(src[i].duplicate());
        proof {
            assert(dst@ =~= old(dst)@ + src@.subrange(0, i + 1));
        }
        i = i + 1;
    }
    proof {
        assert(src@.subrange(0, n as int) =~= src@);
    }
}

/// The byte length of a query string, which the service's guard compares.
pub open spec fn query_byte_len(q: Seq<char>) -> int {
    vstd::utf8::encode_utf8(q).len() as int
}

/// What the service answers a request with: nothing for a query of two or
/// fewer bytes, the engine's records otherwise.
pub fn respond(req: &Request, store: &Store, cands: &Vec<ScanCandidate>) -> (r: Vec<SearchResult>)
    ensures
        query_byte_len(req.query@) <= 2 ==> r@ == Seq::<SearchResult>::empty(),
        query_byte_len(req.query@) > 2 ==> search_post(store@, req.query@, cands@, r@),
{
    let byte_len = req.query.as_str().as_bytes().len();
    if byte_len > 2 {
        search(req.query.as_str(), store, cands)
    } else {
        let r: Vec<SearchResult> = Vec::new();
        proof {
            assert(r@ =~= Seq::<SearchResult>::empty());
        }
        r
    }
}

/// An empty query matches every row: the pattern it builds puts nothing
/// between the wildcards, so the stored lookup's filter keeps all rows and
/// only the row limit cuts the answer.
pub proof fn lemma_empty_query_matches_all(rows: Seq<Entry>)
    ensures
        rows.filter(match_pred(Seq::<char>::empty())) == rows,
    decreases rows.len(),
{
    reveal(Seq::filter);
    let q = Seq::<char>::empty();
    if rows.len() > 0 {
        lemma_empty_query_matches_all(rows.drop_last());
        assert(ci_contains_at(rows.last().name@, q, 0));
        assert(entry_matches(rows.last(), q));
        assert(match_pred(q)(rows.last()));
        assert(rows.drop_last().push(rows.last()) =~= rows);
    }
}

} // verus!
