//! In-memory model of the persistent index: a table of [`Entry`] rows keyed
//! by path, with replace-style insertion, the re-index guard, and literal
//! prefix deletion.

use vstd::prelude::*;

verus! {

use crate::records::{Entry, entry_ok};
use crate::text::{chars_of, chars_prefix, str_eq};
use crate::{MAX_DEPTH, REINDEX_THRESHOLD};

/// The rows hold at most one entry per path, each within the depth bound.
pub open spec fn rows_wf(rows: Seq<Entry>) -> bool {
    &&& forall|i: int, j: int|
        0 <= i < j < rows.len() ==> rows[i].path@ != rows[j].path@
    &&& forall|i: int| 0 <= i < rows.len() ==> entry_ok(#[trigger] rows[i])
}

/// Predicate selecting rows whose path differs from `p`.
pub open spec fn path_ne(p: Seq<char>) -> spec_fn(Entry) -> bool {
    |e: Entry| e.path@ != p
}

/// Predicate selecting rows whose path does not begin with `p`.
pub open spec fn path_no_prefix(p: Seq<char>) -> spec_fn(Entry) -> bool {
    |e: Entry| !p.is_prefix_of(e.path@)
}

/// The stored timestamp of the first row carrying `path`, if any.
pub open spec fn spec_lookup(rows: Seq<Entry>, path: Seq<char>) -> Option<i64>
    decreases rows.len(),
{
    if rows.len() == 0 {
        None
    } else if rows[0].path@ == path {
        Some(rows[0].last_accessed)
    } else {
        spec_lookup(rows.drop_first(), path)
    }
}

/// The rows after a replace-style insert of `e`, keyed by its path.
pub open spec fn spec_upserted(rows: Seq<Entry>, e: Entry) -> Seq<Entry> {
    rows.filter(path_ne(e.path@)).push(e)
}

/// The rows after deleting every row whose path begins with `p`.
pub open spec fn spec_remove_prefixed(rows: Seq<Entry>, p: Seq<char>) -> Seq<Entry> {
    rows.filter(path_no_prefix(p))
}

/// The re-index guard: an ingest carrying `e` writes unless the path is
/// already stored with a timestamp less than `REINDEX_THRESHOLD` seconds
/// older than the incoming one.
pub open spec fn spec_should_write(rows: Seq<Entry>, e: Entry) -> bool {
    match spec_lookup(rows, e.path@) {
        None => true,
        Some(t0) => e.last_accessed >= t0 + REINDEX_THRESHOLD,
    }
}

/// Filtering a pushed element keeps the filtered front and appends the
/// element exactly when it satisfies the predicate.
pub proof fn lemma_filter_push<A>(s: Seq<A>, pred: spec_fn(A) -> bool, a: A)
    ensures
        s.push(a).filter(pred) == if pred(a) {
            s.filter(pred).push(a)
        } else {
            s.filter(pred)
        },
{
    reveal(Seq::filter);
    assert(s.push(a).drop_last() =~= s);
    assert(s.push(a).last() == a);
}

/// Filtering twice by the same predicate filters once.
pub proof fn lemma_filter_idempotent<A>(s: Seq<A>, pred: spec_fn(A) -> bool)
    ensures
        s.filter(pred).filter(pred) == s.filter(pred),
    decreases s.len(),
{
    reveal(Seq::filter);
    if s.len() > 0 {
        lemma_filter_idempotent(s.drop_last(), pred);
        if pred(s.last()) {
            lemma_filter_push(s.drop_last().filter(pred), pred, s.last());
        }
    }
}

/// Two successive filters act as the conjunction of their predicates.
pub proof fn lemma_filter_compose<A>(
    s: Seq<A>,
    p1: spec_fn(A) -> bool,
    p2: spec_fn(A) -> bool,
    both: spec_fn(A) -> bool,
)
    requires
        forall|x: A| #[trigger] both(x) == (p1(x) && p2(x)),
    ensures
        s.filter(p1).filter(p2) == s.filter(both),
    decreases s.len(),
{
    reveal(Seq::filter);
    if s.len() > 0 {
        lemma_filter_compose(s.drop_last(), p1, p2, both);
        if p1(s.last()) {
            lemma_filter_push(s.drop_last().filter(p1), p2, s.last());
        }
    }
}

/// A filtered sequence of unique-path, depth-bounded rows stays so.
pub proof fn lemma_filter_keeps_wf(rows: Seq<Entry>, pred: spec_fn(Entry) -> bool)
    requires
        rows_wf(rows),
    ensures
        rows_wf(rows.filter(pred)),
    decreases rows.len(),
{
    reveal(Seq::filter);
    if rows.len() > 0 {
        assert(rows.drop_last() =~= rows.subrange(0, rows.len() - 1));
        assert(rows_wf(rows.drop_last()));
        lemma_filter_keeps_wf(rows.drop_last(), pred);
        if pred(rows.last()) {
            let front = rows.drop_last().filter(pred);
            assert forall|i: int| 0 <= i < front.len() implies front[i].path@
                != rows.last().path@ by {
                rows.drop_last().lemma_filter_pred(pred, i);
                lemma_filter_member(rows.drop_last(), pred, i);
                let j = choose|j: int|
                    0 <= j < rows.drop_last().len() && rows.drop_last()[j] == front[i];
                assert(rows[j].path@ != rows[rows.len() - 1].path@);
            }
        }
    }
}

/// Every element of a filtered sequence occurs in the unfiltered one.
pub proof fn lemma_filter_member<A>(s: Seq<A>, pred: spec_fn(A) -> bool, i: int)
    requires
        0 <= i < s.filter(pred).len(),
    ensures
        exists|j: int| 0 <= j < s.len() && s[j] == s.filter(pred)[i],
    decreases s.len(),
{
    reveal(Seq::filter);
    if s.len() > 0 {
        let front = s.drop_last().filter(pred);
        if pred(s.last()) && i == front.len() {
            assert(s[s.len() - 1] == s.filter(pred)[i]);
        } else {
            lemma_filter_member(s.drop_last(), pred, i);
            let j = choose|j: int| 0 <= j < s.drop_last().len() && s.drop_last()[j] == front[i];
            assert(s[j] == s.filter(pred)[i]);
        }
    }
}

/// The shared table of indexed entries.
pub struct Store {
    rows: Vec<Entry>,
}

impl View for Store {
    type V = Seq<Entry>;

    closed spec fn view(&self) -> Seq<Entry> {
        self.rows@
    }
}

impl Store {
    /// A store is well-formed when its rows are: this is invariant under
    /// every operation, so the store never holds two rows for one path.
    pub open spec fn wf(self) -> bool {
        rows_wf(self@)
    }

    /// An empty store.
    pub fn new() -> (r: Store)
        ensures
            r@ == Seq::<Entry>::empty(),
            r.wf(),
    {
        Store { rows: Vec::new() }
    }

    /// Number of rows.
    pub fn row_count(&self) -> (r: usize)
        ensures
            r == self@.len(),
    {
        self.rows.len()
    }

    /// A copy of every row, in storage order.
    pub fn rows_snapshot(&self) -> (r: Vec<Entry>)
        ensures
            r@ == self@,
    {
        let mut r: Vec<Entry> = Vec::new();
        let n = self.rows.len();
        let mut i: usize = 0;
        while i < n
            invariant
                i <= n,
                n == self.rows@.len(),
                r@ =~= self.rows@.subrange(0, i as int),
            decreases n - i,
        {
            r.push(self.rows[i].duplicate());
            proof {
                assert(r@ =~= self.rows@.subrange(0, i + 1));
            }
            i = i + 1;
        }
        proof {
            assert(self.rows@.subrange(0, n as int) =~= self.rows@);
        }
        r
    }

    /// The stored timestamp for `path`, if a row carries it.
    pub fn lookup_last_accessed(&self, path: &str) -> (r: Option<i64>)
        ensures
            r == spec_lookup(self@, path@),
    {
        let n = self.rows.len();
        let mut i: usize = 0;
        proof {
            assert(self.rows@.skip(0) =~= self.rows@);
        }
        while i < n
            invariant
                i <= n,
                n == self.rows@.len(),
                spec_lookup(self.rows@, path@) == spec_lookup(
                    self.rows@.skip(i as int),
                    path@,
                ),
            decreases n - i,
        {
            let hit = str_eq(self.rows[i].path.as_str(), path);
            proof {
                let tail = self.rows@.skip(i as int);
                assert(tail[0] == self.rows@[i as int]);
                assert(tail.drop_first() =~= self.rows@.skip(i + 1));
            }
            if hit {
                return Some(self.rows[i].last_accessed);
            }
            i = i + 1;
        }
        proof {
            assert(self.rows@.skip(n as int) =~= Seq::<Entry>::empty());
        }
        None
    }

    /// Replace-style insert keyed by `e.path`: any row with the same path is
    /// dropped and `e` is appended.
    pub fn upsert(&mut self, e: Entry)
        requires
            old(self).wf(),
            entry_ok(e),
        ensures
            final(self).wf(),
            final(self)@ == spec_upserted(old(self)@, e),
    {
        let ghost orig = self.rows@;
        let ghost pred = path_ne(e.path@);
        let n = self.rows.len();
        let mut out: Vec<Entry> = Vec::new();
        proof {
            reveal(Seq::filter);
            assert(orig.subrange(0, 0) =~= Seq::<Entry>::empty());
            assert(out@ =~= orig.subrange(0, 0).filter(pred));
        }
        let mut i: usize = 0;
        while i < n
            invariant
                i <= n,
                n == self.rows@.len(),
                self.rows@ == orig,
                pred == path_ne(e.path@),
                out@ =~= orig.subrange(0, i as int).filter(pred),
            decreases n - i,
        {
            let keep = !str_eq(self.rows[i].path.as_str(), e.path.as_str());
            proof {
                lemma_filter_push(orig.subrange(0, i as int), pred, orig[i as int]);
                assert(orig.subrange(0, i as int).push(orig[i as int]) =~= orig.subrange(
                    0,
                    i + 1,
                ));
            }
            if keep {
                out.push(self.rows[i].duplicate());
            }
            i = i + 1;
        }
        proof {
            assert(orig.subrange(0, n as int) =~= orig);
        }
        out.push(e);
        self.rows = out;
        proof {
            lemma_filter_keeps_wf(orig, pred);
            let kept = orig.filter(pred);
            assert forall|i: int| 0 <= i < kept.len() implies kept[i].path@ != e.path@ by {
                orig.lemma_filter_pred(pred, i);
            }
            assert(rows_wf(self.rows@));
        }
    }

    /// An ingest of `e`: applies the re-index guard, writing (and reporting
    /// `true`) exactly when the guard allows it.
    pub fn ingest(&mut self, e: Entry) -> (r: bool)
        requires
            old(self).wf(),
            entry_ok(e),
        ensures
            final(self).wf(),
            r == spec_should_write(old(self)@, e),
            r ==> final(self)@ == spec_upserted(old(self)@, e),
            !r ==> final(self)@ == old(self)@,
    {
        let stored = self.lookup_last_accessed(e.path.as_str());
        let write = match stored {
            None => true,
            Some(t0) => match t0.checked_add(REINDEX_THRESHOLD) {
                Some(threshold) => e.last_accessed >= threshold,
                None => false,
            },
        };
        if write {
            self.upsert(e);
        }
        write
    }

    /// Removes every row whose path begins with the literal prefix.
    pub fn delete_prefix(&mut self, prefix: &str)
        requires
            old(self).wf(),
        ensures
            final(self).wf(),
            final(self)@ == spec_remove_prefixed(old(self)@, prefix@),
    {
        let ghost orig = self.rows@;
        let ghost pred = path_no_prefix(prefix@);
        let pv = chars_of(prefix);
        let n = self.rows.len();
        let mut out: Vec<Entry> = Vec::new();
        proof {
            reveal(Seq::filter);
            assert(orig.subrange(0, 0) =~= Seq::<Entry>::empty());
            assert(out@ =~= orig.subrange(0, 0).filter(pred));
        }
        let mut i: usize = 0;
        while i < n
            invariant
                i <= n,
                n == self.rows@.len(),
                self.rows@ == orig,
                pv@ == prefix@,
                pred == path_no_prefix(prefix@),
                out@ =~= orig.subrange(0, i as int).filter(pred),
            decreases n - i,
        {
            let rv = chars_of(self.rows[i].path.as_str());
            let keep = !chars_prefix(&rv, &pv);
            proof {
                lemma_filter_push(orig.subrange(0, i as int), pred, orig[i as int]);
                assert(orig.subrange(0, i as int).push(orig[i as int]) =~= orig.subrange(
                    0,
                    i + 1,
                ));
            }
            if keep {
                out.push(self.rows[i].duplicate());
            }
            i = i + 1;
        }
        proof {
            assert(orig.subrange(0, n as int) =~= orig);
        }
        self.rows = out;
        proof {
            lemma_filter_keeps_wf(orig, pred);
        }
    }
}

/// At most one row per path: in a well-formed store, two distinct rows never
/// share a path, whatever sequence of operations built it.
pub proof fn lemma_unique_paths(rows: Seq<Entry>)
    requires
        rows_wf(rows),
    ensures
        forall|i: int, j: int|
            0 <= i < rows.len() && 0 <= j < rows.len() && i != j ==> rows[i].path@
                != rows[j].path@,
{
}

/// Removing a prefix twice yields the same rows as removing it once: the
/// watcher's remove handling is idempotent.
pub proof fn lemma_remove_prefix_idempotent(rows: Seq<Entry>, p: Seq<char>)
    ensures
        spec_remove_prefixed(spec_remove_prefixed(rows, p), p) == spec_remove_prefixed(rows, p),
{
    lemma_filter_idempotent(rows, path_no_prefix(p));
}

/// A create followed by a remove of the created path leaves the rows exactly
/// as a plain remove would; in particular, if no stored path began with the
/// created path, the create leaves no trace at all.
pub proof fn lemma_create_then_remove(rows: Seq<Entry>, e: Entry)
    ensures
        spec_remove_prefixed(spec_upserted(rows, e), e.path@) == spec_remove_prefixed(
            rows,
            e.path@,
        ),
        rows.filter(path_no_prefix(e.path@)) == rows ==> spec_remove_prefixed(
            spec_upserted(rows, e),
            e.path@,
        ) == rows,
{
    let p = e.path@;
    let ne = path_ne(p);
    let nopre = path_no_prefix(p);
    let both = |x: Entry| x.path@ != p && !p.is_prefix_of(x.path@);
    assert(p.is_prefix_of(p)) by {
        assert(p.subrange(0, p.len() as int) =~= p);
    }
    lemma_filter_push(rows.filter(ne), nopre, e);
    lemma_filter_compose(rows, ne, nopre, both);
    assert forall|x: Entry| #[trigger] both(x) == nopre(x) by {
        if x.path@ == p {
            assert(p.is_prefix_of(x.path@));
        }
    }
    lemma_filter_equiv(rows, both, nopre);
}

/// Filters by pointwise-equal predicates agree.
pub proof fn lemma_filter_equiv<A>(s: Seq<A>, p1: spec_fn(A) -> bool, p2: spec_fn(A) -> bool)
    requires
        forall|x: A| #[trigger] p1(x) == #[trigger] p2(x),
    ensures
        s.filter(p1) == s.filter(p2),
    decreases s.len(),
{
    reveal(Seq::filter);
    if s.len() > 0 {
        lemma_filter_equiv(s.drop_last(), p1, p2);
    }
}

} // verus!
