//! The watcher's decisions: what an incoming filesystem change event does
//! to the index. Create events re-index the event's paths through the
//! walker; remove events delete by literal path prefix; anything else is
//! ignored.

use vstd::prelude::*;

verus! {

use crate::records::Entry;
use crate::store::{
    Store, lemma_filter_compose, lemma_filter_equiv, lemma_filter_idempotent, path_no_prefix,
    spec_remove_prefixed,
};

/// The classes of change events the watcher distinguishes.
#[derive(Clone, Copy, Debug, PartialEq, Eq, Structural)]
pub enum WatchEventKind {
    Create,
    Remove,
    Other,
}

/// What the watcher does with one event.
#[derive(Debug, PartialEq)]
pub enum WatchAction {
    /// Walk the event's paths as explicit roots and ingest what they hold.
    Reindex(Vec<String>),
    /// Delete every stored row whose path begins with one of these.
    DeletePrefixes(Vec<String>),
    /// Nothing.
    Ignore,
}

/// Decides what one event does: create re-indexes, remove deletes by
/// prefix, everything else is ignored.
pub fn handle_event(kind: WatchEventKind, paths: Vec<String>) -> (r: WatchAction)
    ensures
        kind == WatchEventKind::Create ==> r == WatchAction::Reindex(paths),
        kind == WatchEventKind::Remove ==> r == WatchAction::DeletePrefixes(paths),
        kind == WatchEventKind::Other ==> r == WatchAction::Ignore,
{
    match kind {
        WatchEventKind::Create => WatchAction::Reindex(paths),
        WatchEventKind::Remove => WatchAction::DeletePrefixes(paths),
        WatchEventKind::Other => WatchAction::Ignore,
    }
}

/// The rows after deleting by each prefix in turn.
pub open spec fn spec_remove_all(rows: Seq<Entry>, ps: Seq<Seq<char>>) -> Seq<Entry>
    decreases ps.len(),
{
    if ps.len() == 0 {
        rows
    } else {
        spec_remove_all(spec_remove_prefixed(rows, ps[0]), ps.drop_first())
    }
}

/// No row's path begins with any of the prefixes.
pub open spec fn no_prefix_of_any(ps: Seq<Seq<char>>) -> spec_fn(Entry) -> bool {
    |e: Entry| forall|k: int| 0 <= k < ps.len() ==> !(#[trigger] ps[k]).is_prefix_of(e.path@)
}

/// Deleting by a list of prefixes keeps exactly the rows no prefix covers.
pub proof fn lemma_remove_all_as_filter(rows: Seq<Entry>, ps: Seq<Seq<char>>)
    ensures
        spec_remove_all(rows, ps) == rows.filter(no_prefix_of_any(ps)),
    decreases ps.len(),
{
    if ps.len() == 0 {
        lemma_filter_equiv(
            rows,
            no_prefix_of_any(ps),
            |e: Entry| true,
        );
        lemma_filter_true(rows);
    } else {
        let rest = ps.drop_first();
        lemma_remove_all_as_filter(spec_remove_prefixed(rows, ps[0]), rest);
        let both = |e: Entry| path_no_prefix(ps[0])(e) && no_prefix_of_any(rest)(e);
        lemma_filter_compose(rows, path_no_prefix(ps[0]), no_prefix_of_any(rest), both);
        assert forall|e: Entry| #[trigger] both(e) == no_prefix_of_any(ps)(e) by {
            if both(e) {
                assert forall|k: int| 0 <= k < ps.len() implies !(#[trigger] ps[k]).is_prefix_of(
                    e.path@,
                ) by {
                    if k > 0 {
                        assert(rest[k - 1] == ps[k]);
                    }
                }
            }
            if no_prefix_of_any(ps)(e) {
                assert(!ps[0].is_prefix_of(e.path@));
                assert forall|k: int| 0 <= k < rest.len() implies !(#[trigger] rest[k]).is_prefix_of(
                    e.path@,
                ) by {
                    assert(ps[k + 1] == rest[k]);
                }
            }
        }
        lemma_filter_equiv(rows, both, no_prefix_of_any(ps));
    }
}

/// Filtering by the always-true predicate keeps every row.
pub proof fn lemma_filter_true(rows: Seq<Entry>)
    ensures
        rows.filter(|e: Entry| true) == rows,
    decreases rows.len(),
{
    reveal(Seq::filter);
    if rows.len() > 0 {
        lemma_filter_true(rows.drop_last());
        assert(rows.drop_last().push(rows.last()) =~= rows);
    }
}

/// The remove handler is idempotent: deleting the same prefixes twice
/// leaves the same rows as deleting them once.
pub proof fn lemma_remove_all_idempotent(rows: Seq<Entry>, ps: Seq<Seq<char>>)
    ensures
        spec_remove_all(spec_remove_all(rows, ps), ps) == spec_remove_all(rows, ps),
{
    lemma_remove_all_as_filter(rows, ps);
    lemma_remove_all_as_filter(rows.filter(no_prefix_of_any(ps)), ps);
    lemma_filter_idempotent(rows, no_prefix_of_any(ps));
}

/// Applies a remove action: deletes by each prefix in turn.
pub fn apply_remove(store: &mut Store, paths: &Vec<String>)
    requires
        old(store).wf(),
    ensures
        final(store).wf(),
        final(store)@ == spec_remove_all(old(store)@, paths.deep_view()),
{
    let n = paths.len();
    let ghost ps = paths.deep_view();
    let mut i: usize = 0;
    proof {
        assert(ps.skip(0) =~= ps);
    }
    while i < n
        invariant
            i <= n,
            n == ps.len(),
            paths.deep_view() == ps,
            store.wf(),
            spec_remove_all(old(store)@, ps) == spec_remove_all(store@, ps.skip(i as int)),
        decreases n - i,
    {
        proof {
            let tail = ps.skip(i as int);
            assert(tail[0] == ps[i as int]);
            assert(tail.drop_first() =~= ps.skip(i + 1));
            assert(paths@[i as int]@ == ps[i as int]);
        }
        store.delete_prefix(paths[i].as_str());
        i = i + 1;
    }
    proof {
        assert(ps.skip(n as int) =~= Seq::<Seq<char>>::empty());
    }
}

} // verus!
