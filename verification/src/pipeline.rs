//! The ingest pipeline's consumer side: turning walk emissions into store
//! rows and writing them under the re-index guard, one after the other, in
//! queue order.

use vstd::prelude::*;

verus! {

use crate::records::{Entry, entry_ok};
use crate::store::{Store, spec_should_write, spec_upserted};
use crate::walk::WalkItem;

/// The row a walk emission becomes once its icon, if any, is resolved.
pub open spec fn spec_to_entry(item: WalkItem, icon: Option<String>) -> Entry {
    Entry {
        name: item.name,
        path: item.path,
        depth: item.depth,
        last_accessed: item.last_accessed,
        executable: item.executable,
        desktop: item.desktop,
        icon: icon,
    }
}

/// Builds the store row for a walk emission; the caller passes the resolved
/// icon path, or nothing.
pub fn to_entry(item: WalkItem, icon: Option<String>) -> (r: Entry)
    ensures
        r == spec_to_entry(item, icon),
{
    Entry {
        name: item.name,
        path: item.path,
        depth: item.depth,
        last_accessed: item.last_accessed,
        executable: item.executable,
        desktop: item.desktop,
        icon: icon,
    }
}

/// One guarded write: the rows after ingesting `e`.
pub open spec fn spec_ingest_one(rows: Seq<Entry>, e: Entry) -> Seq<Entry> {
    if spec_should_write(rows, e) {
        spec_upserted(rows, e)
    } else {
        rows
    }
}

/// The rows after ingesting a queue of entries, in order.
pub open spec fn spec_ingest_all(rows: Seq<Entry>, es: Seq<Entry>) -> Seq<Entry>
    decreases es.len(),
{
    if es.len() == 0 {
        rows
    } else {
        spec_ingest_all(spec_ingest_one(rows, es[0]), es.drop_first())
    }
}

/// Drains a queue of entries into the store, applying the re-index guard to
/// each in order.
pub fn ingest_all(store: &mut Store, es: Vec<Entry>) -> (written: usize)
    requires
        old(store).wf(),
        forall|i: int| 0 <= i < es@.len() ==> entry_ok(#[trigger] es@[i]),
    ensures
        final(store).wf(),
        final(store)@ == spec_ingest_all(old(store)@, es@),
        written <= es@.len(),
{
    let n = es.len();
    let mut es = es;
    let ghost all = es@;
    let mut written: usize = 0;
    let mut i: usize = 0;
    proof {
        assert(all.skip(0) =~= all);
    }
    while i < n
        invariant
            i <= n,
            written <= i,
            n == all.len(),
            es@ == all,
            store.wf(),
            forall|k: int| 0 <= k < all.len() ==> entry_ok(#[trigger] all[k]),
            spec_ingest_all(old(store)@, all) == spec_ingest_all(store@, all.skip(i as int)),
        decreases n - i,
    {
        let e = es[i].duplicate();
        let ghost before = store@;
        let wrote = store.ingest(e);
        if wrote {
            written = written + 1;
        }
        proof {
            let tail = all.skip(i as int);
            assert(tail[0] == all[i as int]);
            assert(tail.drop_first() =~= all.skip(i + 1));
            assert(store@ == spec_ingest_one(before, all[i as int]));
        }
        i = i + 1;
    }
    proof {
        assert(all.skip(n as int) =~= Seq::<Entry>::empty());
    }
    written
}

} // verus!
