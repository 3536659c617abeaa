//! Properties that relate several operations of the store.

use vstd::prelude::*;
use crate::compact::{compacted, compacted_later, forward_map, later_row_kept, later_rows_kept};
use crate::engine::{
    copied_set, paths_distinct, planned_rows, planned_target, snapshot_generation, takes_copy,
    CatalogEntry,
};
use crate::keyed::{lemma_entries_map_dom, lemma_entries_map_unique};
use crate::restore::{fully_resolvable, restored_world};
use crate::stamp::Stamp;
use crate::store::{
    is_next_after, lemma_resolve_ends_at_copy, lemma_resolve_frame, resolve, GenerationView,
};

verus! {

/// The store after recording generation `id` for catalog `c` against `base`.
pub open spec fn after_snapshot(
    st: Map<Stamp, GenerationView>,
    id: Stamp,
    base: Option<(Stamp, i64)>,
    c: Seq<CatalogEntry>,
) -> Map<Stamp, GenerationView> {
    st.insert(id, snapshot_generation(st, id, base, c))
}

/// The row the new generation records for catalog entry `k`.
proof fn lemma_snapshot_row(
    st: Map<Stamp, GenerationView>,
    id: Stamp,
    base: Option<(Stamp, i64)>,
    c: Seq<CatalogEntry>,
    k: int,
)
    requires
        paths_distinct(c),
        0 <= k < c.len(),
    ensures
        snapshot_generation(st, id, base, c).references.contains_key(c[k].path@),
        snapshot_generation(st, id, base, c).references[c[k].path@] == planned_target(
            st,
            id,
            base,
            c[k],
        ),
        snapshot_generation(st, id, base, c).physical.contains(c[k].path@) == takes_copy(
            st,
            base,
            c[k],
        ),
{
    let rows = planned_rows(st, id, base, c);
    assert forall|a: int, b: int| 0 <= a < b < rows.len() implies rows[a].0 != rows[b].0 by {
        assert(rows[a].0 == c[a].path@ && rows[b].0 == c[b].path@);
    }
    lemma_entries_map_unique(rows, k);
    if copied_set(st, base, c).contains(c[k].path@) {
        let j = choose|j: int| 0 <= j < c.len() && c[j].path@ == c[k].path@ && takes_copy(st, base, c[j]);
        assert(j == k);
    }
}

/// A file unchanged since the previous generation is stored once: the new
/// generation resolves it to the very copy that the previous generation
/// resolves it to, and the previous generation still resolves it there.
pub proof fn lemma_unchanged_file_shares_copy(
    st: Map<Stamp, GenerationView>,
    id: Stamp,
    prev: Stamp,
    reference: i64,
    c: Seq<CatalogEntry>,
    k: int,
)
    requires
        st.contains_key(prev),
        prev.precedes(id),
        !st.contains_key(id),
        paths_distinct(c),
        0 <= k < c.len(),
        c[k].modified < reference,
        resolve(st, prev, c[k].path@) is Some,
    ensures
        resolve(after_snapshot(st, id, Some((prev, reference)), c), id, c[k].path@) == resolve(
            st,
            prev,
            c[k].path@,
        ),
        resolve(after_snapshot(st, id, Some((prev, reference)), c), prev, c[k].path@) == resolve(
            st,
            prev,
            c[k].path@,
        ),
{
    let base = Some((prev, reference));
    let new = after_snapshot(st, id, base, c);
    let p = c[k].path@;
    lemma_snapshot_row(st, id, base, c, k);
    lemma_resolve_ends_at_copy(st, prev, p);
    let l = resolve(st, prev, p).unwrap();
    assert(new[id] == snapshot_generation(st, id, base, c));
    assert(new[id].references[p] == l);
    assert(l.0.precedes(id));
    lemma_resolve_frame(new, st, l.0, l.1);
    lemma_resolve_frame(new, st, prev, p);
}

/// A file that changed since the previous generation, or any file of a full
/// backup, gets its own copy in the new generation, which is where the new
/// generation resolves it.
pub proof fn lemma_changed_file_gets_copy(
    st: Map<Stamp, GenerationView>,
    id: Stamp,
    base: Option<(Stamp, i64)>,
    c: Seq<CatalogEntry>,
    k: int,
)
    requires
        !st.contains_key(id),
        paths_distinct(c),
        0 <= k < c.len(),
        base matches Some((_, reference)) ==> c[k].modified >= reference,
    ensures
        copied_set(st, base, c).contains(c[k].path@),
        resolve(after_snapshot(st, id, base, c), id, c[k].path@) == Some((id, c[k].path@)),
{
    lemma_snapshot_row(st, id, base, c, k);
}

/// Every file of the catalog resolves in the new generation, to a copy the new
/// generation takes or to the copy the previous generation resolves it to.
pub proof fn lemma_snapshot_resolves_every_file(
    st: Map<Stamp, GenerationView>,
    id: Stamp,
    base: Option<(Stamp, i64)>,
    c: Seq<CatalogEntry>,
    k: int,
)
    requires
        !st.contains_key(id),
        base matches Some((prev, _)) ==> st.contains_key(prev) && prev.precedes(id),
        paths_distinct(c),
        0 <= k < c.len(),
    ensures
        resolve(after_snapshot(st, id, base, c), id, c[k].path@) == Some(
            planned_target(st, id, base, c[k]),
        ),
{
    lemma_snapshot_row(st, id, base, c, k);
    if !takes_copy(st, base, c[k]) {
        let prev = base.unwrap().0;
        lemma_unchanged_file_shares_copy(st, id, prev, base.unwrap().1, c, k);
    }
}

/// Restoring the generation a run recorded gives back exactly the files of
/// the catalog, each from the copy the run recorded for it.
pub proof fn lemma_restore_after_snapshot(
    st: Map<Stamp, GenerationView>,
    id: Stamp,
    base: Option<(Stamp, i64)>,
    c: Seq<CatalogEntry>,
)
    requires
        !st.contains_key(id),
        base matches Some((prev, _)) ==> st.contains_key(prev) && prev.precedes(id),
        paths_distinct(c),
    ensures
        fully_resolvable(after_snapshot(st, id, base, c), id),
        forall|p: Seq<char>|
            #[trigger] restored_world(after_snapshot(st, id, base, c), id).contains_key(p) <==> exists|k: int|
                0 <= k < c.len() && c[k].path@ == p,
        forall|k: int|
            0 <= k < c.len() ==> #[trigger] restored_world(after_snapshot(st, id, base, c), id)[c[k].path@]
                == planned_target(st, id, base, c[k]),
{
    let new = after_snapshot(st, id, base, c);
    let rows = planned_rows(st, id, base, c);
    assert(new[id] == snapshot_generation(st, id, base, c));
    assert forall|p: Seq<char>| #[trigger] new[id].references.contains_key(p) <==> exists|k: int|
        0 <= k < c.len() && c[k].path@ == p by {
        lemma_entries_map_dom(rows, p);
        if exists|k: int| 0 <= k < c.len() && c[k].path@ == p {
            let k = choose|k: int| 0 <= k < c.len() && c[k].path@ == p;
            assert(rows[k].0 == p);
        }
        if exists|k: int| 0 <= k < rows.len() && rows[k].0 == p {
            let k = choose|k: int| 0 <= k < rows.len() && rows[k].0 == p;
            assert(c[k].path@ == p);
        }
    }
    assert forall|p: Seq<char>| #[trigger] new[id].references.contains_key(p) implies resolve(new, id, p) is Some by {
        let k = choose|k: int| 0 <= k < c.len() && c[k].path@ == p;
        lemma_snapshot_resolves_every_file(st, id, base, c, k);
    }
    assert forall|k: int| 0 <= k < c.len() implies #[trigger] restored_world(new, id)[c[k].path@]
        == planned_target(st, id, base, c[k]) by {
        lemma_snapshot_resolves_every_file(st, id, base, c, k);
        lemma_snapshot_row(st, id, base, c, k);
    }
}

/// A row that refers to its own path resolves to the generation's own copy
/// when there is one, and to nothing otherwise: no further hop is taken.
pub proof fn lemma_resolve_self_reference(st: Map<Stamp, GenerationView>, g: Stamp, p: Seq<char>)
    requires
        st.contains_key(g),
        st[g].references.contains_key(p),
        st[g].references[p] == (g, p),
    ensures
        resolve(st, g, p) == if st[g].physical.contains(p) {
            Some((g, p))
        } else {
            None
        },
{
}

/// Every row a run records points at the new generation's own copy of that
/// path or at a strictly older generation, so no chain can loop.
pub proof fn lemma_snapshot_rows_point_back(
    st: Map<Stamp, GenerationView>,
    id: Stamp,
    base: Option<(Stamp, i64)>,
    c: Seq<CatalogEntry>,
    q: Seq<char>,
)
    requires
        base matches Some((prev, _)) ==> st.contains_key(prev) && prev.precedes(id),
        paths_distinct(c),
        snapshot_generation(st, id, base, c).references.contains_key(q),
    ensures
        ({
            let t = snapshot_generation(st, id, base, c).references[q];
            ||| t == (id, q) && snapshot_generation(st, id, base, c).physical.contains(q)
            ||| t.0.precedes(id)
        }),
{
    let rows = planned_rows(st, id, base, c);
    lemma_entries_map_dom(rows, q);
    let k = choose|k: int| 0 <= k < rows.len() && rows[k].0 == q;
    lemma_snapshot_row(st, id, base, c, k);
    if !takes_copy(st, base, c[k]) {
        lemma_resolve_ends_at_copy(st, base.unwrap().0, q);
    }
}

/// Removing a generation that has a successor keeps every path of the
/// successor resolvable to the same bytes: a path that resolved to a copy owned
/// by the removed generation now resolves to the successor's own copy, moved
/// from there; any other path resolves where it did. The removed generation is
/// gone.
pub proof fn lemma_compaction_keeps_successor(
    st: Map<Stamp, GenerationView>,
    id: Stamp,
    next: Stamp,
    q: Seq<char>,
)
    requires
        st.contains_key(id),
        is_next_after(st, id, next),
        resolve(st, next, q) is Some,
    ensures
        !compacted(st, id, next).contains_key(id),
        ({
            let l = resolve(st, next, q).unwrap();
            &&& resolve(compacted(st, id, next), next, q) == if l.0 == id {
                Some((next, q))
            } else {
                Some(l)
            }
            &&& l.0 == id ==> forward_map(st, id, next).contains_key(q) && forward_map(st, id, next)[q]
                == l.1
        }),
{
    let new = compacted(st, id, next);
    let l = resolve(st, next, q).unwrap();
    assert(new.contains_key(next) && new[next] == crate::compact::compacted_successor(st, id, next));
    if st[next].physical.contains(q) {
        assert(new[next].physical.contains(q));
    } else {
        let t = st[next].references[q];
        lemma_resolve_ends_at_copy(st, t.0, t.1);
        if t.0 == id {
            if l.0 == id {
                assert(forward_map(st, id, next).contains_key(q));
                assert(new[next].physical.contains(q));
            } else {
                assert(!forward_map(st, id, next).contains_key(q));
                assert(new[next].references[q] == l);
                assert(new.contains_key(l.0) && new[l.0] == st[l.0]);
                assert(resolve(new, l.0, l.1) == Some(l));
            }
        } else {
            assert(!forward_map(st, id, next).contains_key(q));
            assert(new[next].references[q] == t);
            assert(t.0.precedes(id));
            assert forall|h: Stamp| (h == t.0 || h.precedes(t.0)) implies (#[trigger] new.contains_key(h)
                == st.contains_key(h) && (new.contains_key(h) ==> new[h] == st[h])) by {}
            lemma_resolve_frame(new, st, t.0, t.1);
            assert(resolve(new, t.0, t.1) == Some(l));
            assert(l.0 == t.0 || l.0.precedes(t.0));
        }
    }
}

/// Removing a generation keeps every other generation resolvable to the same
/// bytes: a path that resolved to a copy owned by the removed generation now
/// resolves to a copy in the successor forwarded from that very file; any
/// other path resolves where it did.
pub proof fn lemma_compaction_keeps_every_generation(
    st: Map<Stamp, GenerationView>,
    id: Stamp,
    next: Stamp,
    h: Stamp,
    q: Seq<char>,
)
    requires
        st.contains_key(id),
        is_next_after(st, id, next),
        later_rows_kept(st, id, next),
        st.contains_key(h),
        h != id,
        resolve(st, h, q) is Some,
    ensures
        ({
            let l = resolve(st, h, q).unwrap();
            let l2 = resolve(compacted(st, id, next), h, q);
            &&& l2 is Some
            &&& l.0 != id ==> l2 == Some(l)
            &&& l.0 == id ==> {
                &&& l2.unwrap().0 == next
                &&& forward_map(st, id, next).contains_key(l2.unwrap().1)
                &&& forward_map(st, id, next)[l2.unwrap().1] == l.1
            }
        }),
    decreases h.rank(),
{
    let new = compacted(st, id, next);
    let l = resolve(st, h, q).unwrap();
    lemma_resolve_ends_at_copy(st, h, q);
    if h == next {
        lemma_compaction_keeps_successor(st, id, next, q);
    } else if h.precedes(id) {
        assert forall|x: Stamp| (x == h || x.precedes(h)) implies (#[trigger] new.contains_key(x)
            == st.contains_key(x) && (new.contains_key(x) ==> new[x] == st[x])) by {}
        lemma_resolve_frame(new, st, h, q);
    } else {
        assert(next.precedes(h));
        assert(new.contains_key(h) && new[h] == compacted_later(st, id, next, h));
        if !st[h].physical.contains(q) {
            let t = st[h].references[q];
            lemma_resolve_ends_at_copy(st, t.0, t.1);
            if t.0 == id {
                if l.0 != id {
                    assert(new.contains_key(l.0) && new[l.0] == st[l.0]);
                    assert(resolve(new, l.0, l.1) == Some(l));
                } else {
                    assert(st[h].references.contains_key(q));
                    assert(later_row_kept(st, id, next, t));
                    assert(new.contains_key(next) && new[next].physical.contains(l.1));
                    assert(resolve(new, next, l.1) == Some((next, l.1)));
                }
            } else {
                lemma_compaction_keeps_every_generation(st, id, next, t.0, t.1);
            }
        }
    }
}

} // verus!
