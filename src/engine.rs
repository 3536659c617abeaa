//! The snapshot engine: classifies each catalogued file against the previous
//! generation and records a new generation that copies what changed and
//! refers back for the rest.

use vstd::prelude::*;
use crate::keyed::entries_map;
use crate::stamp::{local_instant, instant_at, Stamp};
use crate::store::{
    is_latest_before, is_most_recent, path_set, resolve, Generation, GenerationView, Location, Reference, Store, StoreError,
};

verus! {

/// Whether every file is copied, or only those changed since the previous
/// generation.
#[derive(Clone, Copy, Debug, PartialEq, Eq, Structural)]
pub enum BackupMode {
    Full,
    Iterative,
}

/// A file of the world: its world-relative path and the Unix time, in whole
/// seconds, of its last modification.
pub struct CatalogEntry {
    pub path: String,
    pub modified: i64,
}

/// What a backup run did.
#[derive(Debug)]
pub enum SnapshotOutcome {
    /// The most recent generation already carries this run's id.
    UpToDate,
    /// A new generation was recorded.
    Created(SnapshotReport),
}

/// The files a new generation copied, and among them those copied only
/// because their older copy could not be found.
#[derive(Debug)]
pub struct SnapshotReport {
    pub copied: Vec<String>,
    pub fallbacks: Vec<String>,
}

/// A file changed since a generation whose minute began at `reference` when it
/// was modified at or after that instant.
pub fn is_changed(modified: i64, reference: i64) -> (r: bool)
    ensures
        r == (modified >= reference),
{
    modified >= reference
}

/// No path occurs twice in the catalog.
pub open spec fn paths_distinct(c: Seq<CatalogEntry>) -> bool {
    forall|i: int, j: int| 0 <= i < j < c.len() ==> c[i].path@ != c[j].path@
}

/// Whether the new generation takes its own copy of the file: always in a full
/// backup; otherwise when the file changed, or when its older copy cannot be
/// resolved.
pub open spec fn takes_copy(
    st: Map<Stamp, GenerationView>,
    base: Option<(Stamp, i64)>,
    e: CatalogEntry,
) -> bool {
    match base {
        None => true,
        Some((prev, reference)) => e.modified >= reference || resolve(st, prev, e.path@) is None,
    }
}

/// Whether the file is copied only because its older copy cannot be resolved.
pub open spec fn is_fallback(
    st: Map<Stamp, GenerationView>,
    base: Option<(Stamp, i64)>,
    e: CatalogEntry,
) -> bool {
    match base {
        None => false,
        Some((prev, reference)) => e.modified < reference && resolve(st, prev, e.path@) is None,
    }
}

/// Where the new generation records the file: its own copy, or the physical
/// copy the previous generation resolves it to.
pub open spec fn planned_target(
    st: Map<Stamp, GenerationView>,
    id: Stamp,
    base: Option<(Stamp, i64)>,
    e: CatalogEntry,
) -> (Stamp, Seq<char>) {
    if takes_copy(st, base, e) {
        (id, e.path@)
    } else {
        resolve(st, base.unwrap().0, e.path@).unwrap()
    }
}

pub open spec fn planned_rows(
    st: Map<Stamp, GenerationView>,
    id: Stamp,
    base: Option<(Stamp, i64)>,
    c: Seq<CatalogEntry>,
) -> Seq<(Seq<char>, (Stamp, Seq<char>))> {
    c.map_values(|e: CatalogEntry| (e.path@, planned_target(st, id, base, e)))
}

pub open spec fn copied_set(
    st: Map<Stamp, GenerationView>,
    base: Option<(Stamp, i64)>,
    c: Seq<CatalogEntry>,
) -> Set<Seq<char>> {
    Set::new(
        |p: Seq<char>| exists|j: int| 0 <= j < c.len() && c[j].path@ == p && takes_copy(st, base, c[j]),
    )
}

pub open spec fn fallback_set(
    st: Map<Stamp, GenerationView>,
    base: Option<(Stamp, i64)>,
    c: Seq<CatalogEntry>,
) -> Set<Seq<char>> {
    Set::new(
        |p: Seq<char>| exists|j: int| 0 <= j < c.len() && c[j].path@ == p && is_fallback(st, base, c[j]),
    )
}

/// The generation that a run records for catalog `c`.
pub open spec fn snapshot_generation(
    st: Map<Stamp, GenerationView>,
    id: Stamp,
    base: Option<(Stamp, i64)>,
    c: Seq<CatalogEntry>,
) -> GenerationView {
    GenerationView {
        physical: copied_set(st, base, c),
        references: entries_map(planned_rows(st, id, base, c)),
    }
}

/// The previous generation a run of `mode` compares against, with the instant
/// its minute began on a clock `offset` seconds ahead of UTC.
pub open spec fn base_for(
    st: Map<Stamp, GenerationView>,
    id: Stamp,
    mode: BackupMode,
    offset: int,
) -> Option<(Stamp, i64)> {
    if mode == BackupMode::Iterative && exists|prev: Stamp| is_latest_before(st, id, prev) {
        let prev = choose|prev: Stamp| is_latest_before(st, id, prev);
        Some((prev, local_instant(prev, offset) as i64))
    } else {
        None
    }
}

impl Store {
    /// Records generation `id` for catalog `catalog`, comparing against `base`:
    /// the previous generation and the instant its minute began, or nothing for
    /// a full backup.
    pub fn record_snapshot(
        &mut self,
        id: Stamp,
        base: Option<(Stamp, i64)>,
        catalog: &Vec<CatalogEntry>,
    ) -> (r: Result<SnapshotReport, StoreError>)
        requires
            old(self).wf(),
            id.wf(),
            paths_distinct(catalog@),
            base matches Some((prev, _)) ==> old(self)@.contains_key(prev) && prev.precedes(id),
        ensures
            final(self).wf(),
            match r {
                Ok(report) => {
                    &&& !old(self)@.contains_key(id)
                    &&& final(self)@ == old(self)@.insert(
                        id,
                        snapshot_generation(old(self)@, id, base, catalog@),
                    )
                    &&& path_set(report.copied@) == copied_set(old(self)@, base, catalog@)
                    &&& path_set(report.fallbacks@) == fallback_set(old(self)@, base, catalog@)
                },
                Err(e) => {
                    &&& old(self)@.contains_key(id)
                    &&& e == (StoreError::DuplicateGeneration { id })
                    &&& final(self)@ == old(self)@
                },
            },
    {
        if self.contains(id) {
            return Err(StoreError::DuplicateGeneration { id });
        }
        let ghost st = self@;
        let ghost c = catalog@;
        let mut g = Generation { id, physical: Vec::new(), references: Vec::new() };
        let mut copied: Vec<String> = Vec::new();
        let mut fallbacks: Vec<String> = Vec::new();
        let mut i: usize = 0;
        while i < catalog.len()
            invariant
                self.wf(),
                self@ == st,
                c == catalog@,
                g.id == id,
                i <= c.len(),
                g.reference_entries() == planned_rows(st, id, base, c.subrange(0, i as int)),
                path_set(g.physical@) == copied_set(st, base, c.subrange(0, i as int)),
                path_set(copied@) == copied_set(st, base, c.subrange(0, i as int)),
                path_set(fallbacks@) == fallback_set(st, base, c.subrange(0, i as int)),
            decreases c.len() - i,
        {
            let e = &catalog[i];
            let mut found: Option<Location> = None;
            let mut fallback = false;
            if let Some((prev, reference)) = base {
                if !is_changed(e.modified, reference) {
                    match self.resolve(prev, &e.path) {
                        Ok(loc) => {
                            found = Some(loc);
                        },
                        Err(_) => {
                            fallback = true;
                        },
                    }
                }
            }
            let ghost rows = g.reference_entries();
            let ghost before = c.subrange(0, i as int);
            let ghost after = c.subrange(0, i + 1);
            assert(after =~= before.push(c[i as int]));
            let ghost old_physical = g.physical@;
            let ghost old_copied = copied@;
            let ghost old_fallbacks = fallbacks@;
            match found {
                Some(loc) => {
                    g.references.push(Reference { path: e.path.clone(), target: loc });
                },
                None => {
                    g.physical.push(e.path.clone());
                    copied.push(e.path.clone());
                    if fallback {
                        fallbacks.push(e.path.clone());
                    }
                    g.references.push(
                        Reference {
                            path: e.path.clone(),
                            target: Location { generation: id, path: e.path.clone() },
                        },
                    );
                },
            }
            proof {
                let row = g.reference_entries().last();
                assert(row.0 == c[i as int].path@);
                assert(row.1 == planned_target(st, id, base, c[i as int]));
                assert(g.reference_entries() == rows.push(row));
                assert(planned_rows(st, id, base, after) =~= planned_rows(st, id, base, before).push(row));
                assert(g.reference_entries() =~= planned_rows(st, id, base, after));
                lemma_set_step(st, base, before, c[i as int], old_physical, g.physical@);
                lemma_set_step(st, base, before, c[i as int], old_copied, copied@);
                lemma_fallback_step(st, base, before, c[i as int], old_fallbacks, fallbacks@);
            }
            i += 1;
        }
        proof {
            assert(c.subrange(0, i as int) =~= c);
            assert forall|a: int, b: int|
                0 <= a < b < g.reference_entries().len() implies g.reference_entries()[a].0
                != g.reference_entries()[b].0 by {
                assert(g.reference_entries()[a].0 == c[a].path@);
                assert(g.reference_entries()[b].0 == c[b].path@);
            }
            assert(g.reference_entries() == planned_rows(st, id, base, c));
            assert(g@.physical == copied_set(st, base, c));
            assert(g@ == snapshot_generation(st, id, base, c));
        }
        self.push_generation(g);
        Ok(SnapshotReport { copied, fallbacks })
    }

    /// A backup run labelled `id`. Nothing happens when the most recent
    /// generation already has that id; a full backup copies every file; an
    /// iterative one compares modification times with the instant the previous
    /// generation's minute began on a clock `offset_seconds` ahead of UTC.
    pub fn snapshot(
        &mut self,
        id: Stamp,
        mode: BackupMode,
        catalog: &Vec<CatalogEntry>,
        offset_seconds: i32,
    ) -> (r: Result<SnapshotOutcome, StoreError>)
        requires
            old(self).wf(),
            id.wf(),
            paths_distinct(catalog@),
            -93599 <= offset_seconds <= 93599,
        ensures
            final(self).wf(),
            is_most_recent(old(self)@, id) ==> {
                &&& r matches Ok(SnapshotOutcome::UpToDate)
                &&& final(self)@ == old(self)@
            },
            old(self)@.contains_key(id) && !is_most_recent(old(self)@, id) ==> {
                &&& r matches Err(StoreError::DuplicateGeneration { id: d }) && d == id
                &&& final(self)@ == old(self)@
            },
            !old(self)@.contains_key(id) ==> {
                &&& r matches Ok(SnapshotOutcome::Created(report))
                &&& final(self)@ == old(self)@.insert(
                    id,
                    snapshot_generation(
                        old(self)@,
                        id,
                        base_for(old(self)@, id, mode, offset_seconds as int),
                        catalog@,
                    ),
                )
                &&& path_set(report.copied@) == copied_set(
                    old(self)@,
                    base_for(old(self)@, id, mode, offset_seconds as int),
                    catalog@,
                )
                &&& path_set(report.fallbacks@) == fallback_set(
                    old(self)@,
                    base_for(old(self)@, id, mode, offset_seconds as int),
                    catalog@,
                )
            },
    {
        if let Some(recent) = self.most_recent() {
            if recent == id {
                return Ok(SnapshotOutcome::UpToDate);
            }
        }
        if self.contains(id) {
            return Err(StoreError::DuplicateGeneration { id });
        }
        let base = match mode {
            BackupMode::Full => None,
            BackupMode::Iterative => match self.latest_before(id) {
                None => None,
                Some(prev) => {
                    proof {
                        self.lemma_ids_valid(prev);
                        lemma_latest_before_unique(self@, id, prev);
                    }
                    Some((prev, instant_at(prev, offset_seconds)))
                },
            },
        };
        assert(base == base_for(self@, id, mode, offset_seconds as int));
        match self.record_snapshot(id, base, catalog) {
            Ok(report) => Ok(SnapshotOutcome::Created(report)),
            Err(e) => Err(e),
        }
    }
}

proof fn lemma_latest_before_unique(st: Map<Stamp, GenerationView>, id: Stamp, prev: Stamp)
    requires
        is_latest_before(st, id, prev),
    ensures
        (choose|p: Stamp| is_latest_before(st, id, p)) == prev,
{
    let p = choose|p: Stamp| is_latest_before(st, id, p);
    assert(is_latest_before(st, id, p));
    assert(st.contains_key(p) && st.contains_key(prev));
}

proof fn lemma_set_step(
    st: Map<Stamp, GenerationView>,
    base: Option<(Stamp, i64)>,
    before: Seq<CatalogEntry>,
    e: CatalogEntry,
    v0: Seq<String>,
    v1: Seq<String>,
)
    requires
        path_set(v0) == copied_set(st, base, before),
        takes_copy(st, base, e) ==> v1 == v0.push(e.path),
        !takes_copy(st, base, e) ==> v1 == v0,
    ensures
        path_set(v1) == copied_set(st, base, before.push(e)),
{
    let after = before.push(e);
    assert forall|p: Seq<char>| #[trigger] path_set(v1).contains(p) == copied_set(st, base, after).contains(p) by {
        if copied_set(st, base, before).contains(p) {
            let j = choose|j: int| 0 <= j < before.len() && before[j].path@ == p && takes_copy(st, base, before[j]);
            assert(after[j] == before[j]);
        }
        if copied_set(st, base, after).contains(p) {
            let j = choose|j: int| 0 <= j < after.len() && after[j].path@ == p && takes_copy(st, base, after[j]);
            if j < before.len() {
                assert(after[j] == before[j]);
            }
        }
        if path_set(v1).contains(p) {
            let k = choose|k: int| 0 <= k < v1.len() && v1[k]@ == p;
            if k < v0.len() {
                assert(v1[k] == v0[k]);
            }
        }
        if path_set(v0).contains(p) {
            let k = choose|k: int| 0 <= k < v0.len() && v0[k]@ == p;
            assert(v1[k] == v0[k]);
        }
        if takes_copy(st, base, e) && p == e.path@ {
            assert(v1[v0.len() as int]@ == p);
            assert(after[before.len() as int] == e);
        }
    }
    assert(path_set(v1) =~= copied_set(st, base, after));
}

proof fn lemma_fallback_step(
    st: Map<Stamp, GenerationView>,
    base: Option<(Stamp, i64)>,
    before: Seq<CatalogEntry>,
    e: CatalogEntry,
    v0: Seq<String>,
    v1: Seq<String>,
)
    requires
        path_set(v0) == fallback_set(st, base, before),
        is_fallback(st, base, e) ==> v1 == v0.push(e.path),
        !is_fallback(st, base, e) ==> v1 == v0,
    ensures
        path_set(v1) == fallback_set(st, base, before.push(e)),
{
    let after = before.push(e);
    assert forall|p: Seq<char>| #[trigger] path_set(v1).contains(p) == fallback_set(st, base, after).contains(p) by {
        if fallback_set(st, base, before).contains(p) {
            let j = choose|j: int| 0 <= j < before.len() && before[j].path@ == p && is_fallback(st, base, before[j]);
            assert(after[j] == before[j]);
        }
        if fallback_set(st, base, after).contains(p) {
            let j = choose|j: int| 0 <= j < after.len() && after[j].path@ == p && is_fallback(st, base, after[j]);
            if j < before.len() {
                assert(after[j] == before[j]);
            }
        }
        if path_set(v1).contains(p) {
            let k = choose|k: int| 0 <= k < v1.len() && v1[k]@ == p;
            if k < v0.len() {
                assert(v1[k] == v0[k]);
            }
        }
        if path_set(v0).contains(p) {
            let k = choose|k: int| 0 <= k < v0.len() && v0[k]@ == p;
            assert(v1[k] == v0[k]);
        }
        if is_fallback(st, base, e) && p == e.path@ {
            assert(v1[v0.len() as int]@ == p);
            assert(after[before.len() as int] == e);
        }
    }
    assert(path_set(v1) =~= fallback_set(st, base, after));
}

} // verus!
