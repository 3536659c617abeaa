//! The generation store: generations, their physically owned files and their
//! reference tables, and the resolution of a reference chain.

use vstd::prelude::*;
use crate::keyed::{
    entries_map, keys_unique, lemma_entries_map_dom, lemma_entries_map_push,
    lemma_entries_map_remove, lemma_entries_map_unique, lemma_entries_map_update,
};
use crate::stamp::{label_of, Stamp};

verus! {

/// Where a file's bytes live: a path in the storage area of a generation.
#[derive(Debug, PartialEq, Eq)]
pub struct Location {
    pub generation: Stamp,
    pub path: String,
}

impl View for Location {
    type V = (Stamp, Seq<char>);

    open spec fn view(&self) -> (Stamp, Seq<char>) {
        (self.generation, self.path@)
    }
}

/// One row of a reference table: `path` resolves through `target`.
#[derive(Debug, PartialEq, Eq)]
pub struct Reference {
    pub path: String,
    pub target: Location,
}

impl View for Reference {
    type V = (Seq<char>, (Stamp, Seq<char>));

    open spec fn view(&self) -> (Seq<char>, (Stamp, Seq<char>)) {
        (self.path@, self.target@)
    }
}

/// A generation: the files copied into its own storage and its reference table.
pub struct Generation {
    pub id: Stamp,
    pub physical: Vec<String>,
    pub references: Vec<Reference>,
}

/// What a generation holds, as sets and maps of paths.
pub struct GenerationView {
    pub physical: Set<Seq<char>>,
    pub references: Map<Seq<char>, (Stamp, Seq<char>)>,
}

/// The paths that a list of strings names.
pub open spec fn path_set(v: Seq<String>) -> Set<Seq<char>> {
    Set::new(|p: Seq<char>| exists|i: int| 0 <= i < v.len() && v[i]@ == p)
}

/// Whether `path` occurs in `v`.
pub fn contains_path(v: &Vec<String>, path: &String) -> (r: bool)
    ensures
        r == path_set(v@).contains(path@),
{
    let mut i: usize = 0;
    while i < v.len()
        invariant
            i <= v@.len(),
            forall|j: int| 0 <= j < i ==> v@[j]@ != path@,
        decreases v@.len() - i,
    {
        if v[i] == *path {
            return true;
        }
        i += 1;
    }
    false
}

impl Generation {
    pub open spec fn physical_set(&self) -> Set<Seq<char>> {
        path_set(self.physical@)
    }

    pub open spec fn reference_entries(&self) -> Seq<(Seq<char>, (Stamp, Seq<char>))> {
        self.references@.map_values(|r: Reference| r@)
    }

    /// Each path has at most one row in the reference table.
    pub open spec fn wf(&self) -> bool {
        keys_unique(self.reference_entries())
    }

    /// Whether this generation holds its own copy of `path`.
    pub fn owns(&self, path: &String) -> (r: bool)
        ensures
            r == self@.physical.contains(path@),
    {
        contains_path(&self.physical, path)
    }

    /// The row of the reference table for `path`.
    pub fn reference_index(&self, path: &String) -> (r: Option<usize>)
        requires
            self.wf(),
        ensures
            match r {
                Some(i) => {
                    &&& i < self.references@.len()
                    &&& self.references@[i as int].path@ == path@
                    &&& self@.references.contains_key(path@)
                    &&& self@.references[path@] == self.references@[i as int].target@
                },
                None => !self@.references.contains_key(path@),
            },
    {
        let mut i: usize = 0;
        while i < self.references.len()
            invariant
                self.wf(),
                i <= self.references@.len(),
                forall|j: int| 0 <= j < i ==> self.references@[j].path@ != path@,
            decreases self.references@.len() - i,
        {
            if self.references[i].path == *path {
                proof {
                    lemma_entries_map_unique(self.reference_entries(), i as int);
                }
                return Some(i);
            }
            i += 1;
        }
        proof {
            lemma_entries_map_dom(self.reference_entries(), path@);
        }
        None
    }
}

impl Generation {
    /// Sets the row of the reference table for `path`, adding it if missing.
    pub fn set_reference(&mut self, path: String, target: Location)
        requires
            old(self).wf(),
        ensures
            final(self).wf(),
            final(self).id == old(self).id,
            final(self)@ == (GenerationView {
                physical: old(self)@.physical,
                references: old(self)@.references.insert(path@, target@),
            }),
    {
        let ghost before = self.reference_entries();
        let ghost row = (path@, target@);
        match self.reference_index(&path) {
            Some(j) => {
                let mut r = Reference { path, target };
                self.references.set_and_swap(j, &mut r);
                assert(self.reference_entries() =~= before.update(j as int, (before[j as int].0, row.1)));
                proof {
                    lemma_entries_map_update(before, j as int, row.1);
                }
            },
            None => {
                proof {
                    lemma_entries_map_dom(before, path@);
                }
                self.references.push(Reference { path, target });
                assert(self.reference_entries() =~= before.push(row));
                proof {
                    lemma_entries_map_push(before, row);
                }
            },
        }
        assert(self@.physical =~= old(self)@.physical);
    }

    /// Records that this generation holds its own copy of `path`.
    pub fn add_physical(&mut self, path: String)
        ensures
            final(self).wf() == old(self).wf(),
            final(self).id == old(self).id,
            final(self).references@ == old(self).references@,
            final(self)@ == (GenerationView {
                physical: old(self)@.physical.insert(path@),
                references: old(self)@.references,
            }),
    {
        let ghost p = path@;
        self.physical.push(path);
        assert forall|q: Seq<char>| #[trigger] self@.physical.contains(q) == old(self)@.physical.insert(p).contains(q) by {
            if q == p {
                assert(self.physical@[self.physical@.len() - 1]@ == p);
            }
            if old(self)@.physical.contains(q) {
                let i = choose|i: int| 0 <= i < old(self).physical@.len() && old(self).physical@[i]@ == q;
                assert(self.physical@[i]@ == q);
            }
            if self@.physical.contains(q) && q != p {
                let i = choose|i: int| 0 <= i < self.physical@.len() && self.physical@[i]@ == q;
                assert(old(self).physical@[i]@ == q);
            }
        }
        assert(self@.physical =~= old(self)@.physical.insert(p));
        assert(self.reference_entries() =~= old(self).reference_entries());
    }
}

impl View for Generation {
    type V = GenerationView;

    open spec fn view(&self) -> GenerationView {
        GenerationView {
            physical: self.physical_set(),
            references: entries_map(self.reference_entries()),
        }
    }
}

/// The failures of store operations.
#[derive(Debug, PartialEq, Eq)]
pub enum StoreError {
    /// The requested generation does not exist.
    NoSuchGeneration { label: String },
    /// The generation is the most recent one: nothing can absorb its files.
    NoNextGeneration { id: Stamp },
    /// A generation with this id already exists.
    DuplicateGeneration { id: Stamp },
    /// A reference leads to no physical copy.
    BrokenChain { generation: Stamp, path: String },
}

pub open spec fn no_such(e: StoreError, id: Stamp) -> bool {
    e matches StoreError::NoSuchGeneration { label } && label@ == label_of(id)
}

pub open spec fn broken_chain(e: StoreError, id: Stamp, path: Seq<char>) -> bool {
    e matches StoreError::BrokenChain { generation, path: p } && generation == id && p@ == path
}

pub open spec fn empty_generation() -> GenerationView {
    GenerationView { physical: Set::empty(), references: Map::empty() }
}

/// Follows `path` in generation `g` to the physical copy it stands for. Each
/// hop must lead to a strictly older generation, so the walk ends.
pub open spec fn resolve(st: Map<Stamp, GenerationView>, g: Stamp, path: Seq<char>) -> Option<
    (Stamp, Seq<char>),
>
    decreases g.rank(),
{
    if !st.contains_key(g) {
        None
    } else if st[g].physical.contains(path) {
        Some((g, path))
    } else if st[g].references.contains_key(path) && st[g].references[path].0.precedes(g) {
        resolve(st, st[g].references[path].0, st[g].references[path].1)
    } else {
        None
    }
}

/// The most recent generation of a store.
/// A resolved location is a physical copy in the start generation or an
/// older one.
pub proof fn lemma_resolve_ends_at_copy(st: Map<Stamp, GenerationView>, g: Stamp, path: Seq<char>)
    ensures
        resolve(st, g, path) matches Some(l) ==> {
            &&& st.contains_key(l.0)
            &&& st[l.0].physical.contains(l.1)
            &&& (l.0 == g || l.0.precedes(g))
        },
    decreases g.rank(),
{
    if st.contains_key(g) && !st[g].physical.contains(path) && st[g].references.contains_key(path)
        && st[g].references[path].0.precedes(g) {
        lemma_resolve_ends_at_copy(st, st[g].references[path].0, st[g].references[path].1);
    }
}

/// Resolution from `g` reads only `g` and older generations.
pub proof fn lemma_resolve_frame(
    a: Map<Stamp, GenerationView>,
    b: Map<Stamp, GenerationView>,
    g: Stamp,
    path: Seq<char>,
)
    requires
        forall|h: Stamp|
            (h == g || h.precedes(g)) ==> (#[trigger] a.contains_key(h) == b.contains_key(h) && (
            a.contains_key(h) ==> a[h] == b[h])),
    ensures
        resolve(a, g, path) == resolve(b, g, path),
    decreases g.rank(),
{
    if a.contains_key(g) && !a[g].physical.contains(path) && a[g].references.contains_key(path)
        && a[g].references[path].0.precedes(g) {
        let t = a[g].references[path].0;
        assert forall|h: Stamp| (h == t || h.precedes(t)) implies (#[trigger] a.contains_key(h)
            == b.contains_key(h) && (a.contains_key(h) ==> a[h] == b[h])) by {
            assert(h.precedes(g));
        }
        lemma_resolve_frame(a, b, t, a[g].references[path].1);
    }
}

/// The most recent generation of a store.
pub open spec fn is_most_recent(st: Map<Stamp, GenerationView>, id: Stamp) -> bool {
    st.contains_key(id) && forall|g: Stamp| #[trigger] st.contains_key(g) ==> !id.precedes(g)
}

/// The generation that comes right after `id`.
pub open spec fn is_next_after(st: Map<Stamp, GenerationView>, id: Stamp, next: Stamp) -> bool {
    &&& st.contains_key(next)
    &&& id.precedes(next)
    &&& forall|g: Stamp| #[trigger] st.contains_key(g) && id.precedes(g) ==> !g.precedes(next)
}

/// The generation that comes right before `id`.
pub open spec fn is_latest_before(st: Map<Stamp, GenerationView>, id: Stamp, prev: Stamp) -> bool {
    &&& st.contains_key(prev)
    &&& prev.precedes(id)
    &&& forall|g: Stamp| #[trigger] st.contains_key(g) && g.precedes(id) ==> !prev.precedes(g)
}

/// All generations of a backup store.
pub struct Store {
    generations: Vec<Generation>,
}

impl View for Store {
    type V = Map<Stamp, GenerationView>;

    closed spec fn view(&self) -> Map<Stamp, GenerationView> {
        entries_map(self.entries())
    }
}

impl Store {
    closed spec fn entries(&self) -> Seq<(Stamp, GenerationView)> {
        self.generations@.map_values(|g: Generation| (g.id, g@))
    }

    /// Ids are unique and real calendar minutes; each reference table has one
    /// row per path.
    pub closed spec fn wf(&self) -> bool {
        &&& keys_unique(self.entries())
        &&& forall|i: int|
            0 <= i < self.generations@.len() ==> #[trigger] self.generations@[i].wf()
                && self.generations@[i].id.wf()
    }

    /// Every id in the store is a real calendar minute.
    pub proof fn lemma_ids_valid(&self, id: Stamp)
        requires
            self.wf(),
            self@.contains_key(id),
        ensures
            id.wf(),
    {
        lemma_entries_map_dom(self.entries(), id);
        let i = choose|i: int| 0 <= i < self.entries().len() && self.entries()[i].0 == id;
        assert(self.generations@[i].wf());
    }

    /// An empty store.
    pub fn new() -> (r: Store)
        ensures
            r.wf(),
            r@ == Map::<Stamp, GenerationView>::empty(),
    {
        let r = Store { generations: Vec::new() };
        assert(r.entries() =~= Seq::empty());
        assert(r@ =~= Map::<Stamp, GenerationView>::empty());
        r
    }

    fn index_of(&self, id: Stamp) -> (r: Option<usize>)
        requires
            self.wf(),
        ensures
            match r {
                Some(i) => {
                    &&& i < self.generations@.len()
                    &&& self.generations@[i as int].id == id
                    &&& self@.contains_key(id)
                    &&& self@[id] == self.generations@[i as int]@
                },
                None => !self@.contains_key(id),
            },
    {
        let mut i: usize = 0;
        while i < self.generations.len()
            invariant
                self.wf(),
                i <= self.generations@.len(),
                forall|j: int| 0 <= j < i ==> self.generations@[j].id != id,
            decreases self.generations@.len() - i,
        {
            if self.generations[i].id == id {
                proof {
                    lemma_entries_map_unique(self.entries(), i as int);
                }
                return Some(i);
            }
            i += 1;
        }
        proof {
            lemma_entries_map_dom(self.entries(), id);
        }
        None
    }

    /// Whether a generation with this id exists.
    pub fn contains(&self, id: Stamp) -> (r: bool)
        requires
            self.wf(),
        ensures
            r == self@.contains_key(id),
    {
        self.index_of(id).is_some()
    }

    /// Allocates a new generation with no files and an empty reference table.
    pub fn create(&mut self, id: Stamp) -> (r: Result<(), StoreError>)
        requires
            old(self).wf(),
            id.wf(),
        ensures
            final(self).wf(),
            match r {
                Ok(()) => !old(self)@.contains_key(id) && final(self)@ == old(self)@.insert(
                    id,
                    empty_generation(),
                ),
                Err(e) => old(self)@.contains_key(id) && e == StoreError::DuplicateGeneration {
                    id,
                } && final(self)@ == old(self)@,
            },
    {
        if self.contains(id) {
            return Err(StoreError::DuplicateGeneration { id });
        }
        let g = Generation { id, physical: Vec::new(), references: Vec::new() };
        assert(g.reference_entries() =~= Seq::empty());
        assert(g@.physical =~= Set::empty());
        assert(g@.references =~= Map::empty());
        self.push_generation(g);
        Ok(())
    }

    pub(crate) fn push_generation(&mut self, g: Generation)
        requires
            old(self).wf(),
            g.wf(),
            g.id.wf(),
            !old(self)@.contains_key(g.id),
        ensures
            final(self).wf(),
            final(self)@ == old(self)@.insert(g.id, g@),
    {
        let ghost before = self.entries();
        proof {
            assert forall|j: int| 0 <= j < before.len() implies before[j].0 != g.id by {
                lemma_entries_map_dom(before, g.id);
            }
        }
        self.generations.push(g);
        assert(self.entries() =~= before.push((g.id, g@)));
        proof {
            lemma_entries_map_push(before, (g.id, g@));
            assert forall|i: int| 0 <= i < self.generations@.len() implies #[trigger] self.generations@[i].wf()
                && self.generations@[i].id.wf() by {
                if i < before.len() {
                    assert(self.generations@[i] == old(self).generations@[i]);
                }
            }
        }
    }

    /// Puts generation `g` in place of the generation with the same id at `i`.
    fn replace_generation(&mut self, i: usize, g: Generation)
        requires
            old(self).wf(),
            i < old(self).generations@.len(),
            old(self).generations@[i as int].id == g.id,
            g.wf(),
        ensures
            final(self).wf(),
            final(self)@ == old(self)@.insert(g.id, g@),
            final(self).generations@ == old(self).generations@.update(i as int, g),
    {
        let mut g = g;
        self.replace_generation_swap(i, &mut g);
    }

    /// Takes generation `i` out of the store, leaving an empty one with the same id.
    fn take_generation(&mut self, i: usize) -> (g: Generation)
        requires
            old(self).wf(),
            i < old(self).generations@.len(),
        ensures
            final(self).wf(),
            g == old(self).generations@[i as int],
            g.wf(),
            g.id.wf(),
            final(self).generations@.len() == old(self).generations@.len(),
            final(self).generations@[i as int].id == g.id,
            final(self).generations@ == old(self).generations@.update(
                i as int,
                final(self).generations@[i as int],
            ),
            final(self)@ == old(self)@.insert(g.id, empty_generation()),
    {
        let id = self.generations[i].id;
        assert(self.generations@[i as int].wf());
        let placeholder = Generation { id, physical: Vec::new(), references: Vec::new() };
        assert(placeholder.reference_entries() =~= Seq::empty());
        assert(placeholder@.physical =~= Set::empty());
        assert(placeholder@.references =~= Map::empty());
        let mut g = placeholder;
        self.replace_generation_swap(i, &mut g);
        g
    }

    fn replace_generation_swap(&mut self, i: usize, g: &mut Generation)
        requires
            old(self).wf(),
            i < old(self).generations@.len(),
            old(self).generations@[i as int].id == old(g).id,
            old(g).wf(),
        ensures
            final(self).wf(),
            final(self)@ == old(self)@.insert(old(g).id, old(g)@),
            final(self).generations@ == old(self).generations@.update(i as int, *old(g)),
            *final(g) == old(self).generations@[i as int],
    {
        let ghost before = self.entries();
        let ghost fresh = *g;
        self.generations.set_and_swap(i, g);
        assert(self.generations@[i as int] == fresh);
        assert(self.entries() =~= before.update(i as int, (before[i as int].0, fresh@)));
        proof {
            lemma_entries_map_update(before, i as int, fresh@);
            assert forall|j: int| 0 <= j < self.generations@.len() implies #[trigger] self.generations@[j].wf()
                && self.generations@[j].id.wf() by {
                if j != i {
                    assert(self.generations@[j] == old(self).generations@[j]);
                } else {
                    assert(old(self).generations@[j].wf());
                }
            }
        }
    }

    /// The generation with id `id`.
    pub(crate) fn generation(&self, id: Stamp) -> (g: &Generation)
        requires
            self.wf(),
            self@.contains_key(id),
        ensures
            g.wf(),
            g.id == id,
            g@ == self@[id],
    {
        let i = self.index_of(id).unwrap();
        assert(self.generations@[i as int].wf());
        &self.generations[i]
    }

    /// Takes generation `id` out of the store, leaving an empty one in its place.
    pub(crate) fn take_by_id(&mut self, id: Stamp) -> (g: Generation)
        requires
            old(self).wf(),
            old(self)@.contains_key(id),
        ensures
            final(self).wf(),
            g.wf(),
            g.id == id,
            g@ == old(self)@[id],
            final(self)@ == old(self)@.insert(id, empty_generation()),
    {
        let i = self.index_of(id).unwrap();
        self.take_generation(i)
    }

    /// Puts `g` in place of the generation with its id.
    pub(crate) fn put_back(&mut self, g: Generation)
        requires
            old(self).wf(),
            old(self)@.contains_key(g.id),
            g.wf(),
        ensures
            final(self).wf(),
            final(self)@ == old(self)@.insert(g.id, g@),
    {
        let i = self.index_of(g.id).unwrap();
        self.replace_generation(i, g);
    }

    /// Records in generation `generation` that `path` resolves through `target`.
    /// Nothing checks here that the chain ends at a physical copy.
    pub fn put_reference(&mut self, generation: Stamp, path: String, target: Location) -> (r: Result<
        (),
        StoreError,
    >)
        requires
            old(self).wf(),
            generation.wf(),
        ensures
            final(self).wf(),
            match r {
                Ok(()) => old(self)@.contains_key(generation) && final(self)@ == old(self)@.insert(
                    generation,
                    GenerationView {
                        physical: old(self)@[generation].physical,
                        references: old(self)@[generation].references.insert(path@, target@),
                    },
                ),
                Err(e) => !old(self)@.contains_key(generation) && no_such(e, generation)
                    && final(self)@ == old(self)@,
            },
    {
        match self.index_of(generation) {
            None => Err(StoreError::NoSuchGeneration { label: generation.label() }),
            Some(i) => {
                let mut g = self.take_generation(i);
                g.set_reference(path, target);
                self.replace_generation(i, g);
                assert(final(self)@ =~= old(self)@.insert(generation, g@));
                Ok(())
            },
        }
    }

    /// Records that generation `generation` holds its own copy of `path`.
    pub fn record_physical(&mut self, generation: Stamp, path: String) -> (r: Result<(), StoreError>)
        requires
            old(self).wf(),
            generation.wf(),
        ensures
            final(self).wf(),
            match r {
                Ok(()) => old(self)@.contains_key(generation) && final(self)@ == old(self)@.insert(
                    generation,
                    GenerationView {
                        physical: old(self)@[generation].physical.insert(path@),
                        references: old(self)@[generation].references,
                    },
                ),
                Err(e) => !old(self)@.contains_key(generation) && no_such(e, generation)
                    && final(self)@ == old(self)@,
            },
    {
        match self.index_of(generation) {
            None => Err(StoreError::NoSuchGeneration { label: generation.label() }),
            Some(i) => {
                let mut g = self.take_generation(i);
                g.add_physical(path);
                self.replace_generation(i, g);
                Ok(())
            },
        }
    }

    /// Follows `path` in `generation` to the physical copy it stands for.
    pub fn resolve(&self, generation: Stamp, path: &String) -> (r: Result<Location, StoreError>)
        requires
            self.wf(),
        ensures
            match r {
                Ok(loc) => resolve(self@, generation, path@) == Some(loc@),
                Err(e) => resolve(self@, generation, path@) is None && broken_chain(
                    e,
                    generation,
                    path@,
                ),
            },
    {
        let mut g = generation;
        let mut p = path.clone();
        loop
            invariant
                self.wf(),
                resolve(self@, g, p@) == resolve(self@, generation, path@),
            decreases g.rank(),
        {
            let i = match self.index_of(g) {
                Some(i) => i,
                None => {
                    return Err(StoreError::BrokenChain { generation, path: path.clone() });
                },
            };
            let gen = &self.generations[i];
            assert(gen.wf());
            if gen.owns(&p) {
                return Ok(Location { generation: g, path: p });
            }
            let j = match gen.reference_index(&p) {
                Some(j) => j,
                None => {
                    return Err(StoreError::BrokenChain { generation, path: path.clone() });
                },
            };
            let target = &gen.references[j].target;
            if !target.generation.is_before(&g) {
                return Err(StoreError::BrokenChain { generation, path: path.clone() });
            }
            g = target.generation;
            p = target.path.clone();
        }
    }

    /// The reference table of a generation, one row per path.
    pub fn list_references(&self, generation: Stamp) -> (r: Result<Vec<Reference>, StoreError>)
        requires
            self.wf(),
            generation.wf(),
        ensures
            match r {
                Ok(rows) => {
                    &&& self@.contains_key(generation)
                    &&& keys_unique(rows@.map_values(|x: Reference| x@))
                    &&& entries_map(rows@.map_values(|x: Reference| x@))
                        == self@[generation].references
                },
                Err(e) => !self@.contains_key(generation) && no_such(e, generation),
            },
    {
        let i = match self.index_of(generation) {
            Some(i) => i,
            None => {
                return Err(StoreError::NoSuchGeneration { label: generation.label() });
            },
        };
        let gen = &self.generations[i];
        assert(gen.wf());
        let mut rows: Vec<Reference> = Vec::new();
        let mut j: usize = 0;
        while j < gen.references.len()
            invariant
                j <= gen.references@.len(),
                rows@.map_values(|x: Reference| x@) == gen.reference_entries().subrange(0, j as int),
            decreases gen.references@.len() - j,
        {
            let row = &gen.references[j];
            let copy = Reference {
                path: row.path.clone(),
                target: Location { generation: row.target.generation, path: row.target.path.clone() },
            };
            let ghost before = rows@;
            rows.push(copy);
            assert(rows@.map_values(|x: Reference| x@) =~= before.map_values(|x: Reference| x@).push(copy@));
            assert(rows@.map_values(|x: Reference| x@) =~= gen.reference_entries().subrange(0, j + 1));
            j += 1;
        }
        assert(gen.reference_entries().subrange(0, j as int) =~= gen.reference_entries());
        Ok(rows)
    }

    /// The files that a generation holds its own copies of.
    pub fn physical_files(&self, generation: Stamp) -> (r: Result<Vec<String>, StoreError>)
        requires
            self.wf(),
            generation.wf(),
        ensures
            match r {
                Ok(files) => self@.contains_key(generation) && path_set(files@)
                    == self@[generation].physical,
                Err(e) => !self@.contains_key(generation) && no_such(e, generation),
            },
    {
        let i = match self.index_of(generation) {
            Some(i) => i,
            None => {
                return Err(StoreError::NoSuchGeneration { label: generation.label() });
            },
        };
        let gen = &self.generations[i];
        let mut files: Vec<String> = Vec::new();
        let mut j: usize = 0;
        while j < gen.physical.len()
            invariant
                j <= gen.physical@.len(),
                files@.len() == j,
                forall|k: int| 0 <= k < j ==> #[trigger] files@[k]@ == gen.physical@[k]@,
            decreases gen.physical@.len() - j,
        {
            files.push(gen.physical[j].clone());
            j += 1;
        }
        proof {
            assert(self@[generation] == gen@);
            assert forall|p: Seq<char>| #[trigger] path_set(files@).contains(p) == gen@.physical.contains(p) by {
                if gen@.physical.contains(p) {
                    let k = choose|k: int| 0 <= k < gen.physical@.len() && gen.physical@[k]@ == p;
                    assert(files@[k]@ == p);
                }
                if path_set(files@).contains(p) {
                    let k = choose|k: int| 0 <= k < files@.len() && files@[k]@ == p;
                    assert(gen.physical@[k]@ == p);
                }
            }
            assert(path_set(files@) =~= gen@.physical);
        }
        Ok(files)
    }

    /// The ids of all generations.
    pub fn generation_ids(&self) -> (r: Vec<Stamp>)
        requires
            self.wf(),
        ensures
            forall|g: Stamp| self@.contains_key(g) <==> r@.contains(g),
            forall|i: int| 0 <= i < r@.len() ==> (#[trigger] r@[i]).wf(),
            r@.no_duplicates(),
    {
        let mut ids: Vec<Stamp> = Vec::new();
        let mut j: usize = 0;
        while j < self.generations.len()
            invariant
                self.wf(),
                j <= self.generations@.len(),
                ids@.len() == j,
                forall|k: int| 0 <= k < j ==> #[trigger] ids@[k] == self.generations@[k].id,
            decreases self.generations@.len() - j,
        {
            ids.push(self.generations[j].id);
            j += 1;
        }
        proof {
            assert forall|g: Stamp| self@.contains_key(g) <==> ids@.contains(g) by {
                lemma_entries_map_dom(self.entries(), g);
                if self@.contains_key(g) {
                    let k = choose|k: int| 0 <= k < self.entries().len() && self.entries()[k].0 == g;
                    assert(ids@[k] == g);
                }
                if ids@.contains(g) {
                    let k = choose|k: int| 0 <= k < ids@.len() && ids@[k] == g;
                    assert(self.entries()[k].0 == g);
                }
            }
            assert forall|i: int| 0 <= i < ids@.len() implies (#[trigger] ids@[i]).wf() by {
                assert(self.generations@[i].wf());
            }
            assert forall|a: int, b: int| 0 <= a < ids@.len() && 0 <= b < ids@.len() && a != b implies ids@[a] != ids@[b] by {
                if a < b {
                    assert(self.entries()[a].0 != self.entries()[b].0);
                } else {
                    assert(self.entries()[b].0 != self.entries()[a].0);
                }
            }
        }
        ids
    }

    /// Deletes a generation and its reference table. Nothing checks here that
    /// no other generation depends on it.
    pub fn remove(&mut self, generation: Stamp) -> (r: Result<(), StoreError>)
        requires
            old(self).wf(),
            generation.wf(),
        ensures
            final(self).wf(),
            match r {
                Ok(()) => old(self)@.contains_key(generation) && final(self)@ == old(self)@.remove(
                    generation,
                ),
                Err(e) => !old(self)@.contains_key(generation) && no_such(e, generation)
                    && final(self)@ == old(self)@,
            },
    {
        match self.index_of(generation) {
            None => Err(StoreError::NoSuchGeneration { label: generation.label() }),
            Some(i) => {
                let ghost before = self.entries();
                self.generations.remove(i);
                assert(self.entries() =~= before.remove(i as int));
                proof {
                    lemma_entries_map_remove(before, i as int);
                    assert forall|j: int| 0 <= j < self.generations@.len() implies #[trigger] self.generations@[j].wf()
                        && self.generations@[j].id.wf() by {
                        let k = if j < i { j } else { j + 1 };
                        assert(self.generations@[j] == old(self).generations@[k]);
                        assert(old(self).generations@[k].wf());
                    }
                }
                Ok(())
            },
        }
    }

    /// The most recent generation, if any.
    pub fn most_recent(&self) -> (r: Option<Stamp>)
        requires
            self.wf(),
        ensures
            match r {
                Some(id) => is_most_recent(self@, id),
                None => self@ == Map::<Stamp, GenerationView>::empty(),
            },
    {
        if self.generations.len() == 0 {
            proof {
                assert forall|k: Stamp| !self@.contains_key(k) by {
                    lemma_entries_map_dom(self.entries(), k);
                }
                assert(self@ =~= Map::<Stamp, GenerationView>::empty());
            }
            return None;
        }
        let mut best = self.generations[0].id;
        let mut i: usize = 1;
        while i < self.generations.len()
            invariant
                1 <= i <= self.generations@.len(),
                exists|j: int| 0 <= j < i && self.generations@[j].id == best,
                forall|j: int| 0 <= j < i ==> !best.precedes(#[trigger] self.generations@[j].id),
            decreases self.generations@.len() - i,
        {
            if best.is_before(&self.generations[i].id) {
                best = self.generations[i].id;
            }
            i += 1;
        }
        proof {
            let k = choose|j: int| 0 <= j < i && self.generations@[j].id == best;
            assert(self.entries()[k].0 == best);
            lemma_entries_map_dom(self.entries(), best);
            assert forall|g: Stamp| #[trigger] self@.contains_key(g) implies !best.precedes(g) by {
                lemma_entries_map_dom(self.entries(), g);
                let j = choose|j: int| 0 <= j < self.entries().len() && self.entries()[j].0 == g;
                assert(self.generations@[j].id == g);
            }
        }
        Some(best)
    }

    /// The generation right after `id`, if any.
    pub fn next_after(&self, id: Stamp) -> (r: Option<Stamp>)
        requires
            self.wf(),
        ensures
            match r {
                Some(next) => is_next_after(self@, id, next),
                None => forall|g: Stamp| #[trigger] self@.contains_key(g) ==> !id.precedes(g),
            },
    {
        let mut best: Option<Stamp> = None;
        let mut i: usize = 0;
        while i < self.generations.len()
            invariant
                i <= self.generations@.len(),
                match best {
                    Some(b) => {
                        &&& exists|j: int| 0 <= j < i && self.generations@[j].id == b
                        &&& id.precedes(b)
                        &&& forall|j: int|
                            0 <= j < i && id.precedes(#[trigger] self.generations@[j].id)
                                ==> !self.generations@[j].id.precedes(b)
                    },
                    None => forall|j: int|
                        0 <= j < i ==> !id.precedes(#[trigger] self.generations@[j].id),
                },
            decreases self.generations@.len() - i,
        {
            let g = self.generations[i].id;
            if id.is_before(&g) {
                match best {
                    Some(b) => {
                        if g.is_before(&b) {
                            best = Some(g);
                        }
                    },
                    None => {
                        best = Some(g);
                    },
                }
            }
            i += 1;
        }
        proof {
            assert forall|g: Stamp| #[trigger] self@.contains_key(g) implies exists|j: int|
                0 <= j < self.generations@.len() && self.generations@[j].id == g by {
                lemma_entries_map_dom(self.entries(), g);
                let j = choose|j: int| 0 <= j < self.entries().len() && self.entries()[j].0 == g;
                assert(self.generations@[j].id == g);
            }
            if let Some(b) = best {
                lemma_entries_map_dom(self.entries(), b);
                let j = choose|j: int| 0 <= j < self.generations@.len() && self.generations@[j].id == b;
                assert(self.entries()[j].0 == b);
            }
        }
        best
    }

    /// The generation right before `id`, if any.
    pub fn latest_before(&self, id: Stamp) -> (r: Option<Stamp>)
        requires
            self.wf(),
        ensures
            match r {
                Some(prev) => is_latest_before(self@, id, prev),
                None => forall|g: Stamp| #[trigger] self@.contains_key(g) ==> !g.precedes(id),
            },
    {
        let mut best: Option<Stamp> = None;
        let mut i: usize = 0;
        while i < self.generations.len()
            invariant
                i <= self.generations@.len(),
                match best {
                    Some(b) => {
                        &&& exists|j: int| 0 <= j < i && self.generations@[j].id == b
                        &&& b.precedes(id)
                        &&& forall|j: int|
                            0 <= j < i && (#[trigger] self.generations@[j].id).precedes(id)
                                ==> !b.precedes(self.generations@[j].id)
                    },
                    None => forall|j: int|
                        0 <= j < i ==> !(#[trigger] self.generations@[j].id).precedes(id),
                },
            decreases self.generations@.len() - i,
        {
            let g = self.generations[i].id;
            if g.is_before(&id) {
                match best {
                    Some(b) => {
                        if b.is_before(&g) {
                            best = Some(g);
                        }
                    },
                    None => {
                        best = Some(g);
                    },
                }
            }
            i += 1;
        }
        proof {
            assert forall|g: Stamp| #[trigger] self@.contains_key(g) implies exists|j: int|
                0 <= j < self.generations@.len() && self.generations@[j].id == g by {
                lemma_entries_map_dom(self.entries(), g);
                let j = choose|j: int| 0 <= j < self.entries().len() && self.entries()[j].0 == g;
                assert(self.generations@[j].id == g);
            }
            if let Some(b) = best {
                lemma_entries_map_dom(self.entries(), b);
                let j = choose|j: int| 0 <= j < self.generations@.len() && self.generations@[j].id == b;
                assert(self.entries()[j].0 == b);
            }
        }
        best
    }
}

} // verus!
