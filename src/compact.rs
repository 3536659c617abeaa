//! The compactor: removes an intermediate generation after handing the
//! physical copies that later generations depend on to its successor.

use vstd::prelude::*;
use crate::keyed::{
    entries_map, keys_unique, lemma_entries_map_dom, lemma_entries_map_map_entries,
    lemma_entries_map_unique, map_entries,
};
use crate::stamp::Stamp;
use crate::store::{
    contains_path, is_most_recent, is_next_after, lemma_resolve_frame, no_such,
    path_set, resolve, Generation, GenerationView, Location, Reference, Store, StoreError,
};

verus! {

/// A copy to make before the removed generation's storage is deleted: its file
/// at `from` goes to `to` in the successor's storage.
#[derive(Debug, PartialEq, Eq)]
pub struct Forward {
    pub from: String,
    pub to: String,
}

/// What removing a generation asks of the storage: make the forwarded copies
/// into `successor`, then delete `removed`.
#[derive(Debug)]
pub struct Compaction {
    pub removed: Stamp,
    pub successor: Stamp,
    pub forwards: Vec<Forward>,
}

pub open spec fn forward_entries(f: Seq<Forward>) -> Seq<(Seq<char>, Seq<char>)> {
    f.map_values(|x: Forward| (x.to@, x.from@))
}

/// Whether the successor's row `(q, t)` leads to a copy physically owned by the
/// removed generation `id`, so that the copy moves to `q` in the successor.
pub open spec fn forwards_row(
    st: Map<Stamp, GenerationView>,
    id: Stamp,
    next: Stamp,
    q: Seq<char>,
    t: (Stamp, Seq<char>),
) -> bool {
    &&& t.0 == id
    &&& !st[next].physical.contains(q)
    &&& resolve(st, id, t.1) matches Some(l) && l.0 == id
}

/// The successor's paths that receive a copy from the removed generation,
/// with the path of that copy in the removed generation.
pub open spec fn forward_map(st: Map<Stamp, GenerationView>, id: Stamp, next: Stamp) -> Map<
    Seq<char>,
    Seq<char>,
> {
    Map::new(
        |q: Seq<char>|
            st[next].references.contains_key(q) && forwards_row(st, id, next, q, st[next].references[q]),
        |q: Seq<char>| resolve(st, id, st[next].references[q].1).unwrap().1,
    )
}

/// The successor's new target for row `(q, t)`: its own forwarded copy, or the
/// older copy the removed generation resolved it to.
pub open spec fn successor_row(
    st: Map<Stamp, GenerationView>,
    id: Stamp,
    next: Stamp,
    q: Seq<char>,
    t: (Stamp, Seq<char>),
) -> (Stamp, Seq<char>) {
    if t.0 == id && resolve(st, id, t.1) is Some {
        let l = resolve(st, id, t.1).unwrap();
        if l.0 == id {
            (next, q)
        } else {
            l
        }
    } else {
        t
    }
}

/// A later generation's new target for a row that pointed into the removed
/// generation: the older copy it resolved to, or the successor's forwarded
/// copy at the same path.
pub open spec fn later_row(
    st: Map<Stamp, GenerationView>,
    id: Stamp,
    next: Stamp,
    t: (Stamp, Seq<char>),
) -> (Stamp, Seq<char>) {
    if t.0 == id && resolve(st, id, t.1) is Some {
        let l = resolve(st, id, t.1).unwrap();
        if l.0 != id {
            l
        } else if forward_map(st, id, next).contains_key(l.1) && forward_map(st, id, next)[l.1]
            == l.1 {
            (next, l.1)
        } else {
            t
        }
    } else {
        t
    }
}

pub open spec fn compacted_successor(
    st: Map<Stamp, GenerationView>,
    id: Stamp,
    next: Stamp,
) -> GenerationView {
    GenerationView {
        physical: st[next].physical.union(forward_map(st, id, next).dom()),
        references: Map::new(
            |q: Seq<char>| st[next].references.contains_key(q),
            |q: Seq<char>| successor_row(st, id, next, q, st[next].references[q]),
        ),
    }
}

pub open spec fn compacted_later(
    st: Map<Stamp, GenerationView>,
    id: Stamp,
    next: Stamp,
    h: Stamp,
) -> GenerationView {
    GenerationView {
        physical: st[h].physical,
        references: Map::new(
            |q: Seq<char>| st[h].references.contains_key(q),
            |q: Seq<char>| later_row(st, id, next, st[h].references[q]),
        ),
    }
}

/// The store after removing `id`, whose successor is `next`.
pub open spec fn compacted(st: Map<Stamp, GenerationView>, id: Stamp, next: Stamp) -> Map<
    Stamp,
    GenerationView,
> {
    Map::new(
        |h: Stamp| st.contains_key(h) && h != id,
        |h: Stamp|
            if h == next {
                compacted_successor(st, id, next)
            } else if id.precedes(h) {
                compacted_later(st, id, next, h)
            } else {
                st[h]
            },
    )
}

/// A row of a generation later than the successor that leads to a copy owned
/// by the removed generation `id` can follow that copy: the successor receives
/// it at the same path.
pub open spec fn later_row_kept(
    st: Map<Stamp, GenerationView>,
    id: Stamp,
    next: Stamp,
    t: (Stamp, Seq<char>),
) -> bool {
    if t.0 == id && resolve(st, id, t.1) is Some && resolve(st, id, t.1).unwrap().0 == id {
        let p = resolve(st, id, t.1).unwrap().1;
        forward_map(st, id, next).contains_key(p) && forward_map(st, id, next)[p] == p
    } else {
        true
    }
}

/// Every row of every generation later than the successor can be kept.
pub open spec fn later_rows_kept(st: Map<Stamp, GenerationView>, id: Stamp, next: Stamp) -> bool {
    forall|h: Stamp, q: Seq<char>|
        st.contains_key(h) && next.precedes(h) && #[trigger] st[h].references.contains_key(q)
            ==> later_row_kept(st, id, next, st[h].references[q])
}

/// `e` names a row of a generation later than the successor that removing `id`
/// would leave without its copy.
pub open spec fn strands_row(
    st: Map<Stamp, GenerationView>,
    id: Stamp,
    next: Stamp,
    e: StoreError,
) -> bool {
    &&& e matches StoreError::BrokenChain { generation, path }
    &&& st.contains_key(generation) && next.precedes(generation)
    &&& st[generation].references.contains_key(path@)
    &&& !later_row_kept(st, id, next, st[generation].references[path@])
}

/// `a` and `b` agree on `id` and every older generation.
pub open spec fn agree_up_to(
    a: Map<Stamp, GenerationView>,
    b: Map<Stamp, GenerationView>,
    id: Stamp,
) -> bool {
    forall|h: Stamp|
        (h == id || h.precedes(id)) ==> (#[trigger] a.contains_key(h) == b.contains_key(h) && (
        a.contains_key(h) ==> a[h] == b[h]))
}

proof fn lemma_agree_resolve(
    a: Map<Stamp, GenerationView>,
    b: Map<Stamp, GenerationView>,
    id: Stamp,
    p: Seq<char>,
)
    requires
        agree_up_to(a, b, id),
    ensures
        resolve(a, id, p) == resolve(b, id, p),
{
    assert forall|h: Stamp| (h == id || h.precedes(id)) implies (#[trigger] a.contains_key(h)
        == b.contains_key(h) && (a.contains_key(h) ==> a[h] == b[h])) by {}
    lemma_resolve_frame(a, b, id, p);
}

/// The successor's paths among the first `j` rows `e` that receive a copy.
pub open spec fn forwarded_prefix(
    st: Map<Stamp, GenerationView>,
    id: Stamp,
    next: Stamp,
    e: Seq<(Seq<char>, (Stamp, Seq<char>))>,
    j: int,
) -> Set<Seq<char>> {
    Set::new(
        |q: Seq<char>| exists|k: int| 0 <= k < j && e[k].0 == q && forwards_row(st, id, next, e[k].0, e[k].1),
    )
}

pub open spec fn forward_source(
    st: Map<Stamp, GenerationView>,
    id: Stamp,
    e: Seq<(Seq<char>, (Stamp, Seq<char>))>,
    q: Seq<char>,
) -> Seq<char> {
    resolve(st, id, entries_map(e)[q].1).unwrap().1
}

proof fn lemma_forwarded_step(
    st: Map<Stamp, GenerationView>,
    id: Stamp,
    next: Stamp,
    e: Seq<(Seq<char>, (Stamp, Seq<char>))>,
    j: int,
)
    requires
        0 <= j < e.len(),
    ensures
        forwarded_prefix(st, id, next, e, j + 1) == if forwards_row(st, id, next, e[j].0, e[j].1) {
            forwarded_prefix(st, id, next, e, j).insert(e[j].0)
        } else {
            forwarded_prefix(st, id, next, e, j)
        },
{
    let a = forwarded_prefix(st, id, next, e, j + 1);
    let b = forwarded_prefix(st, id, next, e, j);
    assert forall|q: Seq<char>| #[trigger] a.contains(q) == (b.contains(q) || (q == e[j].0
        && forwards_row(st, id, next, e[j].0, e[j].1))) by {
        if a.contains(q) {
            let k = choose|k: int| 0 <= k < j + 1 && e[k].0 == q && forwards_row(st, id, next, e[k].0, e[k].1);
            if k < j {
                assert(b.contains(q));
            }
        }
        if b.contains(q) {
            let k = choose|k: int| 0 <= k < j && e[k].0 == q && forwards_row(st, id, next, e[k].0, e[k].1);
            assert(a.contains(q));
        }
    }
    if forwards_row(st, id, next, e[j].0, e[j].1) {
        assert(a =~= b.insert(e[j].0));
    } else {
        assert(a =~= b);
    }
}

/// With all rows seen, the forwarded paths are those of the forward map.
proof fn lemma_forwarded_all(
    st: Map<Stamp, GenerationView>,
    id: Stamp,
    next: Stamp,
    e: Seq<(Seq<char>, (Stamp, Seq<char>))>,
)
    requires
        st.contains_key(next),
        keys_unique(e),
        entries_map(e) == st[next].references,
    ensures
        forwarded_prefix(st, id, next, e, e.len() as int) == forward_map(st, id, next).dom(),
        forall|q: Seq<char>|
            #[trigger] forward_map(st, id, next).contains_key(q) ==> forward_map(st, id, next)[q]
                == forward_source(st, id, e, q),
{
    let a = forwarded_prefix(st, id, next, e, e.len() as int);
    let m = forward_map(st, id, next);
    assert forall|q: Seq<char>| #[trigger] a.contains(q) == m.dom().contains(q) by {
        lemma_entries_map_dom(e, q);
        if a.contains(q) {
            let k = choose|k: int| 0 <= k < e.len() && e[k].0 == q && forwards_row(st, id, next, e[k].0, e[k].1);
            lemma_entries_map_unique(e, k);
        }
        if m.dom().contains(q) {
            let k = choose|k: int| 0 <= k < e.len() && e[k].0 == q;
            lemma_entries_map_unique(e, k);
            assert(a.contains(q));
        }
    }
    assert(a =~= m.dom());
}

impl Store {
    /// The successor of `id` after compaction, built from its generation `g`,
    /// with the copies it receives.
    fn compact_successor(
        &self,
        Ghost(st): Ghost<Map<Stamp, GenerationView>>,
        id: Stamp,
        g: &Generation,
    ) -> (r: (Generation, Vec<Forward>))
        requires
            self.wf(),
            agree_up_to(self@, st, id),
            st.contains_key(g.id),
            g@ == st[g.id],
            g.wf(),
        ensures
            r.0.wf(),
            r.0.id == g.id,
            r.0@ == compacted_successor(st, id, g.id),
            keys_unique(forward_entries(r.1@)),
            entries_map(forward_entries(r.1@)) == forward_map(st, id, g.id),
    {
        let next = g.id;
        let ghost e = g.reference_entries();
        let ghost f = |q: Seq<char>, t: (Stamp, Seq<char>)| successor_row(st, id, next, q, t);
        let gid = g.id;
        let references = &g.references;
        let mut physical = copy_paths(&g.physical);
        let ghost old_physical = path_set(physical@);
        let mut rows: Vec<Reference> = Vec::new();
        let mut forwards: Vec<Forward> = Vec::new();
        let mut j: usize = 0;
        while j < references.len()
            invariant
                self.wf(),
                agree_up_to(self@, st, id),
                st.contains_key(next),
                old_physical == st[next].physical,
                e == references@.map_values(|r: Reference| r@),
                keys_unique(e),
                entries_map(e) == st[next].references,
                j <= e.len(),
                f == (|q: Seq<char>, t: (Stamp, Seq<char>)| successor_row(st, id, next, q, t)),
                rows@.map_values(|r: Reference| r@) == map_entries(e.subrange(0, j as int), f),
                path_set(physical@) == old_physical.union(forwarded_prefix(st, id, next, e, j as int)),
                keys_unique(forward_entries(forwards@)),
                forall|m: int|
                    0 <= m < forwards@.len() ==> exists|k: int|
                        0 <= k < j && #[trigger] forward_entries(forwards@)[m].0 == e[k].0,
                forall|q: Seq<char>|
                    #[trigger] entries_map(forward_entries(forwards@)).contains_key(q)
                        == forwarded_prefix(st, id, next, e, j as int).contains(q),
                forall|q: Seq<char>|
                    #[trigger] entries_map(forward_entries(forwards@)).contains_key(q) ==> entries_map(
                        forward_entries(forwards@),
                    )[q] == forward_source(st, id, e, q),
            decreases e.len() - j,
        {
            let row = &references[j];
            let q = &row.path;
            let ghost t = e[j as int].1;
            proof {
                lemma_entries_map_unique(e, j as int);
                assert(row@ == e[j as int]);
                lemma_forwarded_step(st, id, next, e, j as int);
                assert forall|k: int| 0 <= k < j implies e[k].0 != q@ by {}
                assert(!forwarded_prefix(st, id, next, e, j as int).contains(q@));
            }
            let ghost rows0 = rows@.map_values(|r: Reference| r@);
            let ghost fw0 = forward_entries(forwards@);
            let ghost ph0 = physical@;
            let target = if row.target.generation == id {
                proof {
                    lemma_agree_resolve(self@, st, id, row.target.path@);
                }
                match self.resolve(id, &row.target.path) {
                    Ok(l) => {
                        if l.generation == id {
                            let owned = contains_path(&physical, q);
                            if !owned {
                                proof {
                                    assert(forwards_row(st, id, next, q@, t));
                                    assert forall|m: int| 0 <= m < fw0.len() implies fw0[m].0 != q@ by {
                                        let k = choose|k: int| 0 <= k < j && #[trigger] fw0[m].0 == e[k].0;
                                    }
                                }
                                forwards.push(Forward { from: l.path, to: q.clone() });
                                physical.push(q.clone());
                                proof {
                                    assert(forward_entries(forwards@) =~= fw0.push((q@, l@.1)));
                                    crate::keyed::lemma_entries_map_push(fw0, (q@, l@.1));
                                    assert(path_set(physical@) =~= path_set(ph0).insert(q@)) by {
                                        assert forall|x: Seq<char>| #[trigger] path_set(physical@).contains(x) == path_set(ph0).insert(q@).contains(x) by {
                                            if path_set(ph0).contains(x) {
                                                let k = choose|k: int| 0 <= k < ph0.len() && ph0[k]@ == x;
                                                assert(physical@[k] == ph0[k]);
                                            }
                                            if x == q@ {
                                                assert(physical@[ph0.len() as int]@ == x);
                                            }
                                            if path_set(physical@).contains(x) {
                                                let k = choose|k: int| 0 <= k < physical@.len() && physical@[k]@ == x;
                                                if k < ph0.len() {
                                                    assert(physical@[k] == ph0[k]);
                                                }
                                            }
                                        }
                                    }
                                }
                            } else {
                                proof {
                                    assert(!forwards_row(st, id, next, q@, t));
                                }
                            }
                            let loc = Location { generation: next, path: q.clone() };
                            assert(loc@ == successor_row(st, id, next, q@, t));
                            loc
                        } else {
                            assert(l@ == successor_row(st, id, next, q@, t));
                            l
                        }
                    },
                    Err(_) => {
                        let loc = Location { generation: row.target.generation, path: row.target.path.clone() };
                        assert(loc@ == successor_row(st, id, next, q@, t));
                        loc
                    },
                }
            } else {
                let loc = Location { generation: row.target.generation, path: row.target.path.clone() };
                assert(loc@ == successor_row(st, id, next, q@, t));
                loc
            };
            rows.push(Reference { path: q.clone(), target });
            proof {
                assert(target@ == successor_row(st, id, next, q@, t));
                assert(target@ == f(q@, t));
                assert(e.subrange(0, j + 1) =~= e.subrange(0, j as int).push(e[j as int]));
                assert(rows@.map_values(|r: Reference| r@) =~= rows0.push((q@, target@)));
                assert(map_entries(e.subrange(0, j + 1), f) =~= map_entries(e.subrange(0, j as int), f).push((q@, f(q@, t))));
                let fw1 = forward_entries(forwards@);
                assert forall|m: int| 0 <= m < fw1.len() implies exists|k: int|
                    0 <= k < j + 1 && #[trigger] fw1[m].0 == e[k].0 by {
                    if m < fw0.len() {
                        assert(fw1[m] == fw0[m]);
                        let k = choose|k: int| 0 <= k < j && #[trigger] fw0[m].0 == e[k].0;
                        assert(fw1[m].0 == e[k].0);
                    } else {
                        assert(fw1[m].0 == e[j as int].0);
                    }
                }
            }
            j += 1;
        }
        proof {
            assert(e.subrange(0, j as int) =~= e);
            lemma_forwarded_all(st, id, next, e);
            lemma_entries_map_map_entries(e, f);
        }
        let r = Generation { id: gid, physical, references: rows };
        proof {
            let rv = r.reference_entries();
            assert(rv == map_entries(e, f));
            assert forall|a: int, b: int| 0 <= a < b < rv.len() implies rv[a].0 != rv[b].0 by {
                assert(rv[a].0 == e[a].0 && rv[b].0 == e[b].0);
            }
            assert(r@.references =~= compacted_successor(st, id, next).references);
            assert(r@.physical =~= compacted_successor(st, id, next).physical);
            let fm = entries_map(forward_entries(forwards@));
            assert(fm =~= forward_map(st, id, next));
        }
        (r, forwards)
    }
}

fn copy_paths(v: &Vec<String>) -> (r: Vec<String>)
    ensures
        path_set(r@) == path_set(v@),
{
    let mut r: Vec<String> = Vec::new();
    let mut i: usize = 0;
    while i < v.len()
        invariant
            i <= v@.len(),
            r@.len() == i,
            forall|k: int| 0 <= k < i ==> #[trigger] r@[k]@ == v@[k]@,
        decreases v@.len() - i,
    {
        r.push(v[i].clone());
        i += 1;
    }
    assert forall|p: Seq<char>| #[trigger] path_set(r@).contains(p) == path_set(v@).contains(p) by {
        if path_set(r@).contains(p) {
            let k = choose|k: int| 0 <= k < r@.len() && r@[k]@ == p;
            assert(v@[k]@ == p);
        }
        if path_set(v@).contains(p) {
            let k = choose|k: int| 0 <= k < v@.len() && v@[k]@ == p;
            assert(r@[k]@ == p);
        }
    }
    assert(path_set(r@) =~= path_set(v@));
    r
}

/// Whether the forwards hold a copy from `p` to the same path `p`.
fn forwards_to_same_path(forwards: &Vec<Forward>, p: &String) -> (r: bool)
    requires
        keys_unique(forward_entries(forwards@)),
    ensures
        r == (entries_map(forward_entries(forwards@)).contains_key(p@) && entries_map(
            forward_entries(forwards@),
        )[p@] == p@),
{
    let ghost fe = forward_entries(forwards@);
    let mut m: usize = 0;
    while m < forwards.len()
        invariant
            fe == forward_entries(forwards@),
            keys_unique(fe),
            m <= fe.len(),
            forall|k: int| 0 <= k < m ==> fe[k].0 != p@,
        decreases fe.len() - m,
    {
        if forwards[m].to == *p {
            proof {
                lemma_entries_map_unique(fe, m as int);
            }
            return forwards[m].from == *p;
        }
        m += 1;
    }
    proof {
        lemma_entries_map_dom(fe, p@);
    }
    false
}

impl Store {
    /// A generation later than the successor, with its rows into the removed
    /// generation `id` retargeted.
    fn retarget_later(
        &self,
        Ghost(st): Ghost<Map<Stamp, GenerationView>>,
        id: Stamp,
        next: Stamp,
        forwards: &Vec<Forward>,
        g: Generation,
    ) -> (r: Generation)
        requires
            self.wf(),
            agree_up_to(self@, st, id),
            st.contains_key(g.id),
            g@ == st[g.id],
            g.wf(),
            keys_unique(forward_entries(forwards@)),
            entries_map(forward_entries(forwards@)) == forward_map(st, id, next),
        ensures
            r.wf(),
            r.id == g.id,
            r@ == compacted_later(st, id, next, g.id),
    {
        let h = g.id;
        let ghost e = g.reference_entries();
        let ghost f = |q: Seq<char>, t: (Stamp, Seq<char>)| later_row(st, id, next, t);
        let Generation { id: gid, physical, references } = g;
        let mut rows: Vec<Reference> = Vec::new();
        let mut j: usize = 0;
        while j < references.len()
            invariant
                self.wf(),
                agree_up_to(self@, st, id),
                keys_unique(forward_entries(forwards@)),
                entries_map(forward_entries(forwards@)) == forward_map(st, id, next),
                e == references@.map_values(|r: Reference| r@),
                j <= e.len(),
                f == (|q: Seq<char>, t: (Stamp, Seq<char>)| later_row(st, id, next, t)),
                rows@.map_values(|r: Reference| r@) == map_entries(e.subrange(0, j as int), f),
            decreases e.len() - j,
        {
            let row = &references[j];
            let ghost t = e[j as int].1;
            proof {
                assert(row@ == e[j as int]);
            }
            let ghost rows0 = rows@.map_values(|r: Reference| r@);
            let target = if row.target.generation == id {
                proof {
                    lemma_agree_resolve(self@, st, id, row.target.path@);
                }
                match self.resolve(id, &row.target.path) {
                    Ok(l) => {
                        if l.generation != id {
                            assert(l@ == later_row(st, id, next, t));
                            l
                        } else if forwards_to_same_path(forwards, &l.path) {
                            let loc = Location { generation: next, path: l.path };
                            assert(loc@ == later_row(st, id, next, t));
                            loc
                        } else {
                            let loc = Location { generation: row.target.generation, path: row.target.path.clone() };
                            assert(loc@ == later_row(st, id, next, t));
                            loc
                        }
                    },
                    Err(_) => {
                        let loc = Location { generation: row.target.generation, path: row.target.path.clone() };
                        assert(loc@ == later_row(st, id, next, t));
                        loc
                    },
                }
            } else {
                let loc = Location { generation: row.target.generation, path: row.target.path.clone() };
                assert(loc@ == later_row(st, id, next, t));
                loc
            };
            rows.push(Reference { path: row.path.clone(), target });
            proof {
                assert(target@ == f(row.path@, t));
                assert(e.subrange(0, j + 1) =~= e.subrange(0, j as int).push(e[j as int]));
                assert(rows@.map_values(|r: Reference| r@) =~= rows0.push((row.path@, target@)));
                assert(map_entries(e.subrange(0, j + 1), f) =~= map_entries(e.subrange(0, j as int), f).push((row.path@, f(row.path@, t))));
            }
            j += 1;
        }
        proof {
            assert(e.subrange(0, j as int) =~= e);
            lemma_entries_map_map_entries(e, f);
        }
        let r = Generation { id: gid, physical, references: rows };
        proof {
            let rv = r.reference_entries();
            assert(rv == map_entries(e, f));
            assert forall|a: int, b: int| 0 <= a < b < rv.len() implies rv[a].0 != rv[b].0 by {
                assert(rv[a].0 == e[a].0 && rv[b].0 == e[b].0);
            }
            assert(r@.references =~= compacted_later(st, id, next, h).references);
        }
        r
    }

    /// Finds a row of a generation later than the successor that would be left
    /// pointing at a copy that removing `id` destroys.
    fn check_later_rows(&self, id: Stamp, next: Stamp, forwards: &Vec<Forward>) -> (r: Result<
        (),
        StoreError,
    >)
        requires
            self.wf(),
            keys_unique(forward_entries(forwards@)),
            entries_map(forward_entries(forwards@)) == forward_map(self@, id, next),
        ensures
            match r {
                Ok(()) => later_rows_kept(self@, id, next),
                Err(e) => !later_rows_kept(self@, id, next) && strands_row(self@, id, next, e),
            },
    {
        let ids = self.generation_ids();
        let mut k: usize = 0;
        while k < ids.len()
            invariant
                self.wf(),
                keys_unique(forward_entries(forwards@)),
                entries_map(forward_entries(forwards@)) == forward_map(self@, id, next),
                forall|h: Stamp| self@.contains_key(h) <==> ids@.contains(h),
                forall|i: int| 0 <= i < ids@.len() ==> (#[trigger] ids@[i]).wf(),
                k <= ids@.len(),
                forall|m: int, q: Seq<char>|
                    0 <= m < k && next.precedes(ids@[m]) && #[trigger] self@[ids@[m]].references.contains_key(q)
                        ==> later_row_kept(self@, id, next, self@[ids@[m]].references[q]),
            decreases ids@.len() - k,
        {
            let h = ids[k];
            proof {
                assert(ids@.contains(h));
            }
            if next.is_before(&h) {
                let g = self.generation(h);
                let ghost e = g.reference_entries();
                let mut j: usize = 0;
                while j < g.references.len()
                    invariant
                        self.wf(),
                        self@.contains_key(h),
                        next.precedes(h),
                        g@ == self@[h],
                        g.wf(),
                        e == g.reference_entries(),
                        keys_unique(forward_entries(forwards@)),
                        entries_map(forward_entries(forwards@)) == forward_map(self@, id, next),
                        j <= e.len(),
                        forall|i: int| 0 <= i < j ==> later_row_kept(self@, id, next, #[trigger] e[i].1),
                    decreases e.len() - j,
                {
                    let row = &g.references[j];
                    proof {
                        assert(row@ == e[j as int]);
                        lemma_entries_map_unique(e, j as int);
                    }
                    if row.target.generation == id {
                        match self.resolve(id, &row.target.path) {
                            Ok(l) => {
                                if l.generation == id && !forwards_to_same_path(forwards, &l.path) {
                                    proof {
                                        assert(self@[h].references.contains_key(row.path@));
                                        assert(!later_row_kept(self@, id, next, self@[h].references[row.path@]));
                                    }
                                    return Err(StoreError::BrokenChain { generation: h, path: row.path.clone() });
                                }
                            },
                            Err(_) => {},
                        }
                    }
                    j += 1;
                }
                proof {
                    assert forall|q: Seq<char>| #[trigger] self@[h].references.contains_key(q) implies later_row_kept(
                        self@,
                        id,
                        next,
                        self@[h].references[q],
                    ) by {
                        lemma_entries_map_dom(e, q);
                        let i = choose|i: int| 0 <= i < e.len() && e[i].0 == q;
                        lemma_entries_map_unique(e, i);
                        assert(later_row_kept(self@, id, next, e[i].1));
                    }
                }
            }
            k += 1;
        }
        proof {
            assert forall|h: Stamp, q: Seq<char>|
                self@.contains_key(h) && next.precedes(h) && #[trigger] self@[h].references.contains_key(q)
                    implies later_row_kept(self@, id, next, self@[h].references[q]) by {
                assert(ids@.contains(h));
                let m = choose|m: int| 0 <= m < ids@.len() && ids@[m] == h;
                assert(self@[ids@[m]].references.contains_key(q));
            }
        }
        Ok(())
    }

    /// Removes generation `id`. Each physical copy of `id` that the successor
    /// depends on moves into the successor, whose rows then point at its own
    /// copies or past `id`; later generations' rows into `id` are retargeted
    /// the same way. The most recent generation cannot be removed, and neither
    /// can one whose removal would leave a later row without its copy; then
    /// nothing changes.
    pub fn remove_generation(&mut self, id: Stamp) -> (r: Result<Compaction, StoreError>)
        requires
            old(self).wf(),
            id.wf(),
        ensures
            final(self).wf(),
            is_most_recent(old(self)@, id) ==> {
                &&& r matches Err(StoreError::NoNextGeneration { id: d }) && d == id
                &&& final(self)@ == old(self)@
            },
            match r {
                Ok(c) => {
                    &&& old(self)@.contains_key(id)
                    &&& c.removed == id
                    &&& is_next_after(old(self)@, id, c.successor)
                    &&& later_rows_kept(old(self)@, id, c.successor)
                    &&& final(self)@ == compacted(old(self)@, id, c.successor)
                    &&& keys_unique(forward_entries(c.forwards@))
                    &&& entries_map(forward_entries(c.forwards@)) == forward_map(
                        old(self)@,
                        id,
                        c.successor,
                    )
                },
                Err(e) => {
                    &&& final(self)@ == old(self)@
                    &&& {
                        ||| !old(self)@.contains_key(id) && no_such(e, id)
                        ||| old(self)@.contains_key(id) && (forall|g: Stamp|
                            #[trigger] old(self)@.contains_key(g) ==> !id.precedes(g)) && (
                        e matches StoreError::NoNextGeneration { id: d } && d == id)
                        ||| old(self)@.contains_key(id) && exists|next: Stamp|
                            is_next_after(old(self)@, id, next) && !later_rows_kept(old(self)@, id, next)
                                && strands_row(old(self)@, id, next, e)
                    }
                },
            },
    {
        if !self.contains(id) {
            return Err(StoreError::NoSuchGeneration { label: id.label() });
        }
        let next = match self.next_after(id) {
            Some(n) => n,
            None => {
                return Err(StoreError::NoNextGeneration { id });
            },
        };
        let ghost st = self@;
        proof {
            self.lemma_ids_valid(next);
        }
        let (successor, forwards) = self.compact_successor(Ghost(st), id, self.generation(next));
        match self.check_later_rows(id, next, &forwards) {
            Ok(()) => {},
            Err(e) => {
                return Err(e);
            },
        }
        self.put_back(successor);
        let ghost expected = |h: Stamp|
            if h == next {
                compacted_successor(st, id, next)
            } else if id.precedes(h) {
                compacted_later(st, id, next, h)
            } else {
                st[h]
            };
        let ids = self.generation_ids();
        let mut k: usize = 0;
        while k < ids.len()
            invariant
                self.wf(),
                st.contains_key(id),
                is_next_after(st, id, next),
                keys_unique(forward_entries(forwards@)),
                entries_map(forward_entries(forwards@)) == forward_map(st, id, next),
                forall|h: Stamp| #[trigger] st.contains_key(h) <==> ids@.contains(h),
                forall|i: int| 0 <= i < ids@.len() ==> (#[trigger] ids@[i]).wf(),
                ids@.no_duplicates(),
                k <= ids@.len(),
                self@.dom() == st.dom(),
                expected == (|h: Stamp|
                    if h == next {
                        compacted_successor(st, id, next)
                    } else if id.precedes(h) {
                        compacted_later(st, id, next, h)
                    } else {
                        st[h]
                    }),
                forall|h: Stamp|
                    #[trigger] st.contains_key(h) ==> self@[h] == if (exists|m: int|
                        0 <= m < k && ids@[m] == h) || h == next || !id.precedes(h) {
                        expected(h)
                    } else {
                        st[h]
                    },
            decreases ids@.len() - k,
        {
            let h = ids[k];
            proof {
                assert(!(exists|m: int| 0 <= m < k && ids@[m] == h)) by {
                    if exists|m: int| 0 <= m < k && ids@[m] == h {
                        let m = choose|m: int| 0 <= m < k && ids@[m] == h;
                        assert(ids@[m] == ids@[k as int]);
                    }
                }
                assert(ids@.contains(h));
                assert(st.contains_key(h));
            }
            if id.is_before(&h) && h != next {
                let ghost before = self@;
                let g = self.take_by_id(h);
                proof {
                    assert(g@ == st[h]);
                    assert forall|x: Stamp| (x == id || x.precedes(id)) implies (#[trigger] self@.contains_key(x)
                        == st.contains_key(x) && (self@.contains_key(x) ==> self@[x] == st[x])) by {
                        if st.contains_key(x) {
                            assert(ids@.contains(x));
                        }
                    }
                }
                let ng = self.retarget_later(Ghost(st), id, next, &forwards, g);
                self.put_back(ng);
                proof {
                    assert(self@ == before.insert(h, compacted_later(st, id, next, h)));
                    assert(self@.dom() =~= st.dom());
                }
            }
            k += 1;
        }
        proof {
            assert forall|h: Stamp| #[trigger] st.contains_key(h) implies self@[h] == expected(h) by {
                assert(ids@.contains(h));
                let m = choose|m: int| 0 <= m < ids@.len() && ids@[m] == h;
            }
        }
        match self.remove(id) {
            Ok(()) => {},
            Err(_) => {},
        }
        proof {
            assert(self@ =~= compacted(st, id, next));
        }
        Ok(Compaction { removed: id, successor: next, forwards })
    }
}

} // verus!
