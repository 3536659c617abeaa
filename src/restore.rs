//! The restore resolver: what a world looks like when brought back from a
//! generation.

use vstd::prelude::*;
use crate::keyed::{entries_map, keys_unique, lemma_entries_map_dom, lemma_entries_map_unique};
use crate::stamp::Stamp;
use crate::store::{no_such, resolve, GenerationView, Location, Store, StoreError};

verus! {

/// One file to bring back into the world: its world-relative path and the
/// physical copy its bytes come from.
#[derive(Debug, PartialEq, Eq)]
pub struct RestoreItem {
    pub path: String,
    pub source: Location,
}

impl View for RestoreItem {
    type V = (Seq<char>, (Stamp, Seq<char>));

    open spec fn view(&self) -> (Seq<char>, (Stamp, Seq<char>)) {
        (self.path@, self.source@)
    }
}

/// Every path of the reference table of `g` resolves.
pub open spec fn fully_resolvable(st: Map<Stamp, GenerationView>, g: Stamp) -> bool {
    forall|p: Seq<char>| #[trigger] st[g].references.contains_key(p) ==> resolve(st, g, p) is Some
}

/// The world restored from `g`: each path of its reference table, with the
/// physical copy that the path resolves to.
pub open spec fn restored_world(st: Map<Stamp, GenerationView>, g: Stamp) -> Map<
    Seq<char>,
    (Stamp, Seq<char>),
> {
    Map::new(|p: Seq<char>| st[g].references.contains_key(p), |p: Seq<char>| resolve(st, g, p).unwrap())
}

pub open spec fn items_map(items: Seq<RestoreItem>) -> Map<Seq<char>, (Stamp, Seq<char>)> {
    entries_map(items.map_values(|x: RestoreItem| x@))
}

impl Store {
    /// The files to copy into an emptied world to restore generation `target`.
    pub fn restore_plan(&self, target: Stamp) -> (r: Result<Vec<RestoreItem>, StoreError>)
        requires
            self.wf(),
            target.wf(),
        ensures
            match r {
                Ok(items) => {
                    &&& self@.contains_key(target)
                    &&& fully_resolvable(self@, target)
                    &&& keys_unique(items@.map_values(|x: RestoreItem| x@))
                    &&& items_map(items@) == restored_world(self@, target)
                },
                Err(e) => {
                    ||| !self@.contains_key(target) && no_such(e, target)
                    ||| self@.contains_key(target) && !fully_resolvable(self@, target) && (e matches StoreError::BrokenChain { generation, path } && generation == target
                        && self@[target].references.contains_key(path@) && resolve(
                        self@,
                        target,
                        path@,
                    ) is None)
                },
            },
    {
        let rows = match self.list_references(target) {
            Ok(rows) => rows,
            Err(e) => {
                return Err(e);
            },
        };
        let ghost entries = rows@.map_values(|x: crate::store::Reference| x@);
        let mut items: Vec<RestoreItem> = Vec::new();
        let mut j: usize = 0;
        while j < rows.len()
            invariant
                self.wf(),
                self@.contains_key(target),
                entries == rows@.map_values(|x: crate::store::Reference| x@),
                keys_unique(entries),
                entries_map(entries) == self@[target].references,
                j <= rows@.len(),
                items@.len() == j,
                forall|k: int|
                    0 <= k < j ==> (#[trigger] items@[k]).path@ == rows@[k].path@ && resolve(
                        self@,
                        target,
                        rows@[k].path@,
                    ) == Some(items@[k].source@),
            decreases rows@.len() - j,
        {
            let path = &rows[j].path;
            match self.resolve(target, path) {
                Ok(source) => {
                    items.push(RestoreItem { path: path.clone(), source });
                },
                Err(e) => {
                    proof {
                        lemma_entries_map_unique(entries, j as int);
                    }
                    return Err(e);
                },
            }
            j += 1;
        }
        proof {
            let iv = items@.map_values(|x: RestoreItem| x@);
            assert forall|a: int, b: int| 0 <= a < b < iv.len() implies iv[a].0 != iv[b].0 by {
                assert(iv[a].0 == entries[a].0 && iv[b].0 == entries[b].0);
            }
            assert forall|p: Seq<char>| #[trigger] self@[target].references.contains_key(p)
                implies resolve(self@, target, p) is Some by {
                lemma_entries_map_dom(entries, p);
                let k = choose|k: int| 0 <= k < entries.len() && entries[k].0 == p;
                assert(items@[k].path@ == p);
            }
            let w = restored_world(self@, target);
            assert forall|p: Seq<char>| #[trigger] items_map(items@).contains_key(p) == w.contains_key(p) by {
                lemma_entries_map_dom(iv, p);
                lemma_entries_map_dom(entries, p);
                if exists|k: int| 0 <= k < iv.len() && iv[k].0 == p {
                    let k = choose|k: int| 0 <= k < iv.len() && iv[k].0 == p;
                    assert(entries[k].0 == p);
                }
                if exists|k: int| 0 <= k < entries.len() && entries[k].0 == p {
                    let k = choose|k: int| 0 <= k < entries.len() && entries[k].0 == p;
                    assert(iv[k].0 == p);
                }
            }
            assert forall|p: Seq<char>| #[trigger] items_map(items@).contains_key(p) implies items_map(items@)[p]
                == w[p] by {
                lemma_entries_map_dom(iv, p);
                let k = choose|k: int| 0 <= k < iv.len() && iv[k].0 == p;
                lemma_entries_map_unique(iv, k);
            }
            assert(items_map(items@) =~= w);
        }
        Ok(items)
    }
}

} // verus!
