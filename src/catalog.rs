//! The path catalog: world-relative paths of the files under a directory, and
//! small operations on such paths.

use vstd::prelude::*;
use crate::engine::{paths_distinct, CatalogEntry};
use crate::stamp::{
    label_of, lemma_label_injective, lemma_labels_sort_chronologically, parse_label, text_before, Stamp,
};
use crate::store::{is_most_recent, GenerationView, Store, StoreError};

verus! {

/// One entry of a directory listing.
pub struct DirEntry {
    pub name: String,
    pub is_dir: bool,
}

/// `name` inside directory `dir`; the empty directory is the root.
pub open spec fn join(dir: Seq<char>, name: Seq<char>) -> Seq<char> {
    if dir.len() == 0 {
        name
    } else {
        dir + seq!['/'] + name
    }
}

/// The paths of the entries of `es` inside `dir` that are directories (when
/// `dirs`) or files (otherwise), in listing order.
pub open spec fn listed(dir: Seq<char>, es: Seq<DirEntry>, dirs: bool) -> Seq<Seq<char>>
    decreases es.len(),
{
    if es.len() == 0 {
        Seq::empty()
    } else {
        let rest = listed(dir, es.drop_last(), dirs);
        if es.last().is_dir == dirs {
            rest.push(join(dir, es.last().name@))
        } else {
            rest
        }
    }
}

pub open spec fn views(v: Seq<String>) -> Seq<Seq<char>> {
    v.map_values(|s: String| s@)
}

fn join_path(dir: &str, name: &String) -> (r: String)
    ensures
        r@ == join(dir@, name@),
{
    let mut r = String::from_str(dir);
    if dir.unicode_len() != 0 {
        proof {
            reveal_strlit("/");
        }
        r.append("/");
    }
    r.append(name.as_str());
    r
}

/// Takes in the listing of directory `dir` of a recursive walk: files found
/// are added to `files`, subdirectories to `pending`, the directories still to
/// list.
pub fn get_files_recursive(
    dir: &str,
    entries: &Vec<DirEntry>,
    pending: &mut Vec<String>,
    files: &mut Vec<String>,
)
    ensures
        views(final(pending)@) == views(old(pending)@) + listed(dir@, entries@, true),
        views(final(files)@) == views(old(files)@) + listed(dir@, entries@, false),
{
    let mut i: usize = 0;
    while i < entries.len()
        invariant
            i <= entries@.len(),
            views(pending@) == views(old(pending)@) + listed(dir@, entries@.subrange(0, i as int), true),
            views(files@) == views(old(files)@) + listed(dir@, entries@.subrange(0, i as int), false),
        decreases entries@.len() - i,
    {
        let e = &entries[i];
        let path = join_path(dir, &e.name);
        let ghost p0 = pending@;
        let ghost f0 = files@;
        if e.is_dir {
            pending.push(path);
        } else {
            files.push(path);
        }
        proof {
            let s = entries@.subrange(0, i + 1);
            assert(s.drop_last() =~= entries@.subrange(0, i as int));
            assert(s.last() == entries@[i as int]);
            assert(views(p0.push(path)) =~= views(p0).push(path@));
            assert(views(f0.push(path)) =~= views(f0).push(path@));
        }
        i += 1;
    }
    assert(entries@.subrange(0, i as int) =~= entries@);
}

/// Whether no path occurs twice in the catalog.
pub fn paths_are_distinct(catalog: &Vec<CatalogEntry>) -> (r: bool)
    ensures
        r == paths_distinct(catalog@),
{
    let mut i: usize = 0;
    while i < catalog.len()
        invariant
            i <= catalog@.len(),
            forall|a: int, b: int| 0 <= a < b < catalog@.len() && a < i ==> catalog@[a].path@ != catalog@[b].path@,
        decreases catalog@.len() - i,
    {
        let mut j: usize = i + 1;
        while j < catalog.len()
            invariant
                i < catalog@.len(),
                i + 1 <= j <= catalog@.len(),
                forall|a: int, b: int| 0 <= a < b < catalog@.len() && a < i ==> catalog@[a].path@ != catalog@[b].path@,
                forall|b: int| i < b < j ==> catalog@[i as int].path@ != catalog@[b].path@,
            decreases catalog@.len() - j,
        {
            if catalog[i].path == catalog[j].path {
                return false;
            }
            j += 1;
        }
        i += 1;
    }
    true
}

/// `path` relative to directory `level`, if it lies inside it.
pub open spec fn strip_dir(path: Seq<char>, level: Seq<char>) -> Option<Seq<char>> {
    if level.len() == 0 {
        Some(path)
    } else if path == level {
        Some(Seq::empty())
    } else if path.len() > level.len() && path.subrange(0, level.len() as int) == level
        && path[level.len() as int] == '/' {
        Some(path.subrange(level.len() as int + 1, path.len() as int))
    } else {
        None
    }
}

/// The path of `path` relative to the directory `level`, component by
/// component; nothing when `path` does not lie inside `level`.
pub fn trim_path<'a>(path: &'a str, level: &str) -> (r: Option<&'a str>)
    ensures
        match r {
            Some(s) => strip_dir(path@, level@) == Some(s@),
            None => strip_dir(path@, level@) is None,
        },
{
    let n = path.unicode_len();
    let m = level.unicode_len();
    if m == 0 {
        return Some(path);
    }
    if n < m {
        return None;
    }
    let mut i: usize = 0;
    while i < m
        invariant
            n == path@.len(),
            m == level@.len(),
            m <= n,
            i <= m,
            forall|k: int| 0 <= k < i ==> path@[k] == level@[k],
        decreases m - i,
    {
        if path.get_char(i) != level.get_char(i) {
            assert(path@.subrange(0, m as int)[i as int] != level@[i as int]);
            return None;
        }
        i += 1;
    }
    assert(path@.subrange(0, m as int) =~= level@);
    if n == m {
        assert(path@ =~= level@);
        return Some(path.substring_char(m, m));
    }
    if path.get_char(m) != '/' {
        return None;
    }
    Some(path.substring_char(m + 1, n))
}

/// Whether `name` is a final path component of `path`: a suffix without a
/// separator that is the whole path or follows a separator.
pub open spec fn is_file_name(path: Seq<char>, name: Seq<char>) -> bool {
    &&& name.len() <= path.len()
    &&& path.subrange(path.len() - name.len(), path.len() as int) == name
    &&& !name.contains('/')
    &&& (name.len() == path.len() || path[path.len() - name.len() - 1] == '/')
}

/// The last component of a `/`-separated path.
pub fn get_file_name_as_str(path: &str) -> (r: &str)
    ensures
        is_file_name(path@, r@),
{
    let n = path.unicode_len();
    let mut i: usize = n;
    while i > 0
        invariant
            n == path@.len(),
            i <= n,
            forall|k: int| i <= k < n ==> path@[k] != '/',
        ensures
            i <= n,
            forall|k: int| i <= k < n ==> path@[k] != '/',
            i == 0 || path@[i - 1] == '/',
        decreases i,
    {
        if path.get_char(i - 1) == '/' {
            break;
        }
        i -= 1;
    }
    let r = path.substring_char(i, n);
    assert forall|k: int| 0 <= k < r@.len() implies r@[k] != '/' by {
        assert(r@[k] == path@[i + k]);
    }
    assert(path@.subrange(path@.len() - r@.len(), path@.len() as int) =~= r@);
    assert(!r@.contains('/'));
    r
}

/// The most recent generation of the store, if any: the one whose label is
/// greatest.
pub fn get_most_recent(store: &Store) -> (r: Option<Stamp>)
    requires
        store.wf(),
    ensures
        match r {
            Some(id) => {
                &&& is_most_recent(store@, id)
                &&& forall|g: Stamp|
                    #[trigger] store@.contains_key(g) && g != id ==> text_before(label_of(g), label_of(id))
            },
            None => store@ == Map::<Stamp, GenerationView>::empty(),
        },
{
    let r = store.most_recent();
    if let Some(id) = r {
        proof {
            store.lemma_ids_valid(id);
            assert forall|g: Stamp| #[trigger] store@.contains_key(g) && g != id implies text_before(
                label_of(g),
                label_of(id),
            ) by {
                store.lemma_ids_valid(g);
                lemma_labels_sort_chronologically(g, id);
            }
        }
    }
    r
}

/// Whether `s` is the word that asks for the most recent generation.
pub fn is_recent(s: &str) -> (r: bool)
    ensures
        r == (s@ == "recent"@),
{
    proof {
        reveal_strlit("recent");
    }
    if s.unicode_len() != 6 {
        return false;
    }
    let r = s.get_char(0) == 'r' && s.get_char(1) == 'e' && s.get_char(2) == 'c' && s.get_char(3)
        == 'e' && s.get_char(4) == 'n' && s.get_char(5) == 't';
    if r {
        assert(s@ =~= "recent"@);
    }
    r
}

/// `e` reports that no generation answers to `label`.
pub open spec fn names_label(e: StoreError, label: Seq<char>) -> bool {
    e matches StoreError::NoSuchGeneration { label: l } && l@ == label
}

/// The generation a restore asks for: the most recent one for `recent`,
/// otherwise the one whose label is `timestamp`.
pub fn path_generator(store: &Store, timestamp: &str) -> (r: Result<Stamp, StoreError>)
    requires
        store.wf(),
    ensures
        timestamp@ == "recent"@ ==> match r {
            Ok(id) => is_most_recent(store@, id),
            Err(e) => store@ == Map::<Stamp, GenerationView>::empty() && names_label(e, timestamp@),
        },
        timestamp@ != "recent"@ ==> match r {
            Ok(id) => store@.contains_key(id) && label_of(id) == timestamp@,
            Err(e) => (forall|id: Stamp| #[trigger] store@.contains_key(id) ==> label_of(id) != timestamp@)
                && names_label(e, timestamp@),
        },
{
    if is_recent(timestamp) {
        return match store.most_recent() {
            Some(id) => Ok(id),
            None => Err(StoreError::NoSuchGeneration { label: String::from_str(timestamp) }),
        };
    }
    match parse_label(timestamp) {
        Some(id) => {
            if store.contains(id) {
                Ok(id)
            } else {
                proof {
                    assert forall|g: Stamp| #[trigger] store@.contains_key(g) implies label_of(g) != timestamp@ by {
                        store.lemma_ids_valid(g);
                        if label_of(g) == timestamp@ {
                            lemma_label_injective(g, id);
                        }
                    }
                }
                Err(StoreError::NoSuchGeneration { label: String::from_str(timestamp) })
            }
        },
        None => {
            proof {
                assert forall|g: Stamp| #[trigger] store@.contains_key(g) implies label_of(g) != timestamp@ by {
                    store.lemma_ids_valid(g);
                }
            }
            Err(StoreError::NoSuchGeneration { label: String::from_str(timestamp) })
        },
    }
}

} // verus!
