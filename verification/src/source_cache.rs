//! The imposition worker's cache of loaded source documents. Previews are
//! regenerated often with the same inputs, so the documents loaded for one
//! list of paths are kept and reused while the list stays the same; loading
//! (slow, from disk) is the caller's.
use vstd::prelude::*;

use crate::text::string_views;

verus! {

/// Whether two path lists name the same files in the same order.
fn same_paths(a: &Vec<String>, b: &Vec<String>) -> (r: bool)
    ensures
        r == (string_views(a@) == string_views(b@)),
{
    if a.len() != b.len() {
        proof {
            assert(string_views(a@).len() != string_views(b@).len());
        }
        return false;
    }
    let mut i: usize = 0;
    while i < a.len()
        invariant
            a@.len() == b@.len(),
            i <= a@.len(),
            forall|j: int| 0 <= j < i ==> a@[j]@ == b@[j]@,
        decreases a@.len() - i,
    {
        if a[i] != b[i] {
            proof {
                assert(string_views(a@)[i as int] != string_views(b@)[i as int]);
            }
            return false;
        }
        i = i + 1;
    }
    proof {
        assert(string_views(a@) =~= string_views(b@));
    }
    true
}

/// Documents loaded for one list of input paths, if any.
pub struct SourceCache<D> {
    entry: Option<(Vec<String>, D)>,
}

impl<D> SourceCache<D> {
    /// The paths the cached documents were loaded from, and the documents.
    pub closed spec fn cached(&self) -> Option<(Seq<Seq<char>>, D)> {
        match self.entry {
            Some((p, d)) => Some((string_views(p@), d)),
            None => None,
        }
    }

    /// An empty cache.
    pub fn new() -> (c: Self)
        ensures
            c.cached() is None,
    {
        SourceCache { entry: None }
    }

    /// The cached documents if they were loaded from exactly `paths`, in
    /// that order; `None` when they must be loaded (again).
    pub fn get(&self, paths: &Vec<String>) -> (r: Option<&D>)
        ensures
            r == (match self.cached() {
                Some((p, d)) => if p == string_views(paths@) {
                    Some(&d)
                } else {
                    None
                },
                None => None,
            }),
    {
        match &self.entry {
            Some((p, d)) => if same_paths(p, paths) {
                Some(d)
            } else {
                None
            },
            None => None,
        }
    }

    /// Keeps `documents`, loaded from `paths`, in place of what was cached.
    pub fn store(&mut self, paths: Vec<String>, documents: D)
        ensures
            final(self).cached() == Some((string_views(paths@), documents)),
    {
        self.entry = Some((paths, documents));
    }
}

} // verus!
