//! The registry of override files: their paths, in the order in which they
//! were added, each path once.

use vstd::prelude::*;
use crate::bytes::{copy_bytes, same_bytes};
use crate::cache::Cache;

verus! {

/// The paths after `path` has been added: unchanged where the path is there
/// already, else with the path at the end.
pub open spec fn registered(paths: Seq<Seq<u8>>, path: Seq<u8>) -> Seq<Seq<u8>> {
    if paths.contains(path) {
        paths
    } else {
        paths.push(path)
    }
}

/// The cache after `path` has been added to `paths`: unchanged where the path
/// is there already, else empty, so that every name is resolved anew with the
/// new file among the sources.
pub open spec fn invalidated(
    paths: Seq<Seq<u8>>,
    cache: Map<Seq<u8>, Option<Seq<u8>>>,
    path: Seq<u8>,
) -> Map<Seq<u8>, Option<Seq<u8>>> {
    if paths.contains(path) {
        cache
    } else {
        Map::empty()
    }
}

/// The paths that a list of stored paths stands for.
spec fn listed(paths: Seq<Vec<u8>>) -> Seq<Seq<u8>> {
    Seq::new(paths.len(), |i: int| paths[i]@)
}

/// An ordered list of paths that holds no path twice and never shrinks.
pub struct Registry {
    paths: Vec<Vec<u8>>,
}

impl View for Registry {
    type V = Seq<Seq<u8>>;

    closed spec fn view(&self) -> Seq<Seq<u8>> {
        listed(self.paths@)
    }
}

impl Registry {
    #[verifier::type_invariant]
    spec fn well_formed(self) -> bool {
        self@.no_duplicates()
    }

    /// A registry without paths.
    pub fn new() -> (registry: Registry)
        ensures
            registry@ == Seq::<Seq<u8>>::empty(),
    {
        let registry = Registry { paths: Vec::new() };
        assert(registry@ =~= Seq::<Seq<u8>>::empty());
        registry
    }

    /// The number of paths.
    pub fn len(&self) -> (n: usize)
        ensures
            n == self@.len(),
            self@.no_duplicates(),
    {
        proof {
            use_type_invariant(self);
        }
        self.paths.len()
    }

    /// The path at `index` in the order of insertion, if there are that many.
    pub fn path(&self, index: usize) -> (r: Option<&[u8]>)
        ensures
            r is Some == (index < self@.len()),
            r matches Some(path) ==> path@ == self@[index as int],
    {
        if index < self.paths.len() {
            Some(self.paths[index].as_slice())
        } else {
            None
        }
    }

    /// Whether `path` is one of the paths.
    pub fn contains(&self, path: &[u8]) -> (r: bool)
        ensures
            r == self@.contains(path@),
    {
        let mut i: usize = 0;
        while i < self.paths.len()
            invariant
                i <= self.paths@.len(),
                forall|j: int| 0 <= j < i ==> self@[j] != path@,
            decreases self.paths@.len() - i,
        {
            if same_bytes(self.paths[i].as_slice(), path) {
                assert(self@[i as int] == path@);
                return true;
            }
            i = i + 1;
        }
        false
    }
}

/// Adds the path of an override file.
///
/// Where the path is registered already, nothing changes. Else the path goes
/// to the end of the registry and the cache is emptied: what was resolved
/// without the new file says nothing of what resolves with it.
pub fn add_override_path(registry: &mut Registry, cache: &mut Cache, path: &[u8])
    ensures
        final(registry)@ == registered(old(registry)@, path@),
        final(cache)@ == invalidated(old(registry)@, old(cache)@, path@),
        final(registry)@.no_duplicates(),
{
    proof {
        use_type_invariant(&*registry);
    }
    if registry.contains(path) {
        return;
    }
    let ghost before = registry@;
    let mut paths: Vec<Vec<u8>> = Vec::new();
    core::mem::swap(&mut paths, &mut registry.paths);
    paths.push(copy_bytes(path));
    proof {
        let after = listed(paths@);
        assert(after =~= before.push(path@));
        assert forall|i: int, j: int|
            0 <= i < after.len() && 0 <= j < after.len() && i != j implies after[i] != after[j] by {
            if i < before.len() && j < before.len() {
                assert(before[i] != before[j]);
            } else if i < before.len() {
                assert(before[i] != path@);
            } else {
                assert(before[j] != path@);
            }
        }
    }
    registry.paths = paths;
    cache.clear();
}

} // verus!
