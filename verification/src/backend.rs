//! The object store below the blob store: named blobs, written whole.

use vstd::prelude::*;
use crate::errors::HatError;
use crate::util::bytes::{copy_bytes, same_bytes};
use crate::util::assoc::{assoc_map, has_key, lemma_assoc_dom, lemma_assoc_last};

verus! {

/// Whether `names` lists exactly the names of the blobs in `contents`.
pub open spec fn lists_names(names: Seq<Vec<u8>>, contents: Map<Seq<u8>, Seq<u8>>) -> bool {
    forall|name: Seq<u8>|
        contents.contains_key(name) <==> exists|i: int|
            0 <= i < names.len() && (#[trigger] names[i])@ == name
}

/// An object store of opaque named blobs.
///
/// The promises below bind a store that says of itself that it is
/// `reliable`. By default a store does not say so, and nothing is promised
/// of what it returns: whoever reads from it has to check what comes back.
pub trait StoreBackend {
    /// The blobs that a reliable store holds, by name.
    open spec fn contents(&self) -> Map<Seq<u8>, Seq<u8>> {
        Map::empty()
    }

    /// Whether the store never fails and holds exactly what `contents` says.
    open spec fn reliable(&self) -> bool {
        false
    }

    /// Writes the blob `name`. A reliable store then holds `data` under `name`.
    fn put(&mut self, name: &[u8], data: &[u8]) -> (done: Result<(), HatError>)
        ensures
            final(self).reliable() == old(self).reliable(),
            old(self).reliable() ==> done is Ok && final(self).contents() == old(
                self,
            ).contents().insert(name@, data@),
    ;

    /// Reads the blob `name`; `None` when the store holds no such blob.
    fn get(&self, name: &[u8]) -> (found: Result<Option<Vec<u8>>, HatError>)
        ensures
            self.reliable() ==> match found {
                Ok(Some(data)) => self.contents().contains_key(name@) && data@
                    == self.contents()[name@],
                Ok(None) => !self.contents().contains_key(name@),
                Err(_) => false,
            },
    ;

    /// The names of all blobs, each at least once.
    fn list(&self) -> (names: Result<Vec<Vec<u8>>, HatError>)
        ensures
            self.reliable() ==> names is Ok && lists_names(names.unwrap()@, self.contents()),
    ;
}

/// A store that keeps its blobs in memory and never fails.
pub struct MemoryBackend {
    blobs: Vec<(Vec<u8>, Vec<u8>)>,
}

impl MemoryBackend {
    /// Every write so far, oldest first, as name and data.
    pub closed spec fn writes(&self) -> Seq<(Seq<u8>, Seq<u8>)> {
        self.blobs@.map_values(|b: (Vec<u8>, Vec<u8>)| (b.0@, b.1@))
    }

    /// A store without blobs.
    pub fn new() -> (backend: MemoryBackend)
        ensures
            backend.contents() == Map::<Seq<u8>, Seq<u8>>::empty(),
            backend.reliable(),
    {
        let backend = MemoryBackend { blobs: Vec::new() };
        assert(backend.writes() =~= Seq::empty());
        backend
    }
}

impl StoreBackend for MemoryBackend {
    closed spec fn contents(&self) -> Map<Seq<u8>, Seq<u8>> {
        assoc_map(self.writes())
    }

    open spec fn reliable(&self) -> bool {
        true
    }

    fn put(&mut self, name: &[u8], data: &[u8]) -> (done: Result<(), HatError>) {
        let ghost before = self.writes();
        self.blobs.push((copy_bytes(name), copy_bytes(data)));
        assert(self.writes() =~= before.push((name@, data@)));
        assert(self.writes().drop_last() =~= before);
        Ok(())
    }

    fn get(&self, name: &[u8]) -> (found: Result<Option<Vec<u8>>, HatError>) {
        let mut i: usize = self.blobs.len();
        while i > 0
            invariant
                i <= self.blobs@.len(),
                forall|j: int| i <= j < self.blobs@.len() ==> (#[trigger] self.writes()[j]).0 != name@,
            decreases i,
        {
            i -= 1;
            if same_bytes(self.blobs[i].0.as_slice(), name) {
                proof {
                    assert(self.writes()[i as int].0 == name@);
                    lemma_assoc_last(self.writes(), i as int);
                }
                return Ok(Some(copy_bytes(self.blobs[i].1.as_slice())));
            }
        }
        proof {
            lemma_assoc_dom(self.writes(), name@);
        }
        Ok(None)
    }

    fn list(&self) -> (names: Result<Vec<Vec<u8>>, HatError>) {
        let mut names: Vec<Vec<u8>> = Vec::new();
        let mut i: usize = 0;
        while i < self.blobs.len()
            invariant
                i <= self.blobs@.len(),
                names@.len() == i,
                forall|j: int| 0 <= j < i ==> (#[trigger] names@[j])@ == self.writes()[j].0,
            decreases self.blobs@.len() - i,
        {
            names.push(copy_bytes(self.blobs[i].0.as_slice()));
            i += 1;
        }
        proof {
            assert forall|name: Seq<u8>|
                self.contents().contains_key(name) <==> exists|i: int|
                    0 <= i < names@.len() && (#[trigger] names@[i])@ == name by {
                lemma_assoc_dom(self.writes(), name);
                if has_key(self.writes(), name) {
                    let k = choose|k: int|
                        0 <= k < self.writes().len() && (#[trigger] self.writes()[k]).0 == name;
                    assert(names@[k]@ == name);
                }
                if exists|i: int| 0 <= i < names@.len() && (#[trigger] names@[i])@ == name {
                    let k = choose|k: int| 0 <= k < names@.len() && (#[trigger] names@[k])@ == name;
                    assert(self.writes()[k].0 == name);
                }
            }
        }
        Ok(names)
    }
}

} // verus!
