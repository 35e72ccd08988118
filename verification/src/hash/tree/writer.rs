//! Building the tree of a stream.

use vstd::prelude::*;
use vstd::slice::slice_subrange;
use crate::backend::StoreBackend;
use crate::blob::BlobStore;
use crate::errors::HatError;
use crate::hash::tree::chunker::{chunk_end, lemma_pieces_make_stream, pieces, pieces_from};
use crate::hash::tree::node::{encode_children, encode_payload, lemma_decode_encode_refs, payload_parts, refs_view, HashRef, HashRefView, TreeRoot};
use crate::hash::tree::shape::{children_shape, concat_all, lemma_concat_all_one, lemma_stack_collapse, lemma_stack_kept, lemma_stack_leaf, lemma_stack_only_top, lemma_stack_push_empty, lemma_stack_some, node_shape, stack_shape, Shape};
use crate::key::hash_store_backend::HashStoreBackend;
use crate::util::bytes::copy_bytes;

verus! {

/// Number of children at which a level of the writer is made a branch.
pub const DEFAULT_FANOUT: usize = 256;

/// The values of the levels of a stack.
pub open spec fn levels_view(levels: Seq<Vec<HashRef>>) -> Seq<Seq<HashRefView>> {
    levels.map_values(|level: Vec<HashRef>| refs_view(level@))
}

/// Builds a hash tree from the chunks of a stream, in their order. The
/// chunks become leaves; whenever a level holds as many nodes as the fanout
/// says, those nodes become the children of one branch of the next level.
pub struct TreeWriter {
    levels: Vec<Vec<HashRef>>,
    fanout: usize,
    length: u64,
    leaves: Ghost<Seq<Seq<u8>>>,
}

impl TreeWriter {
    /// The nodes that wait on each level for their parent, level 0 first.
    pub closed spec fn levels(&self) -> Seq<Seq<HashRefView>> {
        levels_view(self.levels@)
    }

    /// Number of children at which a level is made a branch.
    pub closed spec fn fanout(&self) -> usize {
        self.fanout
    }

    /// The chunks appended so far, in their order.
    pub closed spec fn leaves(&self) -> Seq<Seq<u8>> {
        self.leaves@
    }

    /// The stream so far: the chunks appended, one after the other.
    pub open spec fn data(&self) -> Seq<u8> {
        concat_all(self.leaves())
    }

    /// Length of the stream so far; it stays at the largest number once that
    /// is reached.
    pub closed spec fn length(&self) -> u64 {
        self.length
    }

    /// No level holds as many nodes as the fanout says.
    pub open spec fn settled(&self) -> bool {
        forall|l: int| 0 <= l < self.levels().len() ==> (#[trigger] self.levels()[l]).len() < self.fanout()
    }

    /// The writer's invariant: a fanout of at least 2; no node with an empty
    /// hash; the length that of the stream; no level with more nodes than the
    /// fanout says, and at most one with that many.
    pub closed spec fn wf(&self) -> bool {
        &&& self.fanout >= 2
        &&& forall|l: int, i: int|
            0 <= l < self.levels().len() && 0 <= i < self.levels()[l].len() ==> (
            #[trigger] self.levels()[l][i]).encodable()
        &&& self.length == if self.data().len() <= u64::MAX {
            self.data().len() as u64
        } else {
            u64::MAX
        }
        &&& forall|l: int|
            0 <= l < self.levels().len() ==> (#[trigger] self.levels()[l]).len() <= self.fanout
        &&& forall|l: int, m: int|
            0 <= l < m < self.levels().len() ==> !((#[trigger] self.levels()[l]).len() == self.fanout
                && (#[trigger] self.levels()[m]).len() == self.fanout)
    }

    /// Whether the nodes that wait on the levels hold, in `store`, the chunks
    /// appended so far as their leaves, below branches that are at most as
    /// wide as the fanout says.
    pub open spec fn holds_in<B: StoreBackend>(&self, store: BlobStore<B>) -> bool {
        &&& stack_shape(store, self.levels(), 0) is Some
        &&& stack_shape(store, self.levels(), 0).unwrap().leaves == self.leaves()
        &&& stack_shape(store, self.levels(), 0).unwrap().width <= self.fanout()
    }

    /// A writer for an empty stream, with the default fanout.
    pub fn new() -> (writer: TreeWriter)
        ensures
            writer.wf(),
            writer.fanout() == DEFAULT_FANOUT,
            writer.leaves() == Seq::<Seq<u8>>::empty(),
            writer.levels().len() == 0,
    {
        TreeWriter::with_fanout(DEFAULT_FANOUT)
    }

    /// A writer for an empty stream. A fanout below 2 is taken as 2.
    pub fn with_fanout(fanout: usize) -> (writer: TreeWriter)
        ensures
            writer.wf(),
            writer.fanout() == if fanout < 2 {
                2
            } else {
                fanout
            },
            writer.leaves() == Seq::<Seq<u8>>::empty(),
            writer.levels().len() == 0,
    {
        let fanout = if fanout < 2 {
            2
        } else {
            fanout
        };
        TreeWriter { levels: Vec::new(), fanout, length: 0, leaves: Ghost(Seq::empty()) }
    }

    /// A writer without nodes holds the empty stream in every store.
    pub proof fn lemma_empty_holds<B: StoreBackend>(&self, store: BlobStore<B>)
        requires
            self.levels().len() == 0,
            self.leaves() == Seq::<Seq<u8>>::empty(),
        ensures
            self.holds_in(store),
    {
    }

    /// The length is the length of the stream, as far as it can be told;
    /// the fanout is at least 2.
    pub proof fn lemma_length(&self)
        requires
            self.wf(),
        ensures
            self.fanout() >= 2,
            self.length() == if self.data().len() <= u64::MAX {
                self.data().len() as u64
            } else {
                u64::MAX
            },
    {
    }

    /// Puts an empty level on top of the stack.
    fn push_level(&mut self)
        requires
            old(self).wf(),
        ensures
            final(self).wf(),
            final(self).levels() == old(self).levels().push(Seq::empty()),
            final(self).fanout() == old(self).fanout(),
            final(self).leaves() == old(self).leaves(),
            final(self).length() == old(self).length(),
    {
        let ghost before = self.levels();
        self.levels.push(Vec::new());
        proof {
            let empty: Seq<HashRef> = Seq::empty();
            assert(refs_view(empty) =~= Seq::<HashRefView>::empty());
            assert(self.levels() =~= before.push(Seq::empty()));
            assert forall|l: int| 0 <= l < self.levels().len() implies (
            #[trigger] self.levels()[l]).len() <= self.fanout by {
                if l < before.len() {
                    assert(self.levels()[l] == before[l]);
                }
            }
            assert forall|l: int, m: int| 0 <= l < m < self.levels().len() implies !((
            #[trigger] self.levels()[l]).len() == self.fanout && (
            #[trigger] self.levels()[m]).len() == self.fanout) by {
                assert(self.levels()[l] == before[l]);
                if m < before.len() {
                    assert(self.levels()[m] == before[m]);
                }
            }
        }
    }

    /// Makes the nodes of level `l` the children of one new node of level
    /// `l + 1`, which is stored with `payload`. No other level may be full.
    /// When the node cannot be stored, the stack stays as it is.
    fn collapse<B: StoreBackend>(
        &mut self,
        service: &mut HashStoreBackend<B>,
        l: usize,
        payload: Option<Vec<u8>>,
    ) -> (done: Result<(), HatError>)
        requires
            old(self).wf(),
            old(service).wf(),
            l + 1 < old(self).levels().len(),
            forall|k: int|
                0 <= k < old(self).levels().len() && k != l ==> (#[trigger] old(self).levels()[k]).len()
                    < old(self).fanout(),
            old(service).sound() ==> old(self).holds_in(old(service).blob_store()),
        ensures
            final(self).wf(),
            final(service).wf(),
            final(self).fanout() == old(self).fanout(),
            final(self).leaves() == old(self).leaves(),
            final(self).length() == old(self).length(),
            final(self).levels().len() == old(self).levels().len(),
            final(service).sound() ==> old(service).sound(),
            final(service).sound() ==> final(self).holds_in(final(service).blob_store()),
            final(service).reliable() == old(service).reliable(),
            match done {
                Ok(()) => {
                    &&& final(self).levels()[l as int].len() == 0
                    &&& final(self).levels()[l + 1].len() == old(self).levels()[l + 1].len() + 1
                    &&& forall|k: int|
                        0 <= k < old(self).levels().len() && k != l && k != l + 1 ==> final(self).levels()[k] == old(self).levels()[k]
                },
                Err(e) => {
                    &&& e == HatError::Storage
                    &&& final(self).levels() == old(self).levels()
                    &&& !old(service).reliable() || final(service).blob_store().full()
                },
            },
    {
        let ghost levels0 = self.levels();
        let ghost store0 = service.blob_store();
        let count = self.levels.len();
        assert(count == self.levels().len());
        let next: usize = l + 1;
        let bytes = encode_children(&self.levels[l]);
        let hash = crate::hash::Hash::new(bytes.as_slice());
        let level_no: i64 = if l < 0x7fff_ffff {
            (l + 1) as i64
        } else {
            i64::MAX
        };
        let ghost node_bytes = bytes@;
        proof {
            assert(refs_view(self.levels@[l as int]@) == levels0[l as int]);
            assert forall|i: int| 0 <= i < levels0[l as int].len() implies (
            #[trigger] levels0[l as int][i]).encodable() by {}
            lemma_decode_encode_refs(levels0[l as int]);
        }
        let chunk_ref = match service.insert_chunk(&hash, level_no, payload, bytes) {
            Ok(chunk_ref) => chunk_ref,
            Err(e) => {
                proof {
                    if service.sound() {
                        lemma_stack_kept(store0, service.blob_store(), levels0, 0);
                    }
                }
                return Err(e);
            },
        };
        let node = HashRef { hash, persistent_ref: chunk_ref };
        let ghost node_view = node@;
        proof {
            assert(node.hash.bytes.len() == node_view.hash.len());
            assert(node.persistent_ref.blob_name.len() == node_view.persistent_ref.blob_name.len());
            assert(node_view.encodable());
        }
        self.levels[l].clear();
        assert(self.levels@.len() == old(self).levels@.len());
        self.levels[next].push(node);
        proof {
            let store1 = service.blob_store();
            let levels1 = self.levels();
            let target = levels0.update(l as int, Seq::empty()).update(
                l + 1,
                levels0[l + 1].push(node_view),
            );
            assert(levels1.len() == target.len());
            assert forall|k: int| 0 <= k < levels1.len() implies levels1[k] =~= target[k] by {
                if k == l + 1 {
                    assert(refs_view(self.levels@[k]@) =~= levels0[k].push(node_view));
                } else if k == l {
                    assert(refs_view(self.levels@[k]@) =~= Seq::<HashRefView>::empty());
                } else {
                    assert(self.levels@[k] == old(self).levels@[k]);
                }
            }
            assert(levels1 =~= target);
            assert forall|k: int, i: int|
                0 <= k < levels1.len() && 0 <= i < levels1[k].len() implies (
            #[trigger] levels1[k][i]).encodable() by {
                assert(levels1[k] == target[k]);
                if k == l + 1 {
                    if i < levels0[k].len() {
                        assert(levels1[k][i] == levels0[k][i]);
                    } else {
                        assert(levels1[k][i] == node_view);
                    }
                } else if k != l {
                    assert(levels1[k][i] == levels0[k][i]);
                }
            }
            assert forall|k: int| 0 <= k < levels1.len() implies (#[trigger] levels1[k]).len()
                <= self.fanout by {
                assert(levels1[k] == target[k]);
                if k != l && k != l + 1 {
                    assert(levels1[k] == levels0[k]);
                }
                assert(levels0[k].len() <= self.fanout);
            }
            assert forall|k: int, m: int| 0 <= k < m < levels1.len() implies !((
            #[trigger] levels1[k]).len() == self.fanout && (#[trigger] levels1[m]).len()
                == self.fanout) by {
                assert(levels1[k] == target[k]);
                assert(levels1[m] == target[m]);
                if k != l && k != l + 1 {
                    assert(levels0[k].len() < self.fanout);
                }
                if m != l && m != l + 1 {
                    assert(levels0[m].len() < self.fanout);
                }
            }
            if service.sound() {
                lemma_stack_kept(store0, store1, levels0, 0);
                lemma_stack_some(store1, levels0, 0, l as int);
                let below = children_shape(store1, levels0[l as int], l as nat).unwrap();
                assert(node_shape(store1, node_view, (l + 1) as nat) == Some(
                    below.below_branch(levels0[l as int].len()),
                ));
                lemma_stack_collapse(store1, levels0, l as int, node_view);
                assert(levels0[l as int].len() <= self.fanout);
            }
        }
        Ok(())
    }

    /// Makes a branch of every level that is full, from level 0 upwards.
    /// Afterwards no level is full.
    fn settle<B: StoreBackend>(&mut self, service: &mut HashStoreBackend<B>) -> (done: Result<
        (),
        HatError,
    >)
        requires
            old(self).wf(),
            old(service).wf(),
            old(service).sound() ==> old(self).holds_in(old(service).blob_store()),
        ensures
            final(self).wf(),
            final(service).wf(),
            final(self).fanout() == old(self).fanout(),
            final(self).leaves() == old(self).leaves(),
            final(self).length() == old(self).length(),
            final(service).sound() ==> old(service).sound(),
            final(service).sound() ==> final(self).holds_in(final(service).blob_store()),
            final(service).reliable() == old(service).reliable(),
            old(self).levels().len() <= final(self).levels().len() <= old(self).levels().len() + 1,
            done is Ok ==> final(self).settled(),
            done matches Err(e) ==> e == HatError::Storage,
            done is Err ==> !old(service).reliable() || final(service).blob_store().full(),
    {
        let ghost n0 = self.levels().len();
        let mut l: usize = 0;
        while l < self.levels.len()
            invariant
                self.wf(),
                service.wf(),
                self.fanout() == old(self).fanout(),
                self.leaves() == old(self).leaves(),
                self.length() == old(self).length(),
                service.sound() ==> old(service).sound(),
                service.sound() ==> self.holds_in(service.blob_store()),
                service.reliable() == old(service).reliable(),
                l <= self.levels().len(),
                n0 == old(self).levels().len(),
                n0 <= self.levels().len() <= n0 + 1,
                self.levels().len() == self.levels@.len(),
                self.levels().len() == n0 + 1 ==> l >= n0 && self.levels()[n0 as int].len() == 1,
                forall|k: int| 0 <= k < l ==> (#[trigger] self.levels()[k]).len() < self.fanout(),
                forall|k: int| 0 <= k < self.levels@.len() ==> (#[trigger] self.levels@[k])@.len()
                    == self.levels()[k].len(),
            decreases n0 + 1 - l,
        {
            if self.levels[l].len() >= self.fanout {
                if l + 1 == self.levels.len() {
                    proof {
                        lemma_stack_push_empty(service.blob_store(), self.levels(), 0);
                    }
                    self.push_level();
                }
                proof {
                    // Level `l` is full, so no other level is.
                    assert forall|k: int|
                        0 <= k < self.levels().len() && k != l implies (
                    #[trigger] self.levels()[k]).len() < self.fanout() by {
                        assert(self.levels()[l as int].len() == self.fanout());
                        assert(self.levels()[k].len() <= self.fanout());
                        if k < l {
                        } else {
                            assert(!(self.levels()[l as int].len() == self.fanout()
                                && self.levels()[k].len() == self.fanout()));
                        }
                    }
                }
                let ghost before = self.levels();
                match self.collapse(service, l, None) {
                    Ok(()) => {},
                    Err(e) => {
                        return Err(e);
                    },
                }
                proof {
                    assert forall|k: int| 0 <= k < self.levels@.len() implies (
                    #[trigger] self.levels@[k])@.len() == self.levels()[k].len() by {
                        assert(self.levels()[k] == refs_view(self.levels@[k]@));
                    }
                    assert forall|k: int| 0 <= k < l + 1 implies (
                    #[trigger] self.levels()[k]).len() < self.fanout() by {
                        if k < l {
                            assert(self.levels()[k] == before[k]);
                        }
                    }
                }
            }
            l += 1;
        }
        Ok(())
    }

    /// Takes the next chunk of the stream: stores it as a leaf and adds the
    /// leaf to level 0. Levels that were full are made branches first. When
    /// the service cannot store a chunk, `Storage` is reported and the stream
    /// stays as it was: the chunk is not part of it.
    pub fn append<B: StoreBackend>(&mut self, service: &mut HashStoreBackend<B>, chunk: Vec<u8>) -> (done:
        Result<(), HatError>)
        requires
            old(self).wf(),
            old(service).wf(),
            old(service).sound() ==> old(self).holds_in(old(service).blob_store()),
        ensures
            final(self).wf(),
            final(service).wf(),
            final(self).fanout() == old(self).fanout(),
            final(service).sound() ==> old(service).sound(),
            final(service).sound() ==> final(self).holds_in(final(service).blob_store()),
            final(service).reliable() == old(service).reliable(),
            match done {
                Ok(()) => final(self).leaves() == old(self).leaves().push(chunk@),
                Err(e) => {
                    &&& e == HatError::Storage
                    &&& final(self).leaves() == old(self).leaves()
                    &&& !old(service).reliable() || final(service).blob_store().full()
                },
            },
    {
        match self.settle(service) {
            Ok(()) => {},
            Err(e) => {
                return Err(e);
            },
        }
        let hash = crate::hash::Hash::new(chunk.as_slice());
        let ghost chunk_view = chunk@;
        let ghost store0 = service.blob_store();
        let added = chunk.len() as u64;
        let chunk_ref = match service.insert_chunk(&hash, 0, None, chunk) {
            Ok(chunk_ref) => chunk_ref,
            Err(e) => {
                proof {
                    if service.sound() {
                        lemma_stack_kept(store0, service.blob_store(), self.levels(), 0);
                    }
                }
                return Err(e);
            },
        };
        if self.levels.len() == 0 {
            proof {
                lemma_stack_push_empty(store0, self.levels(), 0);
            }
            self.push_level();
        }
        let ghost levels0 = self.levels();
        let ghost leaves0 = self.leaves@;
        let node = HashRef { hash, persistent_ref: chunk_ref };
        let ghost node_view = node@;
        proof {
            assert(node.hash.bytes.len() == node_view.hash.len());
            assert(node.persistent_ref.blob_name.len() == node_view.persistent_ref.blob_name.len());
            assert(node_view.encodable());
        }
        self.levels[0].push(node);
        self.length = if self.length <= u64::MAX - added {
            self.length + added
        } else {
            u64::MAX
        };
        proof {
            self.leaves@ = leaves0.push(chunk_view);
            assert(self.leaves@.drop_last() =~= leaves0);
            let store1 = service.blob_store();
            let levels1 = self.levels();
            let target = levels0.update(0, levels0[0].push(node_view));
            assert forall|k: int| 0 <= k < levels1.len() implies levels1[k] =~= target[k] by {
                if k == 0 {
                    assert(refs_view(self.levels@[k]@) =~= levels0[k].push(node_view));
                }
            }
            assert(levels1 =~= target);
            assert forall|k: int, i: int|
                0 <= k < levels1.len() && 0 <= i < levels1[k].len() implies (
            #[trigger] levels1[k][i]).encodable() by {
                assert(levels1[k] == target[k]);
                if k == 0 {
                    if i < levels0[k].len() {
                        assert(levels1[k][i] == levels0[k][i]);
                    } else {
                        assert(levels1[k][i] == node_view);
                    }
                } else {
                    assert(levels1[k][i] == levels0[k][i]);
                }
            }
            assert forall|k: int| 0 <= k < levels1.len() implies (#[trigger] levels1[k]).len()
                <= self.fanout by {
                assert(levels1[k] == target[k]);
                assert(levels0[k].len() < self.fanout);
            }
            assert forall|k: int, m: int| 0 <= k < m < levels1.len() implies !((
            #[trigger] levels1[k]).len() == self.fanout && (#[trigger] levels1[m]).len()
                == self.fanout) by {
                assert(levels1[m] == target[m]);
                assert(levels0[m].len() < self.fanout);
            }
            if service.sound() {
                lemma_stack_kept(store0, store1, levels0, 0);
                assert(node_shape(store1, node_view, 0) == Some(Shape::leaf(chunk_view)));
                lemma_stack_leaf(store1, levels0, node_view);
                assert(leaves0 + seq![chunk_view] =~= leaves0.push(chunk_view));
            }
        }
        Ok(())
    }

    /// Ends the stream: makes a branch of every level that holds a node,
    /// from level 0 upwards, and of the top level in any case. That last
    /// branch is the root; it is stored with the payload that tells the
    /// height of the tree and the length of the stream. The height is the
    /// number of levels, and 1 for a stream without chunks. The writer is
    /// then ready for a new stream. When the service cannot store a branch,
    /// `Storage` is reported and the stream stays as it was.
    pub fn finish<B: StoreBackend>(&mut self, service: &mut HashStoreBackend<B>) -> (done: Result<
        TreeRoot,
        HatError,
    >)
        requires
            old(self).wf(),
            old(service).wf(),
            old(service).sound() ==> old(self).holds_in(old(service).blob_store()),
        ensures
            final(self).wf(),
            final(service).wf(),
            final(self).fanout() == old(self).fanout(),
            final(service).sound() ==> old(service).sound(),
            final(service).reliable() == old(service).reliable(),
            match done {
                Ok(root) => {
                    &&& final(self).leaves() == Seq::<Seq<u8>>::empty()
                    &&& final(self).levels().len() == 0
                    &&& root.hash.is_valid()
                    &&& payload_parts(root.payload@) is Some
                    &&& payload_parts(root.payload@).unwrap().0 >= 1
                    &&& payload_parts(root.payload@).unwrap().0 >= old(self).levels().len()
                    &&& payload_parts(root.payload@).unwrap().0 <= old(self).levels().len() + 1
                    &&& payload_parts(root.payload@).unwrap().1 == old(self).length()
                    &&& final(service).sound() ==> {
                        &&& root.shape_in(final(service).blob_store()) is Some
                        &&& root.shape_in(final(service).blob_store()).unwrap().leaves == old(self).leaves()
                        &&& root.shape_in(final(service).blob_store()).unwrap().width <= old(self).fanout()
                    }
                },
                Err(e) => {
                    &&& e == HatError::Storage
                    &&& final(self).leaves() == old(self).leaves()
                    &&& final(self).length() == old(self).length()
                    &&& final(service).sound() ==> final(self).holds_in(final(service).blob_store())
                    &&& !old(service).reliable() || final(service).blob_store().full()
                },
            },
    {
        match self.settle(service) {
            Ok(()) => {},
            Err(e) => {
                return Err(e);
            },
        }
        if self.levels.len() == 0 {
            proof {
                lemma_stack_push_empty(service.blob_store(), self.levels(), 0);
            }
            self.push_level();
        }
        let n: usize = self.levels.len();
        assert(n == self.levels().len());
        proof {
            lemma_stack_push_empty(service.blob_store(), self.levels(), 0);
        }
        self.push_level();
        let count = self.levels.len();
        assert(count == n + 1);
        let height: u64 = n as u64;
        let mut l: usize = 0;
        proof {
            assert forall|k: int| 0 <= k < self.levels@.len() implies (
            #[trigger] self.levels@[k])@.len() == self.levels()[k].len() by {
                assert(self.levels()[k] == refs_view(self.levels@[k]@));
            }
        }
        while l < n
            invariant
                0 < n < usize::MAX,
                height == n,
                l <= n,
                old(self).levels().len() <= n <= old(self).levels().len() + 1,
                self.wf(),
                service.wf(),
                self.fanout() == old(self).fanout(),
                self.leaves() == old(self).leaves(),
                self.length() == old(self).length(),
                service.sound() ==> old(service).sound(),
                service.sound() ==> self.holds_in(service.blob_store()),
                service.reliable() == old(service).reliable(),
                self.levels().len() == n + 1,
                self.levels@.len() == n + 1,
                forall|k: int| 0 <= k < l ==> (#[trigger] self.levels()[k]).len() == 0,
                forall|k: int|
                    0 <= k <= n && k != l ==> (#[trigger] self.levels()[k]).len() < self.fanout(),
                self.levels()[n as int].len() == if l == n {
                    1nat
                } else {
                    0nat
                },
                forall|k: int| 0 <= k < self.levels@.len() ==> (#[trigger] self.levels@[k])@.len()
                    == self.levels()[k].len(),
            decreases n - l,
        {
            let last = l + 1 == n;
            if last || self.levels[l].len() > 0 {
                let payload = if last {
                    Some(encode_payload(height, self.length))
                } else {
                    None
                };
                let ghost before = self.levels();
                match self.collapse(service, l, payload) {
                    Ok(()) => {},
                    Err(e) => {
                        return Err(e);
                    },
                }
                proof {
                    assert forall|k: int| 0 <= k < self.levels@.len() implies (
                    #[trigger] self.levels@[k])@.len() == self.levels()[k].len() by {
                        assert(self.levels()[k] == refs_view(self.levels@[k]@));
                    }
                    assert forall|k: int| 0 <= k <= n && k != l + 1 implies (
                    #[trigger] self.levels()[k]).len() < self.fanout() by {
                        if k != l {
                            assert(self.levels()[k] == before[k]);
                        }
                    }
                    assert forall|k: int| 0 <= k < l + 1 implies (#[trigger] self.levels()[k]).len()
                        == 0 by {
                        if k < l {
                            assert(self.levels()[k] == before[k]);
                        }
                    }
                }
            }
            l += 1;
        }
        let root = self.levels[n][0].clone();
        let payload = encode_payload(height, self.length);
        proof {
            if service.sound() {
                assert(self.levels()[n as int][0] == root@);
                lemma_stack_only_top(service.blob_store(), self.levels(), n as int, 0);
            }
            assert(self.levels()[n as int][0].encodable());
        }
        self.levels = Vec::new();
        self.length = 0;
        proof {
            self.leaves@ = Seq::empty();
            assert(self.levels() =~= Seq::empty());
        }
        Ok(TreeRoot { hash: root.hash, persistent_ref: root.persistent_ref, payload })
    }
}

/// Writes a stream as a hash tree: cuts it into pieces, stores them as
/// leaves, and builds the branches above them with the default fanout. In a
/// sound service the tree below the root that is returned then holds the
/// pieces of the stream as its leaves, so that the stream can be read back.
/// `Storage` is reported when the service cannot store a chunk.
pub fn write_tree<B: StoreBackend>(service: &mut HashStoreBackend<B>, data: &[u8]) -> (done: Result<
    TreeRoot,
    HatError,
>)
    requires
        old(service).wf(),
    ensures
        final(service).wf(),
        final(service).sound() ==> old(service).sound(),
        final(service).reliable() == old(service).reliable(),
        match done {
            Ok(root) => {
                &&& root.hash.is_valid()
                &&& payload_parts(root.payload@) is Some
                &&& payload_parts(root.payload@).unwrap().0 >= 1
                &&& payload_parts(root.payload@).unwrap().1 == data@.len()
                &&& final(service).sound() ==> {
                    &&& root.shape_in(final(service).blob_store()) is Some
                    &&& root.shape_in(final(service).blob_store()).unwrap().leaves == pieces(data@)
                    &&& root.shape_in(final(service).blob_store()).unwrap().width <= DEFAULT_FANOUT
                    &&& root.data_in(final(service).blob_store()) == Some(data@)
                }
            },
            Err(e) => {
                &&& e == HatError::Storage
                &&& !old(service).reliable() || final(service).blob_store().full()
            },
        },
{
    let mut writer = TreeWriter::new();
    let mut pos: usize = 0;
    proof {
        writer.lemma_empty_holds(service.blob_store());
        assert(writer.leaves() + pieces_from(data@, 0) =~= pieces(data@));
    }
    while pos < data.len()
        invariant
            pos <= data@.len(),
            writer.wf(),
            writer.fanout() == DEFAULT_FANOUT,
            service.wf(),
            service.sound() ==> old(service).sound(),
            service.sound() ==> writer.holds_in(service.blob_store()),
            service.reliable() == old(service).reliable(),
            writer.leaves() + pieces_from(data@, pos as int) == pieces(data@),
        decreases data@.len() - pos,
    {
        let end = chunk_end(data, pos);
        let chunk = copy_bytes(slice_subrange(data, pos, end));
        let ghost before = writer.leaves();
        match writer.append(service, chunk) {
            Ok(()) => {},
            Err(e) => {
                return Err(e);
            },
        }
        proof {
            let piece = data@.subrange(pos as int, end as int);
            assert(before.push(piece) + pieces_from(data@, end as int) =~= before + (seq![piece]
                + pieces_from(data@, end as int)));
        }
        pos = end;
    }
    proof {
        assert(writer.leaves() + Seq::<Seq<u8>>::empty() =~= writer.leaves());
        lemma_pieces_make_stream(data@, 0);
        assert(data@.subrange(0, data@.len() as int) =~= data@);
        writer.lemma_length();
    }
    writer.finish(service)
}

} // verus!
