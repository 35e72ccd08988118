//! Reading a stream back from its tree.

use vstd::prelude::*;
use crate::backend::StoreBackend;
use crate::errors::HatError;
use crate::hash::tree::node::{decode_children, decode_first, decode_payload, decode_refs, payload_parts, refs_view, HashRef, HashRefView, TreeRoot};
use crate::hash::tree::shape::{children_shape, lemma_children_prefix, lemma_concat_all_one, node_data, node_shape, Shape};
use crate::key::hash_store_backend::{verified, HashStoreBackend};
use crate::util::bytes::opt_bytes_view;

verus! {

/// Every child that is read from the bytes of a branch has a hash with at
/// least one byte.
pub proof fn lemma_decoded_valid(bytes: Seq<u8>, i: int)
    requires
        decode_refs(bytes) is Some,
        0 <= i < decode_refs(bytes).unwrap().len(),
    ensures
        decode_refs(bytes).unwrap()[i].hash.len() > 0,
    decreases bytes.len(),
{
    if bytes.len() > 0 {
        let (first, used) = decode_first(bytes).unwrap();
        if i > 0 {
            let rest = bytes.subrange(used, bytes.len() as int);
            lemma_decoded_valid(rest, i - 1);
            assert(decode_refs(bytes).unwrap()[i] == decode_refs(rest).unwrap()[i - 1]);
        }
    }
}

/// Reads the bytes below `node`, a node `height` levels above the leaves:
/// the chunks of the leaves below it, from left to right. `None` when a
/// chunk is missing, does not hash to its hash, or is no list of children
/// where one is due.
pub fn read_node<B: StoreBackend>(
    service: &HashStoreBackend<B>,
    node: &HashRef,
    height: u64,
) -> (found: Result<Option<Vec<u8>>, HatError>)
    requires
        service.wf(),
        node.hash.is_valid(),
    ensures
        match found {
            Ok(data) => service.reliable() ==> opt_bytes_view(data) == node_data(
                service.blob_store(),
                node@,
                height as nat,
            ),
            Err(e) => e == HatError::Storage && !service.reliable(),
        },
    decreases height,
{
    let chunk = match service.fetch_chunk(&node.hash, Some(node.persistent_ref.clone())) {
        Err(e) => {
            return Err(e);
        },
        Ok(None) => {
            return Ok(None);
        },
        Ok(Some(chunk)) => chunk,
    };
    if height == 0 {
        proof {
            lemma_concat_all_one(chunk@);
        }
        return Ok(Some(chunk));
    }
    let children = match decode_children(chunk.as_slice()) {
        Err(_) => {
            return Ok(None);
        },
        Ok(children) => children,
    };
    let ghost store = service.blob_store();
    let ghost views = refs_view(children@);
    let mut data: Vec<u8> = Vec::new();
    let mut i: usize = 0;
    proof {
        assert(views.take(0) =~= Seq::<HashRefView>::empty());
        assert(Shape::none().data() =~= Seq::<u8>::empty());
    }
    while i < children.len()
        invariant
            i <= children@.len(),
            height > 0,
            views == refs_view(children@),
            service.wf(),
            store == service.blob_store(),
            decode_refs(chunk@) == Some(views),
            store.backend().reliable() ==> verified(
                node@.hash,
                store.chunk_at(node@.persistent_ref),
            ) == Some(chunk@),
            store.backend().reliable() ==> {
                &&& children_shape(store, views.take(i as int), (height - 1) as nat) is Some
                &&& children_shape(
                    store,
                    views.take(i as int),
                    (height - 1) as nat,
                ).unwrap().data() == data@
            },
        decreases children@.len() - i,
    {
        let child = &children[i];
        proof {
            assert(views.take(i + 1).drop_last() =~= views.take(i as int));
            assert(views.take(i + 1).last() == child@);
            lemma_decoded_valid(chunk@, i as int);
        }
        match read_node(service, child, height - 1) {
            Err(e) => {
                return Err(e);
            },
            Ok(None) => {
                proof {
                    if store.backend().reliable() {
                        assert(node_shape(store, child@, (height - 1) as nat) is None);
                        assert(children_shape(store, views.take(i + 1), (height - 1) as nat) is None);
                        lemma_children_prefix(store, views, i + 1, (height - 1) as nat);
                    }
                }
                return Ok(None);
            },
            Ok(Some(part)) => {
                let ghost before = data@;
                data.extend_from_slice(part.as_slice());
                proof {
                    assert(data@ =~= before + part@);
                    if store.backend().reliable() {
                        let front = children_shape(
                            store,
                            views.take(i as int),
                            (height - 1) as nat,
                        ).unwrap();
                        let last = node_shape(store, child@, (height - 1) as nat).unwrap();
                        front.lemma_join(last, Shape::none());
                    }
                }
            },
        }
        i += 1;
    }
    proof {
        assert(views.take(i as int) =~= views);
    }
    Ok(Some(data))
}

/// Reads the stream below a root. Nothing is written and nothing changes.
/// `None` when a chunk of the tree is missing or damaged. A payload that is
/// not a root's payload is a malformed record.
pub fn read_tree<B: StoreBackend>(service: &HashStoreBackend<B>, root: &TreeRoot) -> (found:
    Result<Option<Vec<u8>>, HatError>)
    requires
        service.wf(),
        root.hash.is_valid(),
    ensures
        match found {
            Ok(data) => {
                &&& payload_parts(root.payload@) is Some
                &&& service.reliable() ==> opt_bytes_view(data) == root.data_in(
                    service.blob_store(),
                )
            },
            Err(e) => if payload_parts(root.payload@) is None {
                e == HatError::Serialization
            } else {
                e == HatError::Storage && !service.reliable()
            },
        },
{
    match decode_payload(root.payload.as_slice()) {
        None => Err(HatError::Serialization),
        Some((height, _)) => {
            let node = HashRef {
                hash: root.hash.clone(),
                persistent_ref: root.persistent_ref.clone(),
            };
            read_node(service, &node, height)
        },
    }
}

} // verus!
