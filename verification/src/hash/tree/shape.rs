//! What a stored tree holds: its leaves, in their order, and how wide its
//! branches are.

use vstd::prelude::*;
use crate::backend::StoreBackend;
use crate::blob::BlobStore;
use crate::hash::tree::node::{decode_refs, payload_parts, HashRefView, TreeRoot};
use crate::key::hash_store_backend::verified;

verus! {

/// The bytes of a list of pieces, one after the other.
pub open spec fn concat_all(pieces: Seq<Seq<u8>>) -> Seq<u8>
    decreases pieces.len(),
{
    if pieces.len() == 0 {
        Seq::empty()
    } else {
        concat_all(pieces.drop_last()) + pieces.last()
    }
}

/// The bytes of two lists of pieces, one after the other, are the bytes of
/// the first followed by the bytes of the second.
pub proof fn lemma_concat_all_join(first: Seq<Seq<u8>>, second: Seq<Seq<u8>>)
    ensures
        concat_all(first + second) == concat_all(first) + concat_all(second),
    decreases second.len(),
{
    if second.len() == 0 {
        assert(first + second =~= first);
        assert(concat_all(first) + concat_all(second) =~= concat_all(first));
    } else {
        lemma_concat_all_join(first, second.drop_last());
        assert((first + second).drop_last() =~= first + second.drop_last());
        assert((first + second).last() == second.last());
        assert(concat_all(first + second) =~= concat_all(first) + concat_all(second));
    }
}

/// One piece is its own bytes.
pub proof fn lemma_concat_all_one(piece: Seq<u8>)
    ensures
        concat_all(seq![piece]) == piece,
{
    assert(seq![piece].drop_last() =~= Seq::<Seq<u8>>::empty());
    assert(concat_all(seq![piece].drop_last()) =~= Seq::<u8>::empty());
    assert(Seq::<u8>::empty() + piece =~= piece);
}

/// What a tree, or a row of trees, holds.
pub struct Shape {
    /// The chunks of the leaves, from left to right.
    pub leaves: Seq<Seq<u8>>,
    /// The largest number of children of a branch; 0 where there is no branch.
    pub width: nat,
}

impl Shape {
    /// The shape of no tree at all.
    pub open spec fn none() -> Shape {
        Shape { leaves: Seq::empty(), width: 0 }
    }

    /// The shape of a leaf with the chunk `bytes`.
    pub open spec fn leaf(bytes: Seq<u8>) -> Shape {
        Shape { leaves: seq![bytes], width: 0 }
    }

    /// The shape of this row of trees followed by the row `next`.
    pub open spec fn join(self, next: Shape) -> Shape {
        Shape {
            leaves: self.leaves + next.leaves,
            width: if self.width >= next.width {
                self.width
            } else {
                next.width
            },
        }
    }

    /// The shape of a branch over this row of trees, which are `children` many.
    pub open spec fn below_branch(self, children: nat) -> Shape {
        Shape {
            leaves: self.leaves,
            width: if self.width >= children {
                self.width
            } else {
                children
            },
        }
    }

    /// The stream that the leaves make.
    pub open spec fn data(self) -> Seq<u8> {
        concat_all(self.leaves)
    }

    /// Joining is associative, and the shape of no tree joins to nothing.
    pub proof fn lemma_join(self, second: Shape, third: Shape)
        ensures
            self.join(second).join(third) == self.join(second.join(third)),
            self.join(Shape::none()) == self,
            Shape::none().join(self) == self,
            self.join(second).data() == self.data() + second.data(),
    {
        assert((self.leaves + second.leaves) + third.leaves =~= self.leaves + (second.leaves
            + third.leaves));
        assert(self.leaves + Seq::<Seq<u8>>::empty() =~= self.leaves);
        assert(Seq::<Seq<u8>>::empty() + self.leaves =~= self.leaves);
        lemma_concat_all_join(self.leaves, second.leaves);
    }
}

/// What the tree below `node` holds, read from `store`, for a node that is
/// `height` levels above the leaves. A chunk is taken only if it hashes to
/// the hash under which it is listed. A leaf holds its chunk; a branch holds
/// what its children hold, from first to last. `None` when a chunk is
/// missing, has another hash, or is no list of children where one is due.
pub open spec fn node_shape<B: StoreBackend>(
    store: BlobStore<B>,
    node: HashRefView,
    height: nat,
) -> Option<Shape>
    decreases height, 0nat,
{
    match verified(node.hash, store.chunk_at(node.persistent_ref)) {
        None => None,
        Some(bytes) => if height == 0 {
            Some(Shape::leaf(bytes))
        } else {
            match decode_refs(bytes) {
                None => None,
                Some(children) => match children_shape(store, children, (height - 1) as nat) {
                    None => None,
                    Some(below) => Some(below.below_branch(children.len())),
                },
            }
        },
    }
}

/// What the trees below the nodes `children` hold, each node `height` levels
/// above the leaves, from first to last.
pub open spec fn children_shape<B: StoreBackend>(
    store: BlobStore<B>,
    children: Seq<HashRefView>,
    height: nat,
) -> Option<Shape>
    decreases height, children.len() + 1,
{
    if children.len() == 0 {
        Some(Shape::none())
    } else {
        match (
            children_shape(store, children.drop_last(), height),
            node_shape(store, children.last(), height),
        ) {
            (Some(front), Some(last)) => Some(front.join(last)),
            _ => None,
        }
    }
}

/// The bytes of the stream below `node`.
pub open spec fn node_data<B: StoreBackend>(
    store: BlobStore<B>,
    node: HashRefView,
    height: nat,
) -> Option<Seq<u8>> {
    match node_shape(store, node, height) {
        Some(shape) => Some(shape.data()),
        None => None,
    }
}

/// What can be read below a node stays readable, and the same, in every
/// store that keeps what the first one holds.
pub proof fn lemma_node_kept<B: StoreBackend>(
    store: BlobStore<B>,
    later: BlobStore<B>,
    node: HashRefView,
    height: nat,
)
    requires
        store.kept_by(&later),
        node_shape(store, node, height) is Some,
    ensures
        node_shape(later, node, height) == node_shape(store, node, height),
    decreases height, 0nat,
{
    assert(store.chunk_at(node.persistent_ref) is Some);
    if height > 0 {
        let bytes = store.chunk_at(node.persistent_ref).unwrap();
        lemma_children_kept(store, later, decode_refs(bytes).unwrap(), (height - 1) as nat);
    }
}

/// What can be read below a list of nodes stays readable, and the same, in
/// every store that keeps what the first one holds.
pub proof fn lemma_children_kept<B: StoreBackend>(
    store: BlobStore<B>,
    later: BlobStore<B>,
    children: Seq<HashRefView>,
    height: nat,
)
    requires
        store.kept_by(&later),
        children_shape(store, children, height) is Some,
    ensures
        children_shape(later, children, height) == children_shape(store, children, height),
    decreases height, children.len() + 1,
{
    if children.len() > 0 {
        lemma_children_kept(store, later, children.drop_last(), height);
        lemma_node_kept(store, later, children.last(), height);
    }
}

/// Adding a node at the end of a list adds what it holds at the end.
pub proof fn lemma_children_push<B: StoreBackend>(
    store: BlobStore<B>,
    children: Seq<HashRefView>,
    node: HashRefView,
    height: nat,
)
    ensures
        children_shape(store, children.push(node), height) == match (
            children_shape(store, children, height),
            node_shape(store, node, height),
        ) {
            (Some(front), Some(last)) => Some(front.join(last)),
            _ => None,
        },
{
    assert(children.push(node).drop_last() =~= children);
}

/// When the first `n` of a list of nodes cannot all be read, the list cannot.
pub proof fn lemma_children_prefix<B: StoreBackend>(
    store: BlobStore<B>,
    children: Seq<HashRefView>,
    n: int,
    height: nat,
)
    requires
        0 <= n <= children.len(),
        children_shape(store, children.take(n), height) is None,
    ensures
        children_shape(store, children, height) is None,
    decreases children.len() - n,
{
    if n < children.len() {
        assert(children.take(n + 1).drop_last() =~= children.take(n));
        lemma_children_prefix(store, children, n + 1, height);
    } else {
        assert(children.take(n) =~= children);
    }
}

/// What the levels of a stack hold from level `from` upwards: the higher
/// level first, since its nodes were filled earlier. The nodes of level `l`
/// are `l` levels above the leaves.
pub open spec fn stack_shape<B: StoreBackend>(
    store: BlobStore<B>,
    levels: Seq<Seq<HashRefView>>,
    from: int,
) -> Option<Shape>
    decreases levels.len() - from,
{
    if from < 0 || from >= levels.len() {
        Some(Shape::none())
    } else {
        match (
            stack_shape(store, levels, from + 1),
            children_shape(store, levels[from], from as nat),
        ) {
            (Some(above), Some(here)) => Some(above.join(here)),
            _ => None,
        }
    }
}

/// What can be read below a stack stays readable, and the same, in every
/// store that keeps what the first one holds.
pub proof fn lemma_stack_kept<B: StoreBackend>(
    store: BlobStore<B>,
    later: BlobStore<B>,
    levels: Seq<Seq<HashRefView>>,
    from: int,
)
    requires
        store.kept_by(&later),
        stack_shape(store, levels, from) is Some,
    ensures
        stack_shape(later, levels, from) == stack_shape(store, levels, from),
    decreases levels.len() - from,
{
    if 0 <= from < levels.len() {
        lemma_stack_kept(store, later, levels, from + 1);
        lemma_children_kept(store, later, levels[from], from as nat);
    }
}

/// Two stacks with the same levels from `from` upwards hold the same there.
pub proof fn lemma_stack_same_above<B: StoreBackend>(
    store: BlobStore<B>,
    levels: Seq<Seq<HashRefView>>,
    other: Seq<Seq<HashRefView>>,
    from: int,
)
    requires
        0 <= from,
        forall|l: int| from <= l < levels.len() ==> levels[l] == other[l],
        levels.len() == other.len(),
    ensures
        stack_shape(store, other, from) == stack_shape(store, levels, from),
    decreases levels.len() - from,
{
    if from < levels.len() {
        lemma_stack_same_above(store, levels, other, from + 1);
    }
}

/// Where a stack can be read from a level upwards, it can be read from
/// every higher level upwards, and every level can be read; and nothing of
/// it is wider than the whole.
pub proof fn lemma_stack_some<B: StoreBackend>(
    store: BlobStore<B>,
    levels: Seq<Seq<HashRefView>>,
    from: int,
    to: int,
)
    requires
        0 <= from <= to,
        stack_shape(store, levels, from) is Some,
    ensures
        stack_shape(store, levels, to) is Some,
        stack_shape(store, levels, to).unwrap().width <= stack_shape(
            store,
            levels,
            from,
        ).unwrap().width,
        to < levels.len() ==> children_shape(store, levels[to], to as nat) is Some
            && children_shape(store, levels[to], to as nat).unwrap().width <= stack_shape(
            store,
            levels,
            from,
        ).unwrap().width,
    decreases to - from,
{
    if from < to {
        if from < levels.len() {
            lemma_stack_some(store, levels, from + 1, to);
        }
    }
}

/// An empty level on top of a stack adds nothing.
pub proof fn lemma_stack_push_empty<B: StoreBackend>(
    store: BlobStore<B>,
    levels: Seq<Seq<HashRefView>>,
    from: int,
)
    requires
        0 <= from,
    ensures
        stack_shape(store, levels.push(Seq::empty()), from) == stack_shape(store, levels, from),
    decreases levels.len() - from,
{
    let pushed = levels.push(Seq::<HashRefView>::empty());
    if from < levels.len() {
        lemma_stack_push_empty(store, levels, from + 1);
        assert(pushed[from] == levels[from]);
    } else if from == levels.len() {
        assert(pushed[from] =~= Seq::<HashRefView>::empty());
        assert(stack_shape(store, pushed, from + 1) == Some(Shape::none()));
        assert(children_shape(store, pushed[from], from as nat) == Some(Shape::none()));
        Shape::none().lemma_join(Shape::none(), Shape::none());
    }
}

/// Making the nodes of level `l` the children of one node of level `l + 1`
/// keeps the leaves below the stack, and makes it as wide as that branch if
/// it was narrower: `node` is a node whose bytes are read as the list of
/// those children.
pub proof fn lemma_stack_collapse<B: StoreBackend>(
    store: BlobStore<B>,
    levels: Seq<Seq<HashRefView>>,
    l: int,
    node: HashRefView,
)
    requires
        0 <= l,
        l + 1 < levels.len(),
        stack_shape(store, levels, 0) is Some,
        children_shape(store, levels[l], l as nat) is Some,
        node_shape(store, node, (l + 1) as nat) == Some(
            children_shape(store, levels[l], l as nat).unwrap().below_branch(levels[l].len()),
        ),
    ensures
        stack_shape(
            store,
            levels.update(l, Seq::empty()).update(l + 1, levels[l + 1].push(node)),
            0,
        ) == Some(stack_shape(store, levels, 0).unwrap().below_branch(levels[l].len())),
{
    let after = levels.update(l, Seq::empty()).update(l + 1, levels[l + 1].push(node));
    let count = levels[l].len();
    lemma_stack_some(store, levels, 0, l);
    lemma_stack_some(store, levels, 0, l + 1);
    lemma_stack_some(store, levels, 0, l + 2);
    lemma_stack_same_above(store, levels, after, l + 2);
    lemma_children_push(store, levels[l + 1], node, (l + 1) as nat);
    let above = stack_shape(store, levels, l + 2).unwrap();
    let upper = children_shape(store, levels[l + 1], (l + 1) as nat).unwrap();
    let lower = children_shape(store, levels[l], l as nat).unwrap();
    assert(after[l + 1] == levels[l + 1].push(node));
    assert(after[l] =~= Seq::<HashRefView>::empty());
    assert(stack_shape(store, after, l + 1) == Some(
        above.join(upper.join(lower.below_branch(count))),
    ));
    assert(children_shape(store, after[l], l as nat) == Some(Shape::none()));
    assert(stack_shape(store, levels, l + 1) == Some(above.join(upper)));
    assert(stack_shape(store, levels, l) == Some(above.join(upper).join(lower)));
    above.lemma_join(upper, lower);
    above.lemma_join(upper, lower.below_branch(count));
    above.join(upper.join(lower.below_branch(count))).lemma_join(Shape::none(), Shape::none());
    let before_l = stack_shape(store, levels, l).unwrap();
    let after_l = stack_shape(store, after, l).unwrap();
    assert(after_l.leaves =~= before_l.leaves);
    assert(after_l == before_l.below_branch(count));
    lemma_stack_branch_below(store, levels, after, l, 0, count);
}

/// Two stacks that are alike below `above`, the second holding from `above`
/// upwards what the first holds under a branch of `count` children, are so
/// from every lower level upwards.
pub proof fn lemma_stack_branch_below<B: StoreBackend>(
    store: BlobStore<B>,
    levels: Seq<Seq<HashRefView>>,
    other: Seq<Seq<HashRefView>>,
    above: int,
    from: int,
    count: nat,
)
    requires
        0 <= from <= above,
        above <= levels.len(),
        above <= other.len(),
        forall|l: int| 0 <= l < above ==> levels[l] == other[l],
        stack_shape(store, levels, from) is Some,
        stack_shape(store, levels, above) is Some,
        stack_shape(store, other, above) == Some(
            stack_shape(store, levels, above).unwrap().below_branch(count),
        ),
    ensures
        stack_shape(store, other, from) == Some(
            stack_shape(store, levels, from).unwrap().below_branch(count),
        ),
    decreases above - from,
{
    if from < above {
        lemma_stack_some(store, levels, from, from + 1);
        lemma_stack_branch_below(store, levels, other, above, from + 1, count);
        let up = stack_shape(store, levels, from + 1).unwrap();
        let here = children_shape(store, levels[from], from as nat).unwrap();
        assert(up.below_branch(count).join(here) == up.join(here).below_branch(count));
    }
}

/// A new leaf at the end of level 0 adds its chunk as the last leaf.
pub proof fn lemma_stack_leaf<B: StoreBackend>(
    store: BlobStore<B>,
    levels: Seq<Seq<HashRefView>>,
    node: HashRefView,
)
    requires
        levels.len() > 0,
        stack_shape(store, levels, 0) is Some,
        node_shape(store, node, 0) is Some,
    ensures
        stack_shape(store, levels.update(0, levels[0].push(node)), 0) == Some(
            stack_shape(store, levels, 0).unwrap().join(node_shape(store, node, 0).unwrap()),
        ),
{
    let after = levels.update(0, levels[0].push(node));
    lemma_stack_some(store, levels, 0, 1);
    lemma_stack_same_above(store, levels, after, 1);
    lemma_children_push(store, levels[0], node, 0);
    let above = stack_shape(store, levels, 1).unwrap();
    let here = children_shape(store, levels[0], 0).unwrap();
    let leaf = node_shape(store, node, 0).unwrap();
    above.lemma_join(here, leaf);
}

/// A stack whose only node is the one node of its top level holds what the
/// tree below that node holds.
pub proof fn lemma_stack_only_top<B: StoreBackend>(
    store: BlobStore<B>,
    levels: Seq<Seq<HashRefView>>,
    top: int,
    from: int,
)
    requires
        0 <= from <= top,
        levels.len() == top + 1,
        levels[top].len() == 1,
        forall|k: int| 0 <= k < top ==> (#[trigger] levels[k]).len() == 0,
    ensures
        stack_shape(store, levels, from) == node_shape(store, levels[top][0], top as nat),
    decreases top - from,
{
    if from < top {
        lemma_stack_only_top(store, levels, top, from + 1);
        assert(levels[from].len() == 0);
        match stack_shape(store, levels, from + 1) {
            Some(above) => {
                above.lemma_join(Shape::none(), Shape::none());
            },
            None => {},
        }
    } else {
        assert(levels[top].drop_last() =~= Seq::<HashRefView>::empty());
        assert(levels[top].drop_last().len() == 0);
        assert(levels[top].last() == levels[top][0]);
        match node_shape(store, levels[top][0], top as nat) {
            Some(shape) => {
                assert(children_shape(store, levels[top].drop_last(), top as nat) == Some(
                    Shape::none(),
                ));
                shape.lemma_join(Shape::none(), Shape::none());
            },
            None => {},
        }
    }
}

impl TreeRoot {
    /// The root node.
    pub open spec fn node(&self) -> HashRefView {
        HashRefView { hash: self.hash@, persistent_ref: self.persistent_ref@ }
    }

    /// What the tree below this root holds in `store`.
    pub open spec fn shape_in<B: StoreBackend>(&self, store: BlobStore<B>) -> Option<Shape> {
        match payload_parts(self.payload@) {
            Some((height, _)) => node_shape(store, self.node(), height as nat),
            None => None,
        }
    }

    /// The stream that the tree below this root holds in `store`.
    pub open spec fn data_in<B: StoreBackend>(&self, store: BlobStore<B>) -> Option<Seq<u8>> {
        match self.shape_in(store) {
            Some(shape) => Some(shape.data()),
            None => None,
        }
    }
}

/// A stream that was written can be read, now and after whatever the
/// service does later: what a tree holds below a root in a store, it holds
/// in every store that keeps what that one holds.
pub proof fn lemma_written_stays_readable<B: StoreBackend>(
    store: BlobStore<B>,
    later: BlobStore<B>,
    root: TreeRoot,
)
    requires
        root.shape_in(store) is Some,
        store.kept_by(&later),
    ensures
        root.shape_in(later) == root.shape_in(store),
        root.data_in(later) == root.data_in(store),
{
    let height = payload_parts(root.payload@).unwrap().0;
    lemma_node_kept(store, later, root.node(), height as nat);
}

} // verus!
