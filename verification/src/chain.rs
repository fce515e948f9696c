//! The chain assembler: a mutable forest of partially linked blocks.
//!
//! The forest accepts blocks out of parent order, absorbs short forks, prunes
//! losing branches once a dominant branch wins, and emits blocks in canonical
//! chain order.  The executable tree is shadowed by a ghost model
//! (`BlockTree`, `ChainModel`) over which every contract is stated.

use vstd::prelude::*;

use vstd::multiset::Multiset;
use vstd::seq_lib::lemma_multiset_commutative;

use crate::block::BlockId;
use crate::block::GetBlockIds;
use crate::block::LazyBlock;

verus! {

/// Ghost model of one tree of the forest: a block and its child subtrees, in
/// insertion order.
#[verifier::ext_equal]
pub struct BlockTree {
    pub block: LazyBlock,
    pub children: Seq<BlockTree>,
}

/// The tree consisting of a single block.
pub open spec fn leaf_tree(b: LazyBlock) -> BlockTree {
    BlockTree { block: b, children: Seq::empty() }
}

/// Depth of a tree: the number of blocks on its longest root-to-leaf path.
pub open spec fn tree_depth(t: BlockTree) -> nat
    decreases t, 0int,
{
    1 + forest_depth(t.children, 0)
}

/// Largest depth among the trees `f[i ..]`; 0 past the end.
pub open spec fn forest_depth(f: Seq<BlockTree>, i: int) -> nat
    decreases f, f.len() - i,
{
    if 0 <= i < f.len() {
        let d = tree_depth(f[i]);
        let rest = forest_depth(f, i + 1);
        if d >= rest {
            d
        } else {
            rest
        }
    } else {
        0
    }
}

/// Whether some block of the tree has identifier `id`.
pub open spec fn tree_contains(t: BlockTree, id: BlockId) -> bool
    decreases t, 0int,
{
    t.block.id == id || forest_contains(t.children, 0, id)
}

/// Whether some block of the trees `f[i ..]` has identifier `id`.
pub open spec fn forest_contains(f: Seq<BlockTree>, i: int, id: BlockId) -> bool
    decreases f, f.len() - i,
{
    0 <= i < f.len() && (tree_contains(f[i], id) || forest_contains(f, i + 1, id))
}

/// All blocks of the tree, in depth-first preorder.
pub open spec fn tree_blocks(t: BlockTree) -> Seq<LazyBlock>
    decreases t, 0int,
{
    seq![t.block] + forest_blocks(t.children, 0)
}

/// All blocks of the trees `f[i ..]`, in depth-first preorder.
pub open spec fn forest_blocks(f: Seq<BlockTree>, i: int) -> Seq<LazyBlock>
    decreases f, f.len() - i,
{
    if 0 <= i < f.len() {
        tree_blocks(f[i]) + forest_blocks(f, i + 1)
    } else {
        Seq::empty()
    }
}

/// Every child holds the parent's identifier as its previous-block
/// identifier, recursively: edges only form between matching blocks.
pub open spec fn tree_wf(t: BlockTree) -> bool
    decreases t, 0int,
{
    forest_wf(t.children, 0, t.block.id)
}

/// The trees `f[i ..]` all have roots whose previous-block identifier is
/// `parent`, and are themselves well formed.
pub open spec fn forest_wf(f: Seq<BlockTree>, i: int, parent: BlockId) -> bool
    decreases f, f.len() - i,
{
    0 <= i < f.len() ==> {
        &&& f[i].block.header.prev_id == parent
        &&& tree_wf(f[i])
        &&& forest_wf(f, i + 1, parent)
    }
}

/// `n` clamped to the largest `u32`.
pub open spec fn sat32(n: nat) -> u32 {
    if n > u32::MAX {
        u32::MAX
    } else {
        n as u32
    }
}

/// One node of the executable forest: a block plus its children, in
/// insertion order.
#[derive(Debug)]
pub struct Node {
    pub block: LazyBlock,
    pub next: Vec<Node>,
}

/// The ghost trees of the nodes `s`, built back to front.
pub open spec fn seq_tree_view(s: Seq<Node>) -> Seq<BlockTree>
    decreases s,
{
    if s.len() == 0 {
        Seq::empty()
    } else {
        proof {
            assert(decreases_to!(s => s.subrange(0, s.len() - 1)));
            assert(decreases_to!(s => s[s.len() - 1]));
        }
        seq_tree_view(s.subrange(0, s.len() - 1)).push(s[s.len() - 1]@)
    }
}

/// The ghost trees of a sequence of nodes, element by element.
pub open spec fn nodes_view(s: Seq<Node>) -> Seq<BlockTree> {
    Seq::new(s.len(), |i: int| s[i]@)
}

impl Node {
    /// The ghost tree this node represents.
    pub closed spec fn view(self) -> BlockTree
        decreases self,
    {
        proof {
            assert(decreases_to!(self => self.next));
            assert(decreases_to!(self.next => self.next@));
        }
        BlockTree { block: self.block, children: seq_tree_view(self.next@) }
    }
}

/// `seq_tree_view` is the element-wise view.
proof fn lemma_seq_tree_view(s: Seq<Node>)
    ensures
        seq_tree_view(s) =~= nodes_view(s),
    decreases s.len(),
{
    if s.len() > 0 {
        lemma_seq_tree_view(s.subrange(0, s.len() - 1));
    }
}

/// The view of a node, unfolded one level.
pub broadcast proof fn lemma_node_view(n: Node)
    ensures
        (#[trigger] n@) == (BlockTree { block: n.block, children: nodes_view(n.next@) }),
{
    lemma_seq_tree_view(n.next@);
    assert(n@.children =~= nodes_view(n.next@));
}

impl Node {
    /// Adds `node` as the last child of this node.
    pub fn add_next(&mut self, node: Node)
        ensures
            final(self)@ == (BlockTree {
                block: old(self)@.block,
                children: old(self)@.children.push(node@),
            }),
    {
        proof {
            lemma_node_view(*self);
        }
        self.next.push(node);
        proof {
            lemma_node_view(*self);
            assert(nodes_view(self.next@) =~= nodes_view(old(self).next@).push(node@));
        }
    }

    /// Number of blocks on the longest downward path from this node,
    /// inclusive, clamped to `u32::MAX`.
    pub fn depth(&self) -> (d: u32)
        ensures
            d == sat32(tree_depth(self@)),
        decreases *self, 0int,
    {
        proof {
            lemma_node_view(*self);
        }
        let below = forest_depth_max(&self.next, 0);
        if below == u32::MAX {
            u32::MAX
        } else {
            below + 1
        }
    }

    /// Whether some block of this subtree has identifier `id`.
    fn contains(&self, id: BlockId) -> (r: bool)
        ensures
            r == tree_contains(self@, id),
        decreases *self, 0int,
    {
        proof {
            lemma_node_view(*self);
        }
        if self.block.id == id {
            true
        } else {
            forest_contains_from(&self.next, 0, id)
        }
    }
}

/// Largest depth among the subtrees `v[i ..]`, clamped to `u32::MAX`.
fn forest_depth_max(v: &Vec<Node>, i: usize) -> (d: u32)
    requires
        i <= v@.len(),
    ensures
        d == sat32(forest_depth(nodes_view(v@), i as int)),
    decreases *v, v@.len() - i,
{
    if i == v.len() {
        0
    } else {
        let d = v[i].depth();
        let rest = forest_depth_max(v, i + 1);
        if d >= rest {
            d
        } else {
            rest
        }
    }
}

/// Whether some block of the subtrees `v[i ..]` has identifier `id`.
fn forest_contains_from(v: &Vec<Node>, i: usize, id: BlockId) -> (r: bool)
    requires
        i <= v@.len(),
    ensures
        r == forest_contains(nodes_view(v@), i as int, id),
    decreases *v, v@.len() - i,
{
    if i == v.len() {
        false
    } else if v[i].contains(id) {
        true
    } else {
        forest_contains_from(v, i + 1, id)
    }
}

/// Ghost model of the assembler: the forest rooted at `head`, the orphans
/// keyed by their missing parent's identifier, and the genesis sentinel.
#[verifier::ext_equal]
pub struct ChainModel {
    pub head: Option<BlockTree>,
    pub orphans: Seq<(BlockId, LazyBlock)>,
    pub genesis: BlockId,
}

/// Index of the first orphan entry waiting on `key`, or -1 if none waits.
pub open spec fn orphan_index(o: Seq<(BlockId, LazyBlock)>, i: int, key: BlockId) -> int
    decreases o.len() - i,
{
    if 0 <= i < o.len() {
        if o[i].0 == key {
            i
        } else {
            orphan_index(o, i + 1, key)
        }
    } else {
        -1
    }
}

/// Queues `b` under its missing parent `key`: a later arrival waiting on the
/// same missing parent replaces the earlier one.
pub open spec fn orphan_upsert(o: Seq<(BlockId, LazyBlock)>, key: BlockId, b: LazyBlock) -> Seq<
    (BlockId, LazyBlock),
> {
    let j = orphan_index(o, 0, key);
    if j >= 0 {
        o.update(j, (key, b))
    } else {
        o.push((key, b))
    }
}

/// Depth of the forest: depth of `head`, or 0 when empty.
pub open spec fn model_depth(m: ChainModel) -> nat {
    match m.head {
        Option::Some(t) => tree_depth(t),
        Option::None => 0,
    }
}

/// What `insert` does to the model.
///
/// A genesis block (empty forest, parent is the sentinel) starts the forest;
/// a block whose parent is present attaches under it; any other block is
/// queued as an orphan under its missing parent's identifier.  After an
/// attach of block `b`, an orphan waiting on `b` is removed and re-inserted,
/// recursively.
pub open spec fn model_insert(m: ChainModel, b: LazyBlock) -> ChainModel
    decreases m.orphans.len(), 1int,
{
    match m.head {
        Option::None => {
            if b.header.prev_id == m.genesis {
                model_resolve(ChainModel { head: Option::Some(leaf_tree(b)), ..m }, b.id)
            } else {
                ChainModel { orphans: orphan_upsert(m.orphans, b.header.prev_id, b), ..m }
            }
        },
        Option::Some(t) => {
            if tree_contains(t, b.header.prev_id) {
                model_resolve(
                    ChainModel { head: Option::Some(tree_attach(t, b.header.prev_id, b)), ..m },
                    b.id,
                )
            } else {
                ChainModel { orphans: orphan_upsert(m.orphans, b.header.prev_id, b), ..m }
            }
        },
    }
}

/// After a block with identifier `id` has attached: if an orphan was waiting
/// on `id`, remove it and re-insert it.
pub open spec fn model_resolve(m: ChainModel, id: BlockId) -> ChainModel
    decreases m.orphans.len(), 0int,
{
    let j = orphan_index(m.orphans, 0, id);
    if j >= 0 {
        proof {
            lemma_orphan_index_range(m.orphans, 0, id);
        }
        model_insert(ChainModel { orphans: m.orphans.remove(j), ..m }, m.orphans[j].1)
    } else {
        m
    }
}

/// A found orphan index lies inside the sequence.
pub proof fn lemma_orphan_index_range(o: Seq<(BlockId, LazyBlock)>, i: int, key: BlockId)
    requires
        0 <= i,
    ensures
        orphan_index(o, i, key) == -1 || i <= orphan_index(o, i, key) < o.len(),
        orphan_index(o, i, key) >= 0 ==> o[orphan_index(o, i, key)].0 == key,
        orphan_index(o, i, key) == -1 ==> forall|k: int|
            i <= k < o.len() ==> (#[trigger] o[k]).0 != key,
    decreases o.len() - i,
{
    if 0 <= i < o.len() && o[i].0 != key {
        lemma_orphan_index_range(o, i + 1, key);
    }
}

/// The tree with `b` attached as a new last child of the first block found
/// (in depth-first preorder) whose identifier is `pid`.
pub open spec fn tree_attach(t: BlockTree, pid: BlockId, b: LazyBlock) -> BlockTree
    decreases t, 0int,
{
    if t.block.id == pid {
        BlockTree { block: t.block, children: t.children.push(leaf_tree(b)) }
    } else {
        BlockTree { block: t.block, children: forest_attach(t.children, 0, pid, b) }
    }
}

/// Attaches `b` under the first tree of `f[i ..]` that contains `pid`.
pub open spec fn forest_attach(f: Seq<BlockTree>, i: int, pid: BlockId, b: LazyBlock) -> Seq<
    BlockTree,
>
    decreases f, f.len() - i,
{
    if 0 <= i < f.len() {
        if tree_contains(f[i], pid) {
            f.update(i, tree_attach(f[i], pid, b))
        } else {
            forest_attach(f, i + 1, pid, b)
        }
    } else {
        f
    }
}

/// Index of the deepest tree among `f` scanned from `i`, starting from
/// candidate `best`; on equal depths the earlier (first-inserted) tree wins.
/// Depths compare clamped to `u32::MAX`.
pub open spec fn best_child(f: Seq<BlockTree>, i: int, best: int) -> int
    decreases f.len() - i,
{
    if 0 <= i < f.len() {
        if sat32(tree_depth(f[i])) > sat32(tree_depth(f[best])) {
            best_child(f, i + 1, i)
        } else {
            best_child(f, i + 1, best)
        }
    } else {
        best
    }
}

/// What `pop_head` does to the model: the head block comes out, the deepest
/// child subtree (first-inserted on ties) becomes the new forest, and every
/// sibling subtree is discarded.
pub open spec fn model_pop(m: ChainModel) -> (Option<LazyBlock>, ChainModel) {
    match m.head {
        Option::None => (Option::None, m),
        Option::Some(t) => {
            if t.children.len() == 0 {
                (Option::Some(t.block), ChainModel { head: Option::None, ..m })
            } else {
                let w = best_child(t.children, 1, 0);
                (Option::Some(t.block), ChainModel { head: Option::Some(t.children[w]), ..m })
            }
        },
    }
}

/// Well-formedness of the model.
///
/// The forest's edges link children to parents; no two orphans wait on the
/// same missing parent; an orphan is keyed by its own previous-block
/// identifier; and no orphan waits on a parent that is already present.
pub open spec fn model_wf(m: ChainModel) -> bool {
    &&& (m.head matches Option::Some(t) ==> tree_wf(t))
    &&& (forall|i: int, j: int|
        0 <= i < j < m.orphans.len() ==> (#[trigger] m.orphans[i]).0 != (#[trigger] m.orphans[j]).0)
    &&& (forall|i: int|
        0 <= i < m.orphans.len() ==> (#[trigger] m.orphans[i]).1.header.prev_id == m.orphans[i].0)
    &&& (m.head matches Option::Some(t) ==> forall|i: int|
        0 <= i < m.orphans.len() ==> !tree_contains(t, (#[trigger] m.orphans[i]).0))
}

/// Forest predicates only depend on the elements from `i` on.
proof fn lemma_forest_wf_ext(f1: Seq<BlockTree>, f2: Seq<BlockTree>, i: int, parent: BlockId)
    requires
        f1.len() == f2.len(),
        forall|k: int| i <= k < f1.len() ==> f1[k] == f2[k],
    ensures
        forest_wf(f1, i, parent) == forest_wf(f2, i, parent),
    decreases f1.len() - i,
{
    if i < f1.len() {
        lemma_forest_wf_ext(f1, f2, i + 1, parent);
    }
}

/// Forest membership only depends on the elements from `i` on.
proof fn lemma_forest_contains_ext(f1: Seq<BlockTree>, f2: Seq<BlockTree>, i: int, x: BlockId)
    requires
        f1.len() == f2.len(),
        forall|k: int| i <= k < f1.len() ==> f1[k] == f2[k],
    ensures
        forest_contains(f1, i, x) == forest_contains(f2, i, x),
    decreases f1.len() - i,
{
    if i < f1.len() {
        lemma_forest_contains_ext(f1, f2, i + 1, x);
    }
}

/// Appending a well-formed child whose previous identifier is `parent`
/// preserves forest well-formedness.
proof fn lemma_forest_wf_push(f: Seq<BlockTree>, i: int, parent: BlockId, t: BlockTree)
    requires
        0 <= i <= f.len(),
        forest_wf(f, i, parent),
        t.block.header.prev_id == parent,
        tree_wf(t),
    ensures
        forest_wf(f.push(t), i, parent),
    decreases f.len() - i,
{
    if i < f.len() {
        lemma_forest_wf_push(f, i + 1, parent, t);
        assert(f.push(t)[i] == f[i]);
    } else {
        assert(f.push(t)[i] == t);
        assert(forest_wf(f.push(t), i + 1, parent));
    }
}

/// A pushed tree adds exactly its own blocks' identifiers to a forest.
proof fn lemma_forest_contains_push(f: Seq<BlockTree>, i: int, t: BlockTree, x: BlockId)
    requires
        0 <= i <= f.len(),
    ensures
        forest_contains(f.push(t), i, x) == (forest_contains(f, i, x) || tree_contains(t, x)),
    decreases f.len() - i,
{
    if i < f.len() {
        lemma_forest_contains_push(f, i + 1, t, x);
        assert(f.push(t)[i] == f[i]);
    } else {
        assert(f.push(t)[i] == t);
        assert(!forest_contains(f.push(t), i + 1, x));
        assert(!forest_contains(f, i, x));
    }
}

/// Attaching under a present parent keeps the root block, keeps the tree
/// well formed, and adds exactly the identifier of the new block.
proof fn lemma_tree_attach(t: BlockTree, pid: BlockId, b: LazyBlock)
    requires
        tree_contains(t, pid),
        tree_wf(t),
        b.header.prev_id == pid,
    ensures
        tree_attach(t, pid, b).block == t.block,
        tree_wf(tree_attach(t, pid, b)),
        forall|x: BlockId|
            #[trigger] tree_contains(tree_attach(t, pid, b), x) == (tree_contains(t, x) || x
                == b.id),
    decreases t, 0int,
{
    let r = tree_attach(t, pid, b);
    if t.block.id == pid {
        assert(tree_wf(leaf_tree(b)));
        lemma_forest_wf_push(t.children, 0, t.block.id, leaf_tree(b));
        assert forall|x: BlockId| #[trigger] tree_contains(r, x) == (tree_contains(t, x) || x
            == b.id) by {
            lemma_forest_contains_push(t.children, 0, leaf_tree(b), x);
        }
    } else {
        lemma_forest_attach(t.children, 0, t.block.id, pid, b);
        assert forall|x: BlockId| #[trigger] tree_contains(r, x) == (tree_contains(t, x) || x
            == b.id) by {
            assert(forest_contains(forest_attach(t.children, 0, pid, b), 0, x) == (
            forest_contains(t.children, 0, x) || x == b.id));
        }
    }
}

/// Forest version of `lemma_tree_attach`: the first containing tree gains
/// the block, everything else stands.
proof fn lemma_forest_attach(f: Seq<BlockTree>, i: int, parent: BlockId, pid: BlockId, b: LazyBlock)
    requires
        forest_contains(f, i, pid),
        forest_wf(f, i, parent),
        b.header.prev_id == pid,
    ensures
        forest_attach(f, i, pid, b).len() == f.len(),
        forall|k: int| 0 <= k < i ==> forest_attach(f, i, pid, b)[k] == f[k],
        forest_wf(forest_attach(f, i, pid, b), i, parent),
        forall|x: BlockId|
            #[trigger] forest_contains(forest_attach(f, i, pid, b), i, x) == (forest_contains(
                f,
                i,
                x,
            ) || x == b.id),
    decreases f, f.len() - i,
{
    let r = forest_attach(f, i, pid, b);
    if tree_contains(f[i], pid) {
        lemma_tree_attach(f[i], pid, b);
        assert(r == f.update(i, tree_attach(f[i], pid, b)));
        lemma_forest_wf_ext(r, f, i + 1, parent);
        assert forall|x: BlockId| #[trigger] forest_contains(r, i, x) == (forest_contains(f, i, x)
            || x == b.id) by {
            lemma_forest_contains_ext(r, f, i + 1, x);
            assert(r[i] == tree_attach(f[i], pid, b));
            assert(tree_contains(r[i], x) == (tree_contains(f[i], x) || x == b.id));
            assert(forest_contains(r, i, x) == (tree_contains(r[i], x) || forest_contains(
                r,
                i + 1,
                x,
            )));
            assert(forest_contains(f, i, x) == (tree_contains(f[i], x) || forest_contains(
                f,
                i + 1,
                x,
            )));
        }
    } else {
        lemma_forest_attach(f, i + 1, parent, pid, b);
        assert(r == forest_attach(f, i + 1, pid, b));
        assert(r[i] == f[i]);
        assert forall|x: BlockId| #[trigger] forest_contains(r, i, x) == (forest_contains(f, i, x)
            || x == b.id) by {
            assert(forest_contains(forest_attach(f, i + 1, pid, b), i + 1, x) == (forest_contains(
                f,
                i + 1,
                x,
            ) || x == b.id));
            assert(forest_contains(r, i, x) == (tree_contains(r[i], x) || forest_contains(
                r,
                i + 1,
                x,
            )));
            assert(tree_contains(r[i], x) == tree_contains(f[i], x));
        }
    }
}

impl Node {
    /// Attaches `b` as a new last child of the first node (in depth-first
    /// preorder) whose identifier is `pid`.
    fn attach(&mut self, pid: BlockId, b: LazyBlock)
        requires
            tree_contains(old(self)@, pid),
        ensures
            final(self)@ == tree_attach(old(self)@, pid, b),
        decreases *old(self), 0int,
    {
        proof {
            lemma_node_view(*self);
        }
        if self.block.id == pid {
            let leaf = Node { block: b, next: Vec::new() };
            proof {
                lemma_node_view(leaf);
                assert(leaf@ =~= leaf_tree(b));
            }
            self.next.push(leaf);
            proof {
                lemma_node_view(*self);
                assert(nodes_view(self.next@) =~= nodes_view(old(self).next@).push(leaf_tree(b)));
            }
        } else {
            attach_in_forest(&mut self.next, 0, pid, b);
            proof {
                lemma_node_view(*self);
            }
        }
    }
}

/// Attaches `b` under the first subtree of `v[i ..]` that contains `pid`.
fn attach_in_forest(v: &mut Vec<Node>, i: usize, pid: BlockId, b: LazyBlock)
    requires
        i <= old(v)@.len(),
        forest_contains(nodes_view(old(v)@), i as int, pid),
    ensures
        nodes_view(final(v)@) == forest_attach(nodes_view(old(v)@), i as int, pid, b),
    decreases *old(v), old(v)@.len() - i,
{
    let n: usize = v.len();
    let ghost f = nodes_view(v@);
    if v[i].contains(pid) {
        let mut node = v.remove(i);
        proof {
            assert(decreases_to!(*old(v) => old(v)@));
            assert(decreases_to!(old(v)@ => old(v)@[i as int]));
        }
        node.attach(pid, b);
        v.insert(i, node);
        proof {
            assert(nodes_view(v@) =~= f.update(i as int, tree_attach(f[i as int], pid, b)));
        }
    } else {
        attach_in_forest(v, i + 1, pid, b);
        proof {
            assert(nodes_view(old(v)@)[i as int] == old(v)@[i as int]@);
        }
    }
}

/// Queueing an orphan under a missing parent preserves well-formedness.
proof fn lemma_orphan_upsert_wf(m: ChainModel, key: BlockId, b: LazyBlock)
    requires
        model_wf(m),
        b.header.prev_id == key,
        m.head matches Option::Some(t) ==> !tree_contains(t, key),
    ensures
        model_wf(ChainModel { orphans: orphan_upsert(m.orphans, key, b), ..m }),
{
    lemma_orphan_index_range(m.orphans, 0, key);
    let o = m.orphans;
    let j = orphan_index(o, 0, key);
    if j >= 0 {
        assert forall|k: int| 0 <= k < o.len() implies (#[trigger] o.update(j, (key, b))[k]).0
            == o[k].0 by {}
    }
}

/// Inserting a block preserves well-formedness of the model.
pub proof fn lemma_model_insert_wf(m: ChainModel, b: LazyBlock)
    requires
        model_wf(m),
    ensures
        model_wf(model_insert(m, b)),
        model_insert(m, b).genesis == m.genesis,
    decreases m.orphans.len(), 1int,
{
    let prev = b.header.prev_id;
    match m.head {
        Option::None => {
            if prev == m.genesis {
                let m1 = ChainModel { head: Option::Some(leaf_tree(b)), ..m };
                assert(tree_wf(leaf_tree(b)));
                assert forall|x: BlockId| #[trigger] tree_contains(leaf_tree(b), x) implies x
                    == b.id by {
                    assert(!forest_contains(leaf_tree(b).children, 0, x));
                }
                lemma_model_resolve_wf(m1, b.id);
            } else {
                lemma_orphan_upsert_wf(m, prev, b);
            }
        },
        Option::Some(t) => {
            if tree_contains(t, prev) {
                lemma_tree_attach(t, prev, b);
                let m1 = ChainModel { head: Option::Some(tree_attach(t, prev, b)), ..m };
                lemma_model_resolve_wf(m1, b.id);
            } else {
                lemma_orphan_upsert_wf(m, prev, b);
            }
        },
    }
}

/// Resolving the orphan that waited on the just-attached block `id`
/// restores well-formedness.
///
/// The forest may momentarily contain `id` while an orphan still waits on
/// it; the resolution removes that orphan and re-inserts its block.
proof fn lemma_model_resolve_wf(m: ChainModel, id: BlockId)
    requires
        m.head matches Option::Some(t) && tree_wf(t),
        forall|i: int, j: int|
            0 <= i < j < m.orphans.len() ==> (#[trigger] m.orphans[i]).0 != (
            #[trigger] m.orphans[j]).0,
        forall|i: int|
            0 <= i < m.orphans.len() ==> (#[trigger] m.orphans[i]).1.header.prev_id
                == m.orphans[i].0,
        forall|i: int|
            0 <= i < m.orphans.len() && tree_contains(m.head.unwrap(), (#[trigger] m.orphans[i]).0)
                ==> m.orphans[i].0 == id,
    ensures
        model_wf(model_resolve(m, id)),
        model_resolve(m, id).genesis == m.genesis,
    decreases m.orphans.len(), 0int,
{
    lemma_orphan_index_range(m.orphans, 0, id);
    let j = orphan_index(m.orphans, 0, id);
    if j >= 0 {
        let o = m.orphans[j].1;
        let m2 = ChainModel { orphans: m.orphans.remove(j), ..m };
        assert forall|k: int| 0 <= k < m2.orphans.len() implies (#[trigger] m2.orphans[k]).0
            != id by {
            if k < j {
                assert(m2.orphans[k] == m.orphans[k]);
            } else {
                assert(m2.orphans[k] == m.orphans[k + 1]);
            }
        }
        assert(model_wf(m2));
        lemma_model_insert_wf(m2, o);
    } else {
        assert(model_wf(m));
    }
}

/// The assembler: a forest of partially linked blocks plus the orphans
/// waiting on parents that have not arrived.
#[derive(Debug)]
pub struct Chain {
    head: Option<Node>,
    orphans: Vec<(BlockId, LazyBlock)>,
    genesis_identifier: BlockId,
}

impl Chain {
    /// The ghost model of this assembler.
    pub closed spec fn model(self) -> ChainModel {
        ChainModel {
            head: match self.head {
                Option::Some(n) => Option::Some(n@),
                Option::None => Option::None,
            },
            orphans: self.orphans@,
            genesis: self.genesis_identifier,
        }
    }

    /// Well-formedness: the model is well formed.
    pub open spec fn wf(self) -> bool {
        model_wf(self.model())
    }

    /// An empty assembler that will accept as genesis a block whose parent
    /// is `genesis_identifier`.
    pub fn new(genesis_identifier: BlockId) -> (c: Chain)
        ensures
            c.wf(),
            c.model() == (ChainModel {
                head: Option::None,
                orphans: Seq::empty(),
                genesis: genesis_identifier,
            }),
    {
        let c = Chain { head: Option::None, orphans: Vec::new(), genesis_identifier };
        proof {
            assert(c.model() =~= ChainModel {
                head: Option::None,
                orphans: Seq::empty(),
                genesis: genesis_identifier,
            });
        }
        c
    }

    /// Number of orphan blocks waiting on a missing parent.
    pub fn orphans(&self) -> (n: usize)
        ensures
            n == self.model().orphans.len(),
    {
        self.orphans.len()
    }

    /// Depth of the forest from `head` along the deepest descendant path;
    /// 0 when empty; clamped to `u32::MAX`.
    pub fn longest_chain_depth(&self) -> (d: u32)
        ensures
            d == sat32(model_depth(self.model())),
    {
        match &self.head {
            Option::Some(h) => h.depth(),
            Option::None => 0,
        }
    }

    /// Inserts a block: a genesis block starts the forest, a block whose
    /// parent is present attaches under it, and any other block is queued
    /// as an orphan under its missing parent's identifier.  An attach
    /// resolves the orphan that waited on the new block, recursively.
    pub fn insert(&mut self, block: LazyBlock)
        requires
            old(self).wf(),
        ensures
            final(self).wf(),
            final(self).model() == model_insert(old(self).model(), block),
    {
        let ghost m0 = self.model();
        let ghost b0 = block;
        let mut b = block;
        loop
            invariant
                m0 == old(self).model(),
                b0 == block,
                model_wf(m0),
                model_insert(m0, b0) == model_insert(self.model(), b),
            decreases self.orphans@.len(),
        {
            let ghost m = self.model();
            let prev = b.get_block_prev_id();
            let id = b.get_block_id();
            let is_empty = self.head.is_none();
            if is_empty {
                if prev == self.genesis_identifier {
                    let leaf = Node { block: b, next: Vec::new() };
                    proof {
                        lemma_node_view(leaf);
                        assert(leaf@ =~= leaf_tree(b));
                    }
                    self.head = Option::Some(leaf);
                } else {
                    orphan_add(&mut self.orphans, prev, b);
                    proof {
                        assert(model_insert(m, b) == ChainModel {
                            orphans: orphan_upsert(m.orphans, prev, b),
                            ..m
                        });
                        assert(self.model() =~= ChainModel {
                            orphans: orphan_upsert(m.orphans, prev, b),
                            ..m
                        });
                        lemma_model_insert_wf(m0, b0);
                    }
                    return ;
                }
            } else {
                let found = match &self.head {
                    Option::Some(h) => h.contains(prev),
                    Option::None => false,
                };
                if found {
                    let mut taken: Option<Node> = Option::None;
                    core::mem::swap(&mut taken, &mut self.head);
                    match taken {
                        Option::Some(mut h) => {
                            h.attach(prev, b);
                            self.head = Option::Some(h);
                        },
                        Option::None => {
                            proof {
                                assert(false);
                            }
                        },
                    }
                } else {
                    orphan_add(&mut self.orphans, prev, b);
                    proof {
                        assert(model_insert(m, b) == ChainModel {
                            orphans: orphan_upsert(m.orphans, prev, b),
                            ..m
                        });
                        assert(self.model() =~= ChainModel {
                            orphans: orphan_upsert(m.orphans, prev, b),
                            ..m
                        });
                        lemma_model_insert_wf(m0, b0);
                    }
                    return ;
                }
            }
            // the block attached: its model is one resolution step away
            let ghost m1 = self.model();
            proof {
                assert(m1 =~= ChainModel {
                    head: if is_empty {
                        Option::Some(leaf_tree(b))
                    } else {
                        Option::Some(tree_attach(m.head.unwrap(), prev, b))
                    },
                    ..m
                });
                assert(model_insert(m, b) == model_resolve(m1, id));
                lemma_orphan_index_range(m1.orphans, 0, id);
            }
            match orphan_take(&mut self.orphans, id) {
                Option::Some(o) => {
                    proof {
                        assert(self.model() =~= ChainModel {
                            orphans: m1.orphans.remove(orphan_index(m1.orphans, 0, id)),
                            ..m1
                        });
                    }
                    b = o;
                },
                Option::None => {
                    proof {
                        assert(model_resolve(m1, id) == m1);
                        lemma_model_insert_wf(m0, b0);
                    }
                    return ;
                },
            }
        }
    }
}

/// Queues `b` under its missing parent `key`, replacing the entry already
/// waiting on `key` if there is one.
fn orphan_add(v: &mut Vec<(BlockId, LazyBlock)>, key: BlockId, b: LazyBlock)
    ensures
        final(v)@ == orphan_upsert(old(v)@, key, b),
{
    proof {
        lemma_orphan_index_range(v@, 0, key);
    }
    match orphan_find(v, 0, key) {
        Option::Some(j) => {
            v.remove(j);
            v.insert(j, (key, b));
            proof {
                assert(final(v)@ =~= old(v)@.update(j as int, (key, b)));
            }
        },
        Option::None => {
            v.push((key, b));
        },
    }
}

/// Finds the index of the first entry waiting on `key`, scanning from `i`.
fn orphan_find(v: &Vec<(BlockId, LazyBlock)>, i: usize, key: BlockId) -> (r: Option<usize>)
    requires
        i <= v@.len(),
    ensures
        match r {
            Option::Some(j) => j == orphan_index(v@, i as int, key),
            Option::None => orphan_index(v@, i as int, key) == -1,
        },
    decreases v@.len() - i,
{
    let n: usize = v.len();
    if i == n {
        Option::None
    } else if v[i].0 == key {
        Option::Some(i)
    } else {
        orphan_find(v, i + 1, key)
    }
}

/// Removes and returns the block waiting on `key`, if one waits.
fn orphan_take(v: &mut Vec<(BlockId, LazyBlock)>, key: BlockId) -> (r: Option<LazyBlock>)
    ensures
        match r {
            Option::Some(o) => {
                let j = orphan_index(old(v)@, 0, key);
                &&& j >= 0
                &&& o == old(v)@[j].1
                &&& final(v)@ == old(v)@.remove(j)
            },
            Option::None => {
                &&& orphan_index(old(v)@, 0, key) == -1
                &&& final(v)@ == old(v)@
            },
        },
{
    proof {
        lemma_orphan_index_range(v@, 0, key);
    }
    match orphan_find(v, 0, key) {
        Option::Some(j) => {
            let entry = v.remove(j);
            Option::Some(entry.1)
        },
        Option::None => Option::None,
    }
}

/// Every tree of a well-formed forest is itself well formed, and its root
/// links to the shared parent.
proof fn lemma_forest_wf_element(f: Seq<BlockTree>, i: int, parent: BlockId, j: int)
    requires
        forest_wf(f, i, parent),
        i <= j < f.len(),
        0 <= i,
    ensures
        tree_wf(f[j]),
        f[j].block.header.prev_id == parent,
    decreases j - i,
{
    if i < j {
        lemma_forest_wf_element(f, i + 1, parent, j);
    }
}

/// An identifier contained in one tree of a forest is contained in the
/// forest.
proof fn lemma_forest_contains_lift(f: Seq<BlockTree>, i: int, j: int, x: BlockId)
    requires
        0 <= i <= j < f.len(),
        tree_contains(f[j], x),
    ensures
        forest_contains(f, i, x),
    decreases j - i,
{
    if i < j {
        lemma_forest_contains_lift(f, i + 1, j, x);
    }
}

/// The winning child index stays inside the forest.
proof fn lemma_best_child_range(f: Seq<BlockTree>, i: int, best: int)
    requires
        0 <= best < f.len(),
        0 <= i,
    ensures
        0 <= best_child(f, i, best) < f.len(),
    decreases f.len() - i,
{
    if i < f.len() {
        if sat32(tree_depth(f[i])) > sat32(tree_depth(f[best])) {
            lemma_best_child_range(f, i + 1, i);
        } else {
            lemma_best_child_range(f, i + 1, best);
        }
    }
}

/// Popping the head preserves well-formedness of the model.
pub proof fn lemma_model_pop_wf(m: ChainModel)
    requires
        model_wf(m),
    ensures
        model_wf(model_pop(m).1),
        model_pop(m).1.genesis == m.genesis,
        model_pop(m).1.orphans == m.orphans,
{
    match m.head {
        Option::None => {},
        Option::Some(t) => {
            if t.children.len() > 0 {
                let w = best_child(t.children, 1, 0);
                lemma_best_child_range(t.children, 1, 0);
                lemma_forest_wf_element(t.children, 0, t.block.id, w);
                let t2 = t.children[w];
                assert forall|i: int|
                    0 <= i < m.orphans.len() implies !tree_contains(
                    t2,
                    (#[trigger] m.orphans[i]).0,
                ) by {
                    if tree_contains(t2, m.orphans[i].0) {
                        lemma_forest_contains_lift(t.children, 0, w, m.orphans[i].0);
                        assert(tree_contains(t, m.orphans[i].0));
                    }
                }
            }
        },
    }
}

impl Chain {
    /// Removes and returns the block at the front of the main branch,
    /// re-rooting the forest onto the deepest child (first-inserted on equal
    /// depths) and discarding every sibling subtree.  `None` iff the forest
    /// is empty.
    pub fn pop_head(&mut self) -> (r: Option<LazyBlock>)
        requires
            old(self).wf(),
        ensures
            final(self).wf(),
            r == model_pop(old(self).model()).0,
            final(self).model() == model_pop(old(self).model()).1,
    {
        let ghost m = self.model();
        let mut taken: Option<Node> = Option::None;
        core::mem::swap(&mut taken, &mut self.head);
        match taken {
            Option::None => {
                proof {
                    assert(self.model() =~= m);
                }
                Option::None
            },
            Option::Some(node) => {
                proof {
                    lemma_node_view(node);
                }
                let ghost t = node@;
                let Node { block, next } = node;
                let mut next = next;
                if next.len() == 0 {
                    proof {
                        assert(t.children =~= Seq::<BlockTree>::empty());
                        assert(self.model() =~= model_pop(m).1);
                        lemma_model_pop_wf(m);
                    }
                    Option::Some(block)
                } else {
                    let w = best_child_from(&next, 1, 0);
                    proof {
                        lemma_best_child_range(t.children, 1, 0);
                    }
                    let winner = next.swap_remove(w);
                    self.head = Option::Some(winner);
                    proof {
                        assert(winner@ == t.children[w as int]);
                        assert(self.model() =~= model_pop(m).1);
                        lemma_model_pop_wf(m);
                    }
                    Option::Some(block)
                }
            },
        }
    }
}

/// Index of the deepest subtree among `v`, scanned from `i` against the
/// candidate `best`; ties keep the earlier candidate.
fn best_child_from(v: &Vec<Node>, i: usize, best: usize) -> (w: usize)
    requires
        best < v@.len(),
        i <= v@.len(),
    ensures
        w as int == best_child(nodes_view(v@), i as int, best as int),
        w < v@.len(),
    decreases v@.len() - i,
{
    let n: usize = v.len();
    if i == n {
        best
    } else {
        let di = v[i].depth();
        let db = v[best].depth();
        if di > db {
            best_child_from(v, i + 1, i)
        } else {
            best_child_from(v, i + 1, best)
        }
    }
}

/// How `insert` moves the head: an existing root block stays the root; an
/// empty forest either stays empty or gains a root whose parent is the
/// genesis sentinel.
pub proof fn lemma_model_insert_head(m: ChainModel, b: LazyBlock)
    ensures
        m.head matches Option::Some(t) ==> model_insert(m, b).head matches Option::Some(t2)
            && t2.block == t.block,
        m.head is None ==> (model_insert(m, b).head is None || (model_insert(m, b).head matches
        Option::Some(t2) && t2.block.header.prev_id == m.genesis)),
        model_insert(m, b).genesis == m.genesis,
    decreases m.orphans.len(), 1int,
{
    let prev = b.header.prev_id;
    match m.head {
        Option::None => {
            if prev == m.genesis {
                let m1 = ChainModel { head: Option::Some(leaf_tree(b)), ..m };
                lemma_model_resolve_head(m1, b.id);
            }
        },
        Option::Some(t) => {
            if tree_contains(t, prev) {
                lemma_tree_attach_root(t, prev, b);
                let m1 = ChainModel { head: Option::Some(tree_attach(t, prev, b)), ..m };
                lemma_model_resolve_head(m1, b.id);
            }
        },
    }
}

/// Attaching into a tree never changes its root block.
proof fn lemma_tree_attach_root(t: BlockTree, pid: BlockId, b: LazyBlock)
    ensures
        tree_attach(t, pid, b).block == t.block,
{
}

/// Resolution keeps the root block of a present head.
proof fn lemma_model_resolve_head(m: ChainModel, id: BlockId)
    requires
        m.head is Some,
    ensures
        model_resolve(m, id).head matches Option::Some(t2) && t2.block == m.head.unwrap().block,
        model_resolve(m, id).genesis == m.genesis,
    decreases m.orphans.len(), 0int,
{
    lemma_orphan_index_range(m.orphans, 0, id);
    let j = orphan_index(m.orphans, 0, id);
    if j >= 0 {
        let o = m.orphans[j].1;
        let m2 = ChainModel { orphans: m.orphans.remove(j), ..m };
        lemma_model_insert_head(m2, o);
    }
}

/// After a pop of a well-formed non-empty forest, the new head (if any) is a
/// child of the popped block: its previous-block identifier is the popped
/// block's identifier.
pub proof fn lemma_model_pop_link(m: ChainModel)
    requires
        model_wf(m),
        m.head is Some,
    ensures
        model_pop(m).0 == Option::Some(m.head.unwrap().block),
        model_pop(m).1.head matches Option::Some(t2) ==> t2.block.header.prev_id
            == m.head.unwrap().block.id,
{
    let t = m.head.unwrap();
    if t.children.len() > 0 {
        lemma_best_child_range(t.children, 1, 0);
        lemma_forest_wf_element(t.children, 0, t.block.id, best_child(t.children, 1, 0));
    }
}

/// The depth of a forest dominates the depth of each of its trees.
proof fn lemma_forest_depth_ge(f: Seq<BlockTree>, i: int, j: int)
    requires
        0 <= i <= j < f.len(),
    ensures
        forest_depth(f, i) >= tree_depth(f[j]),
    decreases j - i,
{
    if i < j {
        lemma_forest_depth_ge(f, i + 1, j);
    }
}

/// A pop strictly shrinks the forest's depth.
pub proof fn lemma_model_pop_depth(m: ChainModel)
    requires
        m.head is Some,
    ensures
        model_depth(model_pop(m).1) < model_depth(m),
{
    let t = m.head.unwrap();
    if t.children.len() > 0 {
        let w = best_child(t.children, 1, 0);
        lemma_best_child_range(t.children, 1, 0);
        lemma_forest_depth_ge(t.children, 0, w);
    }
}

/// Attaching never changes the forest's length nor the trees before the
/// scan start.
proof fn lemma_forest_attach_frame(f: Seq<BlockTree>, i: int, pid: BlockId, b: LazyBlock)
    requires
        0 <= i,
    ensures
        forest_attach(f, i, pid, b).len() == f.len(),
        forall|k: int| 0 <= k < i && k < f.len() ==> forest_attach(f, i, pid, b)[k] == f[k],
    decreases f.len() - i,
{
    if i < f.len() && !tree_contains(f[i], pid) {
        lemma_forest_attach_frame(f, i + 1, pid, b);
    }
}

/// Attaching never removes an identifier from a tree.
proof fn lemma_tree_attach_mono(t: BlockTree, pid: BlockId, b: LazyBlock, x: BlockId)
    requires
        tree_contains(t, x),
    ensures
        tree_contains(tree_attach(t, pid, b), x),
    decreases t, 0int,
{
    let r = tree_attach(t, pid, b);
    if t.block.id == pid {
        if forest_contains(t.children, 0, x) {
            lemma_forest_contains_push_mono(t.children, 0, leaf_tree(b), x);
        }
    } else {
        if forest_contains(t.children, 0, x) {
            lemma_forest_attach_mono(t.children, 0, pid, b, x);
        }
    }
}

/// Pushing a tree onto a forest keeps every identifier it had.
proof fn lemma_forest_contains_push_mono(f: Seq<BlockTree>, i: int, t: BlockTree, x: BlockId)
    requires
        forest_contains(f, i, x),
    ensures
        forest_contains(f.push(t), i, x),
    decreases f.len() - i,
{
    if tree_contains(f[i], x) {
        assert(f.push(t)[i] == f[i]);
    } else {
        lemma_forest_contains_push_mono(f, i + 1, t, x);
        assert(f.push(t)[i] == f[i]);
    }
}

/// Forest version of `lemma_tree_attach_mono`.
proof fn lemma_forest_attach_mono(f: Seq<BlockTree>, i: int, pid: BlockId, b: LazyBlock, x: BlockId)
    requires
        forest_contains(f, i, x),
    ensures
        forest_contains(forest_attach(f, i, pid, b), i, x),
    decreases f, f.len() - i,
{
    let r = forest_attach(f, i, pid, b);
    if tree_contains(f[i], pid) {
        assert(r == f.update(i, tree_attach(f[i], pid, b)));
        if tree_contains(f[i], x) {
            lemma_tree_attach_mono(f[i], pid, b, x);
            assert(r[i] == tree_attach(f[i], pid, b));
        } else {
            lemma_forest_contains_ext(r, f, i + 1, x);
        }
    } else {
        lemma_forest_attach_frame(f, i + 1, pid, b);
        if tree_contains(f[i], x) {
            assert(r[i] == f[i]);
        } else {
            lemma_forest_attach_mono(f, i + 1, pid, b, x);
            assert(r[i] == f[i]);
        }
    }
}

/// Identifiers present in the forest survive an insert.
pub proof fn lemma_model_insert_mono(m: ChainModel, b: LazyBlock, x: BlockId)
    requires
        m.head matches Option::Some(t) && tree_contains(t, x),
    ensures
        model_insert(m, b).head matches Option::Some(t2) && tree_contains(t2, x),
    decreases m.orphans.len(), 1int,
{
    let t = m.head.unwrap();
    let prev = b.header.prev_id;
    if tree_contains(t, prev) {
        lemma_tree_attach_mono(t, prev, b, x);
        let m1 = ChainModel { head: Option::Some(tree_attach(t, prev, b)), ..m };
        lemma_model_resolve_mono(m1, b.id, x);
    }
}

/// Identifiers present in the forest survive orphan resolution.
proof fn lemma_model_resolve_mono(m: ChainModel, id: BlockId, x: BlockId)
    requires
        m.head matches Option::Some(t) && tree_contains(t, x),
    ensures
        model_resolve(m, id).head matches Option::Some(t2) && tree_contains(t2, x),
    decreases m.orphans.len(), 0int,
{
    lemma_orphan_index_range(m.orphans, 0, id);
    let j = orphan_index(m.orphans, 0, id);
    if j >= 0 {
        let m2 = ChainModel { orphans: m.orphans.remove(j), ..m };
        lemma_model_insert_mono(m2, m.orphans[j].1, x);
    }
}

/// Orphan attachment: when the missing parent of a waiting orphan arrives
/// and attaches, the orphan is removed and attached in the same insert — no
/// orphan ever waits on the newly arrived block, nor on any block of the
/// forest.  With every missing parent eventually arriving before a cap is
/// hit, the orphan count therefore returns to zero.
pub proof fn lemma_orphan_attachment(m: ChainModel, b: LazyBlock)
    requires
        model_wf(m),
        match m.head {
            Option::Some(t) => tree_contains(t, b.header.prev_id),
            Option::None => b.header.prev_id == m.genesis,
        },
    ensures
        forall|i: int|
            0 <= i < model_insert(m, b).orphans.len() ==> (#[trigger] model_insert(
                m,
                b,
            ).orphans[i]).0 != b.id,
        model_insert(m, b).head matches Option::Some(t2) && tree_contains(t2, b.id),
{
    lemma_model_insert_wf(m, b);
    match m.head {
        Option::None => {
            let m1 = ChainModel { head: Option::Some(leaf_tree(b)), ..m };
            lemma_model_resolve_mono(m1, b.id, b.id);
        },
        Option::Some(t) => {
            lemma_tree_attach(t, b.header.prev_id, b);
            let m1 = ChainModel { head: Option::Some(tree_attach(t, b.header.prev_id, b)), ..m };
            lemma_model_resolve_mono(m1, b.id, b.id);
        },
    }
}

/// The winning child is at least as deep as every candidate scanned, depths
/// clamped to `u32::MAX`.
proof fn lemma_best_child_max(f: Seq<BlockTree>, i: int, best: int)
    requires
        0 <= best < f.len(),
        0 <= i,
    ensures
        0 <= best_child(f, i, best) < f.len(),
        sat32(tree_depth(f[best_child(f, i, best)])) >= sat32(tree_depth(f[best])),
        forall|j: int|
            i <= j < f.len() ==> sat32(tree_depth(f[best_child(f, i, best)])) >= sat32(
                tree_depth(#[trigger] f[j]),
            ),
    decreases f.len() - i,
{
    if i < f.len() {
        if sat32(tree_depth(f[i])) > sat32(tree_depth(f[best])) {
            lemma_best_child_max(f, i + 1, i);
        } else {
            lemma_best_child_max(f, i + 1, best);
        }
    }
}

/// Prune exclusivity: when the popped head had several child subtrees,
/// exactly one of them — the deepest, the first-inserted on equal depths —
/// survives as the whole remaining forest; every other sibling subtree is
/// discarded with all its blocks, and can contribute nothing thereafter.
pub proof fn lemma_prune_exclusivity(m: ChainModel)
    requires
        model_wf(m),
        m.head matches Option::Some(t) && t.children.len() > 0,
    ensures
        ({
            let t = m.head.unwrap();
            let w = best_child(t.children, 1, 0);
            &&& 0 <= w < t.children.len()
            &&& model_pop(m).1.head == Option::Some(t.children[w])
            &&& forall|j: int|
                0 <= j < t.children.len() ==> sat32(tree_depth(t.children[w])) >= sat32(
                    tree_depth(#[trigger] t.children[j]),
                )
        }),
{
    let t = m.head.unwrap();
    lemma_best_child_max(t.children, 1, 0);
}

/// The blocks held by the orphan queue, in queue order.
pub open spec fn orphan_blocks(o: Seq<(BlockId, LazyBlock)>) -> Seq<LazyBlock> {
    o.map_values(|p: (BlockId, LazyBlock)| p.1)
}

/// The blocks held by the forest, in depth-first preorder; empty when there
/// is no head.
pub open spec fn head_blocks(m: ChainModel) -> Seq<LazyBlock> {
    match m.head {
        Option::Some(t) => tree_blocks(t),
        Option::None => Seq::empty(),
    }
}

/// Every block the assembler holds, as a multiset: the forest's blocks and
/// the orphans.
pub open spec fn model_blocks(m: ChainModel) -> Multiset<LazyBlock> {
    head_blocks(m).to_multiset().add(orphan_blocks(m.orphans).to_multiset())
}

/// Forest blocks only depend on the elements from `i` on.
proof fn lemma_forest_blocks_ext(f1: Seq<BlockTree>, f2: Seq<BlockTree>, i: int)
    requires
        f1.len() == f2.len(),
        forall|k: int| i <= k < f1.len() ==> f1[k] == f2[k],
    ensures
        forest_blocks(f1, i) =~= forest_blocks(f2, i),
    decreases f1.len() - i,
{
    if 0 <= i < f1.len() {
        lemma_forest_blocks_ext(f1, f2, i + 1);
    }
}

/// Pushing a tree onto a forest appends its blocks.
proof fn lemma_forest_blocks_push(f: Seq<BlockTree>, i: int, l: BlockTree)
    requires
        0 <= i <= f.len(),
    ensures
        forest_blocks(f.push(l), i) =~= forest_blocks(f, i) + tree_blocks(l),
    decreases f.len() - i,
{
    if i < f.len() {
        lemma_forest_blocks_push(f, i + 1, l);
        assert(f.push(l)[i] == f[i]);
    } else {
        assert(f.push(l)[i] == l);
        assert(forest_blocks(f.push(l), i + 1) =~= Seq::<LazyBlock>::empty());
        assert(forest_blocks(f, i) =~= Seq::<LazyBlock>::empty());
    }
}

/// Attaching adds exactly the new block to the tree's block multiset.
proof fn lemma_tree_attach_ms(t: BlockTree, pid: BlockId, b: LazyBlock)
    requires
        tree_contains(t, pid),
    ensures
        tree_blocks(tree_attach(t, pid, b)).to_multiset() =~= tree_blocks(t).to_multiset().insert(
            b,
        ),
    decreases t, 0int,
{
    broadcast use vstd::seq_lib::group_to_multiset_ensures;

    let r = tree_attach(t, pid, b);
    if t.block.id == pid {
        lemma_forest_blocks_push(t.children, 0, leaf_tree(b));
        assert(tree_blocks(leaf_tree(b)) =~= seq![b]);
        assert(forest_blocks(t.children, 0) + seq![b] =~= (forest_blocks(t.children, 0)).push(b));
        assert(tree_blocks(r) =~= (seq![t.block] + forest_blocks(t.children, 0)).push(b));
        assert(tree_blocks(r).to_multiset() =~= tree_blocks(t).to_multiset().insert(b));
    } else {
        lemma_forest_attach_ms(t.children, 0, pid, b);
        lemma_multiset_commutative(seq![t.block], forest_blocks(t.children, 0));
        lemma_multiset_commutative(seq![t.block], forest_blocks(forest_attach(t.children, 0, pid, b), 0));
        assert(tree_blocks(r) =~= seq![t.block] + forest_blocks(forest_attach(t.children, 0, pid, b), 0));
        assert(tree_blocks(t) =~= seq![t.block] + forest_blocks(t.children, 0));
        assert(tree_blocks(r).to_multiset() =~= tree_blocks(t).to_multiset().insert(b));
    }
}

/// Forest version of `lemma_tree_attach_ms`.
proof fn lemma_forest_attach_ms(f: Seq<BlockTree>, i: int, pid: BlockId, b: LazyBlock)
    requires
        forest_contains(f, i, pid),
    ensures
        forest_blocks(forest_attach(f, i, pid, b), i).to_multiset() =~= forest_blocks(
            f,
            i,
        ).to_multiset().insert(b),
    decreases f, f.len() - i,
{
    broadcast use vstd::seq_lib::group_to_multiset_ensures;

    let r = forest_attach(f, i, pid, b);
    if tree_contains(f[i], pid) {
        lemma_tree_attach_ms(f[i], pid, b);
        assert(r == f.update(i, tree_attach(f[i], pid, b)));
        lemma_forest_blocks_ext(r, f, i + 1);
        assert(forest_blocks(r, i) =~= tree_blocks(tree_attach(f[i], pid, b)) + forest_blocks(
            f,
            i + 1,
        ));
        lemma_multiset_commutative(tree_blocks(tree_attach(f[i], pid, b)), forest_blocks(f, i + 1));
        lemma_multiset_commutative(tree_blocks(f[i]), forest_blocks(f, i + 1));
        assert(forest_blocks(f, i) =~= tree_blocks(f[i]) + forest_blocks(f, i + 1));
        assert(forest_blocks(r, i).to_multiset() =~= forest_blocks(f, i).to_multiset().insert(b));
    } else {
        lemma_forest_attach_ms(f, i + 1, pid, b);
        lemma_forest_attach_frame(f, i + 1, pid, b);
        assert(r[i] == f[i]);
        assert(forest_blocks(r, i) =~= tree_blocks(f[i]) + forest_blocks(r, i + 1));
        assert(forest_blocks(f, i) =~= tree_blocks(f[i]) + forest_blocks(f, i + 1));
        lemma_multiset_commutative(tree_blocks(f[i]), forest_blocks(r, i + 1));
        lemma_multiset_commutative(tree_blocks(f[i]), forest_blocks(f, i + 1));
        assert(forest_blocks(r, i).to_multiset() =~= forest_blocks(f, i).to_multiset().insert(b));
    }
}

/// Replacing one element of a sequence keeps its multiset within the old
/// multiset plus the new element.
proof fn lemma_update_ms(s: Seq<LazyBlock>, j: int, x: LazyBlock)
    requires
        0 <= j < s.len(),
    ensures
        s.update(j, x).to_multiset().subset_of(s.to_multiset().insert(x)),
{
    broadcast use vstd::seq_lib::group_to_multiset_ensures;

    let a = s.subrange(0, j);
    let c = s.subrange(j + 1, s.len() as int);
    assert(s =~= a + seq![s[j]] + c);
    assert(s.update(j, x) =~= a + seq![x] + c);
    lemma_multiset_commutative(a + seq![s[j]], c);
    lemma_multiset_commutative(a, seq![s[j]]);
    lemma_multiset_commutative(a + seq![x], c);
    lemma_multiset_commutative(a, seq![x]);
    assert(seq![s[j]].to_multiset() =~= Multiset::<LazyBlock>::empty().insert(s[j]));
    assert(seq![x].to_multiset() =~= Multiset::<LazyBlock>::empty().insert(x));
}

/// Inserting a block never creates blocks: what the assembler holds
/// afterwards is bounded by what it held before plus the new block.  (The
/// bound is not an equality: a later orphan waiting on the same missing
/// parent replaces, and so discards, the earlier one.)
pub proof fn lemma_model_insert_ms(m: ChainModel, b: LazyBlock)
    ensures
        model_blocks(model_insert(m, b)).subset_of(model_blocks(m).insert(b)),
    decreases m.orphans.len(), 1int,
{
    broadcast use vstd::seq_lib::group_to_multiset_ensures;

    let prev = b.header.prev_id;
    match m.head {
        Option::None => {
            if prev == m.genesis {
                let m1 = ChainModel { head: Option::Some(leaf_tree(b)), ..m };
                assert(tree_blocks(leaf_tree(b)) =~= Seq::<LazyBlock>::empty().push(b));
                assert(head_blocks(m1).to_multiset() =~= head_blocks(m).to_multiset().insert(b));
                assert(model_blocks(m1) =~= model_blocks(m).insert(b));
                lemma_model_resolve_ms(m1, b.id);
            } else {
                lemma_orphan_upsert_ms(m, prev, b);
            }
        },
        Option::Some(t) => {
            if tree_contains(t, prev) {
                lemma_tree_attach_ms(t, prev, b);
                let m1 = ChainModel { head: Option::Some(tree_attach(t, prev, b)), ..m };
                assert(model_blocks(m1) =~= model_blocks(m).insert(b));
                lemma_model_resolve_ms(m1, b.id);
            } else {
                lemma_orphan_upsert_ms(m, prev, b);
            }
        },
    }
}

/// The orphan-queue case of `lemma_model_insert_ms`.
proof fn lemma_orphan_upsert_ms(m: ChainModel, key: BlockId, b: LazyBlock)
    ensures
        model_blocks(ChainModel { orphans: orphan_upsert(m.orphans, key, b), ..m }).subset_of(
            model_blocks(m).insert(b),
        ),
{
    broadcast use vstd::seq_lib::group_to_multiset_ensures;

    lemma_orphan_index_range(m.orphans, 0, key);
    let o = m.orphans;
    let j = orphan_index(o, 0, key);
    if j >= 0 {
        assert(orphan_blocks(orphan_upsert(o, key, b)) =~= orphan_blocks(o).update(j, b));
        lemma_update_ms(orphan_blocks(o), j, b);
    } else {
        assert(orphan_blocks(orphan_upsert(o, key, b)) =~= orphan_blocks(o).push(b));
    }
}

/// Resolution never creates blocks: it moves the resolved orphan into the
/// forest.
proof fn lemma_model_resolve_ms(m: ChainModel, id: BlockId)
    ensures
        model_blocks(model_resolve(m, id)).subset_of(model_blocks(m)),
    decreases m.orphans.len(), 0int,
{
    broadcast use vstd::seq_lib::group_to_multiset_ensures;

    lemma_orphan_index_range(m.orphans, 0, id);
    let j = orphan_index(m.orphans, 0, id);
    if j >= 0 {
        let o = m.orphans[j].1;
        let m2 = ChainModel { orphans: m.orphans.remove(j), ..m };
        assert(orphan_blocks(m.orphans.remove(j)) =~= orphan_blocks(m.orphans).remove(j));
        assert(orphan_blocks(m.orphans)[j] == o);
        assert(orphan_blocks(m.orphans).remove(j).to_multiset() =~= orphan_blocks(
            m.orphans,
        ).to_multiset().remove(o));
        assert(orphan_blocks(m.orphans).to_multiset().count(o) > 0) by {
            assert(orphan_blocks(m.orphans).contains(o));
        }
        assert(model_blocks(m2).insert(o).subset_of(model_blocks(m)));
        lemma_model_insert_ms(m2, o);
    }
}

/// The blocks of one tree of a forest are among the forest's blocks.
proof fn lemma_forest_blocks_ge(f: Seq<BlockTree>, i: int, j: int)
    requires
        0 <= i <= j < f.len(),
    ensures
        tree_blocks(f[j]).to_multiset().subset_of(forest_blocks(f, i).to_multiset()),
    decreases j - i,
{
    broadcast use vstd::seq_lib::group_to_multiset_ensures;

    lemma_multiset_commutative(tree_blocks(f[i]), forest_blocks(f, i + 1));
    assert(forest_blocks(f, i) =~= tree_blocks(f[i]) + forest_blocks(f, i + 1));
    if i < j {
        lemma_forest_blocks_ge(f, i + 1, j);
    }
}

/// Popping never creates blocks: the head block leaves, one child subtree
/// survives, and the pruned siblings' blocks disappear.
pub proof fn lemma_model_pop_ms(m: ChainModel)
    requires
        m.head is Some,
    ensures
        model_blocks(model_pop(m).1).insert(model_pop(m).0.unwrap()).subset_of(model_blocks(m)),
{
    broadcast use vstd::seq_lib::group_to_multiset_ensures;

    let t = m.head.unwrap();
    lemma_multiset_commutative(seq![t.block], forest_blocks(t.children, 0));
    assert(tree_blocks(t) =~= seq![t.block] + forest_blocks(t.children, 0));
    assert(seq![t.block].to_multiset() =~= Multiset::<LazyBlock>::empty().insert(t.block));
    if t.children.len() == 0 {
    } else {
        let w = best_child(t.children, 1, 0);
        lemma_best_child_range(t.children, 1, 0);
        lemma_forest_blocks_ge(t.children, 0, w);
    }
}

/// The blocks that one pop discards: every sibling subtree of the winning
/// child; nothing when the head has at most one child.
pub open spec fn model_pruned(m: ChainModel) -> Multiset<LazyBlock> {
    match m.head {
        Option::Some(t) => {
            if t.children.len() == 0 {
                Multiset::empty()
            } else {
                let w = best_child(t.children, 1, 0);
                forest_blocks(t.children, 0).to_multiset().sub(
                    tree_blocks(t.children[w]).to_multiset(),
                )
            }
        },
        Option::None => Multiset::empty(),
    }
}

/// Popping accounts for every block: the old forest held exactly the new
/// forest, the popped block, and the pruned siblings' blocks.
pub proof fn lemma_model_pop_ms_eq(m: ChainModel)
    requires
        m.head is Some,
    ensures
        model_blocks(m) =~= model_blocks(model_pop(m).1).insert(model_pop(m).0.unwrap()).add(
            model_pruned(m),
        ),
{
    broadcast use vstd::seq_lib::group_to_multiset_ensures;

    let t = m.head.unwrap();
    lemma_multiset_commutative(seq![t.block], forest_blocks(t.children, 0));
    assert(tree_blocks(t) =~= seq![t.block] + forest_blocks(t.children, 0));
    assert(seq![t.block].to_multiset() =~= Multiset::<LazyBlock>::empty().insert(t.block));
    if t.children.len() == 0 {
        assert(forest_blocks(t.children, 0) =~= Seq::<LazyBlock>::empty());
        assert(forall|x: LazyBlock| !Seq::<LazyBlock>::empty().contains(x));
    } else {
        let w = best_child(t.children, 1, 0);
        lemma_best_child_range(t.children, 1, 0);
        lemma_forest_blocks_ge(t.children, 0, w);
    }
}

/// An attach makes the new block's identifier present in the tree.
proof fn lemma_tree_attach_adds(t: BlockTree, pid: BlockId, b: LazyBlock)
    requires
        tree_contains(t, pid),
    ensures
        tree_contains(tree_attach(t, pid, b), b.id),
    decreases t, 0int,
{
    if t.block.id == pid {
        lemma_forest_contains_push(t.children, 0, leaf_tree(b), b.id);
    } else {
        lemma_forest_attach_adds(t.children, 0, pid, b);
    }
}

/// Forest version of `lemma_tree_attach_adds`.
proof fn lemma_forest_attach_adds(f: Seq<BlockTree>, i: int, pid: BlockId, b: LazyBlock)
    requires
        forest_contains(f, i, pid),
    ensures
        forest_contains(forest_attach(f, i, pid, b), i, b.id),
    decreases f, f.len() - i,
{
    let r = forest_attach(f, i, pid, b);
    if tree_contains(f[i], pid) {
        lemma_tree_attach_adds(f[i], pid, b);
        assert(r[i] == tree_attach(f[i], pid, b));
    } else {
        lemma_forest_attach_adds(f, i + 1, pid, b);
        lemma_forest_attach_frame(f, i + 1, pid, b);
    }
}

/// A block that attaches never adds an orphan; when an orphan was waiting
/// on it, the whole chain of orphans it unblocks attaches with it, and the
/// orphan count strictly falls.  With every missing parent arriving before
/// a cap stops the run, the count therefore returns to zero.
pub proof fn lemma_attach_shrinks_orphans(m: ChainModel, b: LazyBlock)
    requires
        forall|i: int|
            0 <= i < m.orphans.len() ==> (#[trigger] m.orphans[i]).1.header.prev_id
                == m.orphans[i].0,
        match m.head {
            Option::Some(t) => tree_contains(t, b.header.prev_id),
            Option::None => b.header.prev_id == m.genesis,
        },
    ensures
        model_insert(m, b).orphans.len() <= m.orphans.len(),
        orphan_index(m.orphans, 0, b.id) >= 0 ==> model_insert(m, b).orphans.len()
            < m.orphans.len(),
    decreases m.orphans.len(), 1int,
{
    match m.head {
        Option::None => {
            let m1 = ChainModel { head: Option::Some(leaf_tree(b)), ..m };
            assert(tree_contains(leaf_tree(b), b.id));
            lemma_resolve_shrinks(m1, b.id);
        },
        Option::Some(t) => {
            lemma_tree_attach_adds(t, b.header.prev_id, b);
            let m1 = ChainModel { head: Option::Some(tree_attach(t, b.header.prev_id, b)), ..m };
            lemma_resolve_shrinks(m1, b.id);
        },
    }
}

/// Resolution removes the waiting orphan (if any) and re-attaches it, so
/// the queue never grows and strictly shrinks when one waited.
proof fn lemma_resolve_shrinks(m: ChainModel, id: BlockId)
    requires
        m.head matches Option::Some(t) && tree_contains(t, id),
        forall|i: int|
            0 <= i < m.orphans.len() ==> (#[trigger] m.orphans[i]).1.header.prev_id
                == m.orphans[i].0,
    ensures
        model_resolve(m, id).orphans.len() <= m.orphans.len(),
        orphan_index(m.orphans, 0, id) >= 0 ==> model_resolve(m, id).orphans.len()
            < m.orphans.len(),
    decreases m.orphans.len(), 0int,
{
    lemma_orphan_index_range(m.orphans, 0, id);
    let j = orphan_index(m.orphans, 0, id);
    if j >= 0 {
        let o = m.orphans[j].1;
        let m2 = ChainModel { orphans: m.orphans.remove(j), ..m };
        assert(o.header.prev_id == id);
        assert forall|i: int|
            0 <= i < m2.orphans.len() implies (#[trigger] m2.orphans[i]).1.header.prev_id
            == m2.orphans[i].0 by {
            if i < j {
                assert(m2.orphans[i] == m.orphans[i]);
            } else {
                assert(m2.orphans[i] == m.orphans[i + 1]);
            }
        }
        lemma_attach_shrinks_orphans(m2, o);
    }
}

} // verus!
