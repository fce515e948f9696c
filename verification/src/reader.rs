//! The reader driver's state: the height counter, the assembler, and the
//! limits.
//!
//! The driver that lists files, reads bytes and dispatches callbacks lives
//! outside the library; it feeds each decoded record to `insert` and hands
//! the returned `(block, height)` pairs to the consumer in order.  A ghost
//! log of every emitted and every inserted block carries the ordering
//! guarantees.

use vstd::prelude::*;

use vstd::multiset::Multiset;
use vstd::seq_lib::lemma_multiset_commutative;

use crate::block::BlockId;
use crate::block::LazyBlock;
use crate::chain::lemma_model_insert_head;
use crate::chain::lemma_model_insert_ms;
use crate::chain::lemma_model_insert_wf;
use crate::chain::lemma_model_pop_depth;
use crate::chain::lemma_model_pop_link;
use crate::chain::lemma_model_pop_ms;
use crate::chain::lemma_model_pop_wf;
use crate::chain::model_blocks;
use crate::chain::model_depth;
use crate::chain::model_insert;
use crate::chain::model_pop;
use crate::chain::model_wf;
use crate::chain::orphan_blocks;
use crate::chain::sat32;
use crate::chain::Chain;
use crate::chain::ChainModel;

verus! {

/// A block is emitted only when the main branch holds at least this many
/// blocks starting with it.
pub const CONFIRMATION_DEPTH: u32 = 10;

/// Default cap on orphan blocks held in memory.
pub const MAX_ORPHAN_BLOCKS: usize = 10_000;

/// Limits on a read: block-count cap, orphan cap, file cap.  `None` means
/// no cap.  The stop signal is polled by the surrounding driver between
/// records.
pub struct BlockReaderOptions {
    pub max_blocks: Option<u32>,
    pub max_orphans: Option<usize>,
    pub max_blk_files: Option<usize>,
}

impl Default for BlockReaderOptions {
    /// 1 000 blocks at most, 10 000 orphans at most, no file cap.
    fn default() -> (r: Self)
        ensures
            r.max_blocks == Option::Some(1000u32),
            r.max_orphans == Option::Some(MAX_ORPHAN_BLOCKS),
            r.max_blk_files is None,
    {
        BlockReaderOptions {
            max_blocks: Option::Some(1000),
            max_orphans: Option::Some(MAX_ORPHAN_BLOCKS),
            max_blk_files: Option::None,
        }
    }
}

/// Each emitted block links to the block emitted just before it, except a
/// block that (re)starts a chain from the genesis sentinel.
pub open spec fn log_linked(log: Seq<(LazyBlock, u32)>, genesis: BlockId) -> bool {
    forall|k: int|
        1 <= k < log.len() ==> (#[trigger] log[k]).0.header.prev_id == log[k - 1].0.id || log[
            k
        ].0.header.prev_id == genesis
}

/// The forest's root is the child of the last emitted block, or a genesis
/// block.
pub open spec fn head_follows_log(m: ChainModel, log: Seq<(LazyBlock, u32)>) -> bool {
    m.head matches Option::Some(t) ==> (t.block.header.prev_id == m.genesis || (log.len() > 0
        && t.block.header.prev_id == log[log.len() - 1].0.id))
}

/// Each emitted block carries the height at which it was handed out: its
/// position in the emission order.
pub open spec fn log_heights(log: Seq<(LazyBlock, u32)>) -> bool {
    forall|k: int| 0 <= k < log.len() ==> (#[trigger] log[k]).1 == k
}

/// Whether the height counter has met the block-count cap.
pub open spec fn spec_height_capped(height: u32, max_blocks: Option<u32>) -> bool {
    match max_blocks {
        Option::Some(mb) => height >= mb,
        Option::None => false,
    }
}

/// What draining does: while the main branch is at least
/// `CONFIRMATION_DEPTH` deep, the front block is popped and emitted at the
/// current height; the drain stops when the depth falls short, when the
/// block-count cap is met, or at the height counter's machine limit.
/// Returns the final forest, the emitted pairs, and the final height.
pub open spec fn model_drain(m: ChainModel, height: u32, max_blocks: Option<u32>) -> (
    ChainModel,
    Seq<(LazyBlock, u32)>,
    u32,
)
    decreases model_depth(m),
{
    if sat32(model_depth(m)) < CONFIRMATION_DEPTH || height == u32::MAX {
        (m, Seq::empty(), height)
    } else {
        proof {
            assert(m.head is Some);
            lemma_model_pop_depth(m);
        }
        let b = model_pop(m).0.unwrap();
        let m2 = model_pop(m).1;
        if spec_height_capped((height + 1) as u32, max_blocks) {
            (m2, seq![(b, height)], (height + 1) as u32)
        } else {
            let rest = model_drain(m2, (height + 1) as u32, max_blocks);
            (rest.0, seq![(b, height)] + rest.1, rest.2)
        }
    }
}

/// The blocks of an emission log, in emission order.
pub open spec fn emitted_blocks(log: Seq<(LazyBlock, u32)>) -> Seq<LazyBlock> {
    log.map_values(|p: (LazyBlock, u32)| p.0)
}

/// No two blocks of the sequence share an identifier.
pub open spec fn distinct_ids(s: Seq<LazyBlock>) -> bool {
    forall|a: int, b: int| 0 <= a < b < s.len() ==> (#[trigger] s[a]).id != (#[trigger] s[b]).id
}

/// Reader state: the height counter, the assembler, and the limits.
pub struct BlockReader {
    height: u32,
    chain: Chain,
    options: BlockReaderOptions,
    emitted: Ghost<Seq<(LazyBlock, u32)>>,
    inserted: Ghost<Seq<LazyBlock>>,
}

impl BlockReader {
    /// The `(block, height)` pairs handed to the consumer so far, in
    /// emission order.
    pub closed spec fn emitted_log(self) -> Seq<(LazyBlock, u32)> {
        self.emitted@
    }

    /// Every block ever handed to `insert`, in arrival order.
    pub closed spec fn inserted_log(self) -> Seq<LazyBlock> {
        self.inserted@
    }

    /// The model of the assembler.
    pub closed spec fn chain_model(self) -> ChainModel {
        self.chain.model()
    }

    /// The current height: the number of blocks emitted.
    pub closed spec fn height_spec(self) -> u32 {
        self.height
    }

    /// The configured limits.
    pub closed spec fn options_spec(self) -> BlockReaderOptions {
        self.options
    }

    /// The block-count cap has been reached.
    pub open spec fn max_height_reached_spec(self) -> bool {
        match self.options_spec().max_blocks {
            Option::Some(mb) => self.height_spec() >= mb,
            Option::None => false,
        }
    }

    /// The orphan cap has been reached.
    pub open spec fn max_orphans_reached_spec(self) -> bool {
        match self.options_spec().max_orphans {
            Option::Some(mo) => self.chain_model().orphans.len() >= mo,
            Option::None => false,
        }
    }

    /// Reader well-formedness: the assembler is well formed, the height
    /// counts the emitted blocks, the emitted blocks form parent-linked
    /// runs, and the forest continues the emitted log.
    pub open spec fn wf(self) -> bool {
        &&& model_wf(self.chain_model())
        &&& self.height_spec() == self.emitted_log().len()
        &&& log_heights(self.emitted_log())
        &&& log_linked(self.emitted_log(), self.chain_model().genesis)
        &&& head_follows_log(self.chain_model(), self.emitted_log())
        &&& model_blocks(self.chain_model()).add(
            emitted_blocks(self.emitted_log()).to_multiset(),
        ).subset_of(self.inserted_log().to_multiset())
    }

    /// A fresh reader at height 0 over an empty forest whose genesis
    /// sentinel is the all-zero identifier.
    pub fn new(options: BlockReaderOptions) -> (r: BlockReader)
        ensures
            r.wf(),
            r.height_spec() == 0,
            r.emitted_log() == Seq::<(LazyBlock, u32)>::empty(),
            r.inserted_log() == Seq::<LazyBlock>::empty(),
            r.chain_model().head is None,
            r.chain_model().orphans == Seq::<(BlockId, LazyBlock)>::empty(),
            r.chain_model().genesis == BlockId::spec_zero(),
            r.options_spec() == options,
    {
        let r = BlockReader {
            height: 0,
            chain: Chain::new(BlockId::all_zeros()),
            options,
            emitted: Ghost(Seq::empty()),
            inserted: Ghost(Seq::empty()),
        };
        proof {
            broadcast use vstd::seq_lib::group_to_multiset_ensures;

            assert(orphan_blocks(r.chain_model().orphans) =~= Seq::<LazyBlock>::empty());
            assert(emitted_blocks(r.emitted_log()) =~= Seq::<LazyBlock>::empty());
            assert forall|x: LazyBlock|
                model_blocks(r.chain_model()).add(
                    emitted_blocks(r.emitted_log()).to_multiset(),
                ).count(x) <= r.inserted_log().to_multiset().count(x) by {
                assert(!Seq::<LazyBlock>::empty().contains(x));
            }
        }
        r
    }

    /// The number of orphan blocks waiting in the assembler.
    pub fn orphans(&self) -> (n: usize)
        ensures
            n == self.chain_model().orphans.len(),
    {
        self.chain.orphans()
    }

    /// The height of the next block to emit.
    pub fn height(&self) -> (h: u32)
        ensures
            h == self.height_spec(),
    {
        self.height
    }

    /// Whether the block-count cap has been reached.
    pub fn max_height_reached(&self) -> (r: bool)
        ensures
            r == self.max_height_reached_spec(),
    {
        match self.options.max_blocks {
            Option::Some(mb) => self.height >= mb,
            Option::None => false,
        }
    }

    /// Whether the orphan cap has been reached.
    pub fn max_orphans_reached(&self) -> (r: bool)
        ensures
            r == self.max_orphans_reached_spec(),
    {
        match self.options.max_orphans {
            Option::Some(mo) => self.chain.orphans() >= mo,
            Option::None => false,
        }
    }

    /// Inserts one decoded record into the assembler, then drains: while the
    /// main branch is at least `CONFIRMATION_DEPTH` deep, the front block is
    /// popped and handed back with its height.  Draining stops early when
    /// the block-count cap (or the counter's machine limit) is reached.
    ///
    /// The returned pairs carry consecutive heights continuing the reader's
    /// count, in emission order.
    #[verifier::rlimit(80)]
    pub fn insert(&mut self, block: LazyBlock) -> (emitted: Vec<(LazyBlock, u32)>)
        requires
            old(self).wf(),
        ensures
            final(self).wf(),
            final(self).options_spec() == old(self).options_spec(),
            final(self).chain_model().genesis == old(self).chain_model().genesis,
            final(self).inserted_log() == old(self).inserted_log().push(block),
            final(self).emitted_log() == old(self).emitted_log() + emitted@,
            final(self).height_spec() == old(self).height_spec() + emitted@.len(),
            forall|i: int|
                0 <= i < emitted@.len() ==> (#[trigger] emitted@[i]).1 == old(self).height_spec()
                    + i,
            sat32(model_depth(final(self).chain_model())) < CONFIRMATION_DEPTH
                || final(self).max_height_reached_spec()
                || final(self).height_spec() == u32::MAX,
            ({
                let drained = model_drain(
                    model_insert(old(self).chain_model(), block),
                    old(self).height_spec(),
                    old(self).options_spec().max_blocks,
                );
                &&& final(self).chain_model() == drained.0
                &&& emitted@ == drained.1
                &&& final(self).height_spec() == drained.2
            }),
    {
        let ghost genesis = self.chain.model().genesis;
        let ghost mc0 = self.chain.model();
        let ghost max_blocks = self.options.max_blocks;
        let ghost drained = model_drain(model_insert(mc0, block), self.height, max_blocks);
        let mut out: Vec<(LazyBlock, u32)> = Vec::new();
        proof {
            lemma_model_insert_wf(mc0, block);
            lemma_model_insert_head(mc0, block);
            lemma_model_insert_ms(mc0, block);
        }
        self.chain.insert(block);
        proof {
            self.inserted@ = self.inserted@.push(block);
            assert(self.emitted@ + out@ =~= self.emitted@);
            broadcast use vstd::seq_lib::group_to_multiset_ensures;

            let em = emitted_blocks(self.emitted@).to_multiset();
            assert forall|x: LazyBlock|
                model_blocks(self.chain.model()).add(em).count(x)
                    <= self.inserted@.to_multiset().count(x) by {
                assert(model_blocks(self.chain.model()).count(x) <= model_blocks(mc0).insert(
                    block,
                ).count(x));
                assert(model_blocks(mc0).add(em).count(x) <= old(
                    self,
                ).inserted_log().to_multiset().count(x));
            }
        }
        loop
            invariant
                self.wf(),
                genesis == old(self).chain_model().genesis,
                self.chain.model().genesis == genesis,
                self.options == old(self).options_spec(),
                self.inserted@ == old(self).inserted_log().push(block),
                self.emitted@ == old(self).emitted_log() + out@,
                self.height == old(self).height_spec() + out@.len(),
                forall|i: int|
                    0 <= i < out@.len() ==> (#[trigger] out@[i]).1 == old(self).height_spec() + i,
                max_blocks == old(self).options_spec().max_blocks,
                drained == model_drain(model_insert(old(self).chain_model(), block), old(
                    self,
                ).height_spec(), max_blocks),
                drained.0 == model_drain(self.chain.model(), self.height, max_blocks).0,
                drained.1 == out@ + model_drain(self.chain.model(), self.height, max_blocks).1,
                drained.2 == model_drain(self.chain.model(), self.height, max_blocks).2,
            decreases model_depth(self.chain.model()),
        {
            let depth = self.chain.longest_chain_depth();
            if depth < CONFIRMATION_DEPTH {
                proof {
                    assert(model_drain(self.chain.model(), self.height, max_blocks) == (
                        self.chain.model(),
                        Seq::<(LazyBlock, u32)>::empty(),
                        self.height,
                    ));
                    assert(out@ + Seq::<(LazyBlock, u32)>::empty() =~= out@);
                }
                return out;
            }
            if self.height == u32::MAX {
                proof {
                    assert(model_drain(self.chain.model(), self.height, max_blocks) == (
                        self.chain.model(),
                        Seq::<(LazyBlock, u32)>::empty(),
                        self.height,
                    ));
                    assert(out@ + Seq::<(LazyBlock, u32)>::empty() =~= out@);
                }
                return out;
            }
            let ghost m = self.chain.model();
            let ghost e0 = self.emitted@;
            let ghost h0 = self.height;
            let ghost out0 = out@;
            proof {
                lemma_model_pop_wf(m);
                lemma_model_pop_link(m);
                lemma_model_pop_depth(m);
                lemma_model_pop_ms(m);
            }
            match self.chain.pop_head() {
                Option::Some(b) => {
                    let h = self.height;
                    self.height = h + 1;
                    proof {
                        self.emitted@ = self.emitted@.push((b, h));
                    }
                    out.push((b, h));
                    proof {
                        assert(self.emitted@ =~= old(self).emitted_log() + out@);
                        broadcast use vstd::seq_lib::group_to_multiset_ensures;

                        assert(emitted_blocks(self.emitted@) =~= emitted_blocks(e0).push(b));
                        let em_new = emitted_blocks(self.emitted@).to_multiset();
                        let em_old = emitted_blocks(e0).to_multiset();
                        assert(em_new =~= em_old.insert(b));
                        assert forall|x: LazyBlock|
                            model_blocks(self.chain.model()).add(em_new).count(x)
                                <= self.inserted@.to_multiset().count(x) by {
                            assert(model_blocks(self.chain.model()).insert(b).count(x)
                                <= model_blocks(m).count(x));
                            assert(model_blocks(m).add(em_old).count(x)
                                <= self.inserted@.to_multiset().count(x));
                        }
                    }
                    proof {
                        let step = model_drain(m, h0, max_blocks);
                        let rest = model_drain(self.chain.model(), self.height, max_blocks);
                        if spec_height_capped(self.height, max_blocks) {
                            assert(step == (self.chain.model(), seq![(b, h0)], self.height));
                            assert(out0 + step.1 =~= out@);
                        } else {
                            assert(step == (rest.0, seq![(b, h0)] + rest.1, rest.2));
                            assert(out0 + (seq![(b, h0)] + rest.1) =~= out@ + rest.1);
                        }
                    }
                    if self.max_height_reached() {
                        return out;
                    }
                },
                Option::None => {
                    proof {
                        assert(m.head is None);
                        assert(false);
                    }
                },
            }
        }
    }
}

/// Monotone emission: for any sequence of inserts, the heights passed to
/// the consumer form 0, 1, 2, ... without gaps or repetitions — each
/// emitted pair carries exactly its position in the emission order.
pub proof fn lemma_monotone_emission(r: BlockReader)
    requires
        r.wf(),
    ensures
        forall|k: int| 0 <= k < r.emitted_log().len() ==> (#[trigger] r.emitted_log()[k]).1 == k,
        r.height_spec() == r.emitted_log().len(),
{
}

/// Parent precedes child: if the emitted blocks carry pairwise distinct
/// identifiers, none of them the genesis sentinel, then a block emitted
/// after its parent is emitted immediately after it, at the next height.
///
/// A forest whose identifiers collide with each other or with the sentinel
/// (impossible for honest double-SHA-256 digests) could restart a chain at
/// the sentinel and break this; those runs are excluded by hypothesis.
pub proof fn lemma_parent_precedes_child(r: BlockReader, i: int, j: int)
    requires
        r.wf(),
        forall|a: int, b: int|
            0 <= a < b < r.emitted_log().len() ==> (#[trigger] r.emitted_log()[a]).0.id != (
            #[trigger] r.emitted_log()[b]).0.id,
        forall|a: int|
            0 <= a < r.emitted_log().len() ==> (#[trigger] r.emitted_log()[a]).0.id
                != r.chain_model().genesis,
        0 <= i < j < r.emitted_log().len(),
        r.emitted_log()[j].0.header.prev_id == r.emitted_log()[i].0.id,
    ensures
        j == i + 1,
        r.emitted_log()[i].1 + 1 == r.emitted_log()[j].1,
{
    let log = r.emitted_log();
    if j != i + 1 {
        assert(log[j].0.header.prev_id == log[j - 1].0.id || log[j].0.header.prev_id
            == r.chain_model().genesis);
        assert(log[i].0.id == log[j - 1].0.id);
    }
}

/// A value sitting at two positions of a sequence counts at least twice in
/// its multiset.
proof fn lemma_dup_count(s: Seq<LazyBlock>, i: int, j: int)
    requires
        0 <= i < j < s.len(),
        s[i] == s[j],
    ensures
        s.to_multiset().count(s[i]) >= 2,
{
    broadcast use vstd::seq_lib::group_to_multiset_ensures;

    let s0 = s.subrange(0, j);
    let s1 = s.subrange(j, s.len() as int);
    assert(s =~= s0 + s1);
    lemma_multiset_commutative(s0, s1);
    assert(s0[i] == s[i]);
    assert(s0.contains(s[i]));
    assert(s1[0] == s[j]);
    assert(s1.contains(s[j]));
}

/// No re-emission: when the inserted blocks carry pairwise distinct
/// identifiers, no identifier is handed to the consumer twice across a
/// whole run.
///
/// Without the hypothesis a block re-delivered after its copy was emitted
/// could be emitted again, as the identifiers alone cannot tell the two
/// apart.
pub proof fn lemma_no_reemission(r: BlockReader, i: int, j: int)
    requires
        r.wf(),
        distinct_ids(r.inserted_log()),
        0 <= i < j < r.emitted_log().len(),
    ensures
        r.emitted_log()[i].0.id != r.emitted_log()[j].0.id,
{
    broadcast use vstd::seq_lib::group_to_multiset_ensures;

    let em = emitted_blocks(r.emitted_log());
    let ins = r.inserted_log();
    let bi = em[i];
    let bj = em[j];
    assert(bi == r.emitted_log()[i].0 && bj == r.emitted_log()[j].0);
    assert forall|x: LazyBlock| em.to_multiset().count(x) <= ins.to_multiset().count(x) by {
        assert(model_blocks(r.chain_model()).add(em.to_multiset()).count(x) <= ins.to_multiset().count(
            x,
        ));
    }
    if bi.id == bj.id {
        if bi == bj {
            lemma_dup_count(em, i, j);
            assert(ins.to_multiset().count(bi) >= 2);
            lemma_distinct_ids_counts(ins);
            assert(false);
        } else {
            assert(em.contains(bi));
            assert(em.to_multiset().count(bi) > 0);
            assert(ins.to_multiset().count(bi) > 0);
            assert(ins.contains(bi));
            assert(em.contains(bj));
            assert(em.to_multiset().count(bj) > 0);
            assert(ins.to_multiset().count(bj) > 0);
            assert(ins.contains(bj));
            let a = choose|a: int| 0 <= a < ins.len() && ins[a] == bi;
            let c = choose|c: int| 0 <= c < ins.len() && ins[c] == bj;
            assert(a != c);
            if a < c {
                assert(ins[a].id != ins[c].id);
            } else {
                assert(ins[c].id != ins[a].id);
            }
            assert(false);
        }
    }
}

/// When no two blocks share an identifier, no block value occurs twice.
proof fn lemma_distinct_ids_counts(s: Seq<LazyBlock>)
    requires
        distinct_ids(s),
    ensures
        forall|x: LazyBlock| #[trigger] s.to_multiset().count(x) <= 1,
{
    broadcast use vstd::seq_lib::group_to_multiset_ensures;

    assert(s.no_duplicates()) by {
        assert forall|a: int, b: int|
            0 <= a < s.len() && 0 <= b < s.len() && a != b implies s[a] != s[b] by {
            if a < b {
                assert(s[a].id != s[b].id);
            } else {
                assert(s[b].id != s[a].id);
            }
        }
    }
    s.lemma_multiset_has_no_duplicates();
    assert forall|x: LazyBlock| #[trigger] s.to_multiset().count(x) <= 1 by {
        if s.to_multiset().count(x) > 1 {
            assert(s.to_multiset().contains(x));
        }
    }
}

/// The blocks a run has discarded: inserted, but neither held by the
/// assembler nor emitted.  A block lands here in exactly two ways: it was a
/// pruned sibling of a winning branch, or it was an orphan replaced by a
/// later arrival waiting on the same missing parent.
pub open spec fn lost_blocks(r: BlockReader) -> Multiset<LazyBlock> {
    r.inserted_log().to_multiset().sub(
        model_blocks(r.chain_model()).add(emitted_blocks(r.emitted_log()).to_multiset()),
    )
}

/// Prune exclusivity, run-level: a discarded block — in particular any
/// block of a sibling subtree pruned by a pop (`lemma_model_pop_ms_eq`
/// names those blocks) — is not among the emitted blocks, provided the
/// inserted blocks carry pairwise distinct identifiers.  Together with
/// `lemma_prune_exclusivity`, of two sibling subtrees below head at most
/// one contributes emitted blocks.
pub proof fn lemma_lost_never_emitted(r: BlockReader, x: LazyBlock)
    requires
        r.wf(),
        distinct_ids(r.inserted_log()),
        lost_blocks(r).count(x) > 0,
    ensures
        !emitted_blocks(r.emitted_log()).contains(x),
{
    broadcast use vstd::seq_lib::group_to_multiset_ensures;

    let em = emitted_blocks(r.emitted_log());
    let ins = r.inserted_log();
    if em.contains(x) {
        assert(em.to_multiset().count(x) > 0);
        assert(model_blocks(r.chain_model()).add(em.to_multiset()).count(x) <= ins.to_multiset().count(
            x,
        ));
        assert(ins.to_multiset().count(x) >= 2);
        lemma_distinct_ids_counts(ins);
        assert(false);
    }
}

} // verus!
