//! A paged key/value cache: a block-based allocator.
//!
//! Memory is split into fixed-size blocks. Each sequence holds a *block table*,
//! an ordered list of the physical blocks that store its tokens. Blocks are
//! taken lazily as the sequence grows and any free block fits any sequence, so
//! the only waste is the partially filled final block of each sequence.
//!
//! The allocator is modelled by [`CacheView`]: a stack of free blocks and a map
//! from sequences to tables. Its invariant, [`CacheView::wf`], says that every
//! block is in exactly one place and that no table holds a block it does not
//! need.
use std::collections::HashMap;
use vstd::prelude::*;

use crate::arith::{append_decimal, div_ceil, Ratio};
#[allow(unused_imports)]
use crate::{arith, cache_laws};

verus! {

broadcast use vstd::std_specs::hash::group_hash_axioms;

/// Identifies a sequence to the cache. The scheduler owns these.
pub type SeqId = u64;

/// A physical block index into the cache.
pub type BlockId = usize;

/// Returned when the cache cannot satisfy an allocation.
#[derive(Debug, Clone, PartialEq, Eq)]
pub enum CacheError {
    /// Too few free blocks remain for the blocks that were needed.
    OutOfBlocks { needed: usize, free: usize },
    /// The sequence id was not known to the cache.
    UnknownSequence(SeqId),
}

/// The block table for one sequence: which physical blocks hold its tokens, and
/// how many tokens are stored in total.
#[derive(Debug, Clone)]
pub struct BlockTable {
    pub blocks: Vec<BlockId>,
    pub num_tokens: usize,
}

/// A block table as mathematics.
#[verifier::ext_equal]
pub struct TableView {
    pub blocks: Seq<BlockId>,
    pub tokens: nat,
}

impl TableView {
    pub open spec fn empty() -> TableView {
        TableView { blocks: Seq::empty(), tokens: 0 }
    }

    /// Token slots reserved by the table.
    pub open spec fn capacity(self, block_size: nat) -> nat {
        self.blocks.len() * block_size
    }

    /// Token slots reserved but not filled.
    pub open spec fn slack(self, block_size: nat) -> nat {
        (self.capacity(block_size) - self.tokens) as nat
    }
}

impl View for BlockTable {
    type V = TableView;

    open spec fn view(&self) -> TableView {
        TableView { blocks: self.blocks@, tokens: self.num_tokens as nat }
    }
}

impl Default for BlockTable {
    fn default() -> (r: BlockTable)
        ensures
            r@ == TableView::empty(),
    {
        BlockTable { blocks: Vec::new(), num_tokens: 0 }
    }
}

impl BlockTable {
    /// The number of token slots currently reserved: block count times block
    /// size.
    pub fn capacity(&self, block_size: usize) -> (r: usize)
        requires
            self@.capacity(block_size as nat) <= usize::MAX,
        ensures
            r == self@.capacity(block_size as nat),
    {
        self.blocks.len() * block_size
    }

    /// Slots reserved but not yet filled in the final block.
    pub fn slack(&self, block_size: usize) -> (r: usize)
        requires
            self@.tokens <= self@.capacity(block_size as nat) <= usize::MAX,
        ensures
            r == self@.slack(block_size as nat),
    {
        self.capacity(block_size) - self.num_tokens
    }
}

/// The sum of `f` over the tables of a cache.
pub open spec fn sum_tables(tables: Map<SeqId, TableView>, f: spec_fn(TableView) -> nat) -> nat
    decreases tables.dom().len(),
{
    if tables.dom().finite() && tables.dom().len() > 0 {
        let s = tables.dom().choose();
        f(tables[s]) + sum_tables(tables.remove(s), f)
    } else {
        0
    }
}

/// Any table can be taken out of the sum first.
pub proof fn lemma_sum_remove(
    tables: Map<SeqId, TableView>,
    f: spec_fn(TableView) -> nat,
    seq: SeqId,
)
    requires
        tables.dom().finite(),
        tables.contains_key(seq),
    ensures
        sum_tables(tables, f) == f(tables[seq]) + sum_tables(tables.remove(seq), f),
    decreases tables.dom().len(),
{
    let c = tables.dom().choose();
    assert(tables.dom().len() > 0) by {
        if tables.dom().len() == 0 {
            assert(tables.dom() =~= Set::empty());
        }
    }
    assert(tables.contains_key(c));
    if c != seq {
        let without_c = tables.remove(c);
        let without_seq = tables.remove(seq);
        assert(without_c.contains_key(seq));
        assert(without_seq.contains_key(c));
        lemma_sum_remove(without_c, f, seq);
        lemma_sum_remove(without_seq, f, c);
        assert(without_c.remove(seq) =~= without_seq.remove(c));
    }
}

/// Adding or replacing a table changes the sum by that table alone.
pub proof fn lemma_sum_insert(
    tables: Map<SeqId, TableView>,
    f: spec_fn(TableView) -> nat,
    seq: SeqId,
    table: TableView,
)
    requires
        tables.dom().finite(),
    ensures
        sum_tables(tables.insert(seq, table), f) == f(table) + sum_tables(tables.remove(seq), f),
{
    let after = tables.insert(seq, table);
    lemma_sum_remove(after, f, seq);
    assert(after.remove(seq) =~= tables.remove(seq));
}

/// The empty map sums to zero.
pub proof fn lemma_sum_empty(f: spec_fn(TableView) -> nat)
    ensures
        sum_tables(Map::<SeqId, TableView>::empty(), f) == 0,
{
    assert(Map::<SeqId, TableView>::empty().dom() =~= Set::empty());
}

/// The sum over a larger function is larger.
pub proof fn lemma_sum_bound(
    tables: Map<SeqId, TableView>,
    f: spec_fn(TableView) -> nat,
    g: spec_fn(TableView) -> nat,
)
    requires
        tables.dom().finite(),
        forall|s: SeqId| #[trigger] tables.contains_key(s) ==> f(tables[s]) <= g(tables[s]),
    ensures
        sum_tables(tables, f) <= sum_tables(tables, g),
    decreases tables.dom().len(),
{
    if tables.dom().len() > 0 {
        let c = tables.dom().choose();
        assert(tables.contains_key(c));
        let rest = tables.remove(c);
        assert forall|s: SeqId| #[trigger] rest.contains_key(s) implies f(rest[s]) <= g(rest[s]) by {
            assert(tables.contains_key(s));
        }
        lemma_sum_bound(rest, f, g);
    }
}

/// The sum of a constant counts the tables.
pub proof fn lemma_sum_constant(
    tables: Map<SeqId, TableView>,
    f: spec_fn(TableView) -> nat,
    c: nat,
)
    requires
        tables.dom().finite(),
        forall|t: TableView| #[trigger] f(t) == c,
    ensures
        sum_tables(tables, f) == tables.dom().len() * c,
    decreases tables.dom().len(),
{
    if tables.dom().len() > 0 {
        let k = tables.dom().choose();
        assert(tables.contains_key(k));
        let rest = tables.remove(k);
        assert(rest.dom() =~= tables.dom().remove(k));
        lemma_sum_constant(rest, f, c);
        let n = tables.dom().len();
        assert(n * c == (n - 1) * c + c) by (nonlinear_arith);
    } else {
        assert(0 * c == 0) by (nonlinear_arith);
    }
}

/// The number of blocks a table holds.
pub open spec fn block_count() -> spec_fn(TableView) -> nat {
    |t: TableView| t.blocks.len()
}

/// The number of unused slots a table reserves.
pub open spec fn slack_count(block_size: nat) -> spec_fn(TableView) -> nat {
    |t: TableView| t.slack(block_size)
}

/// The number of slots a table reserves.
pub open spec fn slot_count(block_size: nat) -> spec_fn(TableView) -> nat {
    |t: TableView| t.capacity(block_size)
}

/// The allocator as mathematics.
#[verifier::ext_equal]
pub struct CacheView {
    pub block_size: nat,
    pub num_blocks: nat,
    /// The free blocks, a stack whose top is the last element.
    pub free: Seq<BlockId>,
    pub tables: Map<SeqId, TableView>,
    /// The largest number of blocks ever in use at once.
    pub peak: nat,
}

impl CacheView {
    /// A cache that nothing uses.
    pub open spec fn fresh(num_blocks: nat, block_size: nat) -> CacheView {
        CacheView {
            block_size,
            num_blocks,
            free: Seq::new(num_blocks, |i: int| i as BlockId),
            tables: Map::empty(),
            peak: 0,
        }
    }

    pub open spec fn contains(self, seq: SeqId) -> bool {
        self.tables.contains_key(seq)
    }

    /// Whether `seq` holds block `b`.
    pub open spec fn holds(self, seq: SeqId, b: BlockId) -> bool {
        self.contains(seq) && self.tables[seq].blocks.contains(b)
    }

    /// Blocks that some sequence holds.
    pub open spec fn used(self) -> nat {
        (self.num_blocks - self.free.len()) as nat
    }

    /// Tokens stored for a sequence, none for an unknown one.
    pub open spec fn tokens(self, seq: SeqId) -> nat {
        if self.contains(seq) {
            self.tables[seq].tokens
        } else {
            0
        }
    }

    /// Unfilled slots that a sequence has reserved.
    pub open spec fn slack(self, seq: SeqId) -> nat {
        if self.contains(seq) {
            self.tables[seq].slack(self.block_size)
        } else {
            0
        }
    }

    /// The additional blocks a sequence needs to store `extra` more tokens.
    pub open spec fn needed(self, seq: SeqId, extra: nat) -> nat {
        if extra <= self.slack(seq) {
            0
        } else {
            arith::ceil_div((extra - self.slack(seq)) as nat, self.block_size)
        }
    }

    /// Whether `extra` more tokens of a known sequence can be placed.
    pub open spec fn fits(self, seq: SeqId, extra: nat) -> bool {
        self.contains(seq) && self.needed(seq, extra) <= self.free.len()
    }

    /// Registering a sequence gives it an empty table, unless it has one.
    pub open spec fn register(self, seq: SeqId) -> CacheView {
        if self.contains(seq) {
            self
        } else {
            CacheView { tables: self.tables.insert(seq, TableView::empty()), ..self }
        }
    }

    /// The top `n` blocks of the free stack, in the order they are popped.
    pub open spec fn top(self, n: nat) -> Seq<BlockId> {
        self.free.skip(self.free.len() - n).reverse()
    }

    /// Storing `extra` more tokens moves the blocks needed from the top of the
    /// free stack to the end of the table.
    pub open spec fn append(self, seq: SeqId, extra: nat) -> CacheView {
        let n = self.needed(seq, extra);
        let free = self.free.take(self.free.len() - n);
        let used = (self.num_blocks - free.len()) as nat;
        CacheView {
            free,
            tables: self.tables.insert(
                seq,
                TableView {
                    blocks: self.tables[seq].blocks + self.top(n),
                    tokens: self.tables[seq].tokens + extra,
                },
            ),
            peak: if used > self.peak {
                used
            } else {
                self.peak
            },
            ..self
        }
    }

    /// Storing tokens where they fit, and changing nothing where they do not.
    pub open spec fn try_append(self, seq: SeqId, extra: nat) -> CacheView {
        if self.fits(seq, extra) {
            self.append(seq, extra)
        } else {
            self
        }
    }

    /// Forgetting a sequence pushes its blocks on the free stack.
    pub open spec fn release(self, seq: SeqId) -> CacheView {
        if self.contains(seq) {
            CacheView {
                free: self.free + self.tables[seq].blocks,
                tables: self.tables.remove(seq),
                ..self
            }
        } else {
            self
        }
    }

    /// The unfilled slots of all tables together.
    pub open spec fn fragmentation(self) -> nat {
        sum_tables(self.tables, slack_count(self.block_size))
    }

    /// A block is either free or held by one sequence, and is listed once.
    pub open spec fn partitioned(self) -> bool {
        &&& self.free.no_duplicates()
        &&& forall|b: BlockId| #[trigger] self.free.contains(b) ==> b < self.num_blocks
        &&& forall|s: SeqId| #[trigger]
            self.contains(s) ==> self.tables[s].blocks.no_duplicates()
        &&& forall|s: SeqId, b: BlockId| #[trigger]
            self.holds(s, b) ==> b < self.num_blocks && !self.free.contains(b)
        &&& forall|s1: SeqId, s2: SeqId, b: BlockId| #[trigger]
            self.holds(s1, b) && #[trigger] self.holds(s2, b) ==> s1 == s2
        &&& forall|b: BlockId|
            b < self.num_blocks ==> #[trigger] self.free.contains(b) || exists|s: SeqId|
                self.holds(s, b)
    }

    /// Every table holds as many blocks as its tokens need, and no more.
    pub open spec fn tight(self) -> bool {
        forall|s: SeqId| #[trigger]
            self.contains(s) ==> self.tables[s].blocks.len() == arith::ceil_div(
                self.tables[s].tokens,
                self.block_size,
            )
    }

    /// The invariant of the allocator.
    pub open spec fn wf(self) -> bool {
        &&& 0 < self.block_size
        &&& self.num_blocks * self.block_size <= usize::MAX
        &&& self.tables.dom().finite()
        &&& self.free.len() + sum_tables(self.tables, block_count()) == self.num_blocks
        &&& self.used() <= self.peak <= self.num_blocks
        &&& self.tight()
        &&& self.partitioned()
    }
}

/// What the tightness of a table says about its slots: they suffice, fewer than
/// a block of them is unused, and a table is never larger than the cache.
pub proof fn lemma_table_bounds(c: CacheView, seq: SeqId)
    requires
        c.wf(),
        c.contains(seq),
    ensures
        c.tables[seq].tokens <= c.tables[seq].capacity(c.block_size) <= usize::MAX,
        c.slack(seq) < c.block_size,
        c.free.len() + c.tables[seq].blocks.len() <= c.num_blocks,
{
    let t = c.tables[seq];
    arith::lemma_ceil_div(t.tokens, c.block_size);
    lemma_sum_remove(c.tables, block_count(), seq);
    assert(t.blocks.len() * c.block_size <= c.num_blocks * c.block_size) by (nonlinear_arith)
        requires
            t.blocks.len() <= c.num_blocks,
    ;
}

/// Growing a tight table by the blocks needed leaves it tight.
pub proof fn lemma_needed_keeps_tight(c: CacheView, seq: SeqId, extra: nat)
    requires
        c.wf(),
        c.contains(seq),
    ensures
        c.tables[seq].blocks.len() + c.needed(seq, extra) == arith::ceil_div(
            c.tables[seq].tokens + extra,
            c.block_size,
        ),
{
    let t = c.tables[seq];
    let bs = c.block_size;
    let k = t.blocks.len();
    let n = c.needed(seq, extra);
    arith::lemma_ceil_div(t.tokens, bs);
    if extra > c.slack(seq) {
        arith::lemma_ceil_div((extra - c.slack(seq)) as nat, bs);
    }
    assert((k + n) * bs == k * bs + n * bs) by (nonlinear_arith);
    assert(n == 0 ==> n * bs == 0);
    arith::lemma_ceil_div_unique(t.tokens + extra, bs, k + n);
}

pub proof fn lemma_register_wf(c: CacheView, seq: SeqId)
    requires
        c.wf(),
    ensures
        c.register(seq).wf(),
{
    if !c.contains(seq) {
        let d = c.register(seq);
        lemma_sum_insert(c.tables, block_count(), seq, TableView::empty());
        assert(c.tables.remove(seq) =~= c.tables);
        arith::lemma_ceil_div(0, c.block_size);
        arith::lemma_ceil_div_unique(0, c.block_size, 0);
        assert forall|s: SeqId| #[trigger] d.contains(s) implies d.tables[s].blocks.len()
            == arith::ceil_div(d.tables[s].tokens, d.block_size)
            && d.tables[s].blocks.no_duplicates() by {
            if s != seq {
                assert(c.contains(s));
            }
        }
        assert forall|s: SeqId, b: BlockId| #[trigger] d.holds(s, b) implies c.holds(s, b) by {}
        assert forall|b: BlockId|
            b < d.num_blocks implies #[trigger] d.free.contains(b) || exists|s: SeqId|
            d.holds(s, b) by {
            if !c.free.contains(b) {
                let s = choose|s: SeqId| c.holds(s, b);
                assert(d.holds(s, b));
            }
        }
    }
}

pub proof fn lemma_release_wf(c: CacheView, seq: SeqId)
    requires
        c.wf(),
    ensures
        c.release(seq).wf(),
{
    if c.contains(seq) {
        let d = c.release(seq);
        let blocks = c.tables[seq].blocks;
        lemma_sum_remove(c.tables, block_count(), seq);
        lemma_table_bounds(c, seq);
        assert forall|s: SeqId| #[trigger] d.contains(s) implies d.tables[s].blocks.len()
            == arith::ceil_div(d.tables[s].tokens, d.block_size)
            && d.tables[s].blocks.no_duplicates() by {
            assert(c.contains(s));
        }
        assert forall|b: BlockId| #[trigger] d.free.contains(b) implies c.free.contains(b)
            || c.holds(seq, b) by {
            let i = d.free.index_of(b);
            assert(d.free[i] == b);
            if i < c.free.len() {
                assert(c.free[i] == b);
            } else {
                assert(blocks[i - c.free.len()] == b);
            }
        }
        assert forall|b: BlockId| c.free.contains(b) || c.holds(seq, b) implies
            #[trigger] d.free.contains(b) by {
            if c.free.contains(b) {
                let i = c.free.index_of(b);
                assert(d.free[i] == b);
            } else {
                let i = blocks.index_of(b);
                assert(d.free[c.free.len() + i] == b);
            }
        }
        assert(d.free.no_duplicates()) by {
            assert forall|i: int, j: int|
                0 <= i < d.free.len() && 0 <= j < d.free.len() && i != j implies d.free[i]
                != d.free[j] by {
                let f = c.free.len();
                if i < f && j >= f {
                    assert(c.free.contains(d.free[i]));
                    assert(c.holds(seq, blocks[j - f]));
                }
                if j < f && i >= f {
                    assert(c.free.contains(d.free[j]));
                    assert(c.holds(seq, blocks[i - f]));
                }
            }
        }
        assert forall|s: SeqId, b: BlockId| #[trigger] d.holds(s, b) implies c.holds(s, b) && b
            < d.num_blocks && !d.free.contains(b) by {
            assert(c.holds(s, b));
            if d.free.contains(b) {
                assert(c.holds(seq, b));
            }
        }
        assert forall|b: BlockId|
            b < d.num_blocks implies #[trigger] d.free.contains(b) || exists|s: SeqId|
            d.holds(s, b) by {
            if !d.free.contains(b) {
                assert(!c.free.contains(b));
                let s = choose|s: SeqId| c.holds(s, b);
                assert(d.holds(s, b));
            }
        }
    }
}

pub proof fn lemma_append_wf(c: CacheView, seq: SeqId, extra: nat)
    requires
        c.wf(),
        c.fits(seq, extra),
    ensures
        c.append(seq, extra).wf(),
{
    let d = c.append(seq, extra);
    let n = c.needed(seq, extra);
    let top = c.top(n);
    let old_blocks = c.tables[seq].blocks;
    let new_blocks = d.tables[seq].blocks;
    let cut = c.free.len() - n;
    lemma_needed_keeps_tight(c, seq, extra);
    lemma_sum_remove(c.tables, block_count(), seq);
    lemma_sum_insert(c.tables, block_count(), seq, d.tables[seq]);
    assert(top.len() == n);
    // The blocks taken are those above the cut.
    assert forall|b: BlockId| #[trigger] top.contains(b) implies c.free.contains(b)
        && !d.free.contains(b) by {
        let i = top.index_of(b);
        let k = cut + (n - 1 - i);
        assert(c.free[k] == b);
        if d.free.contains(b) {
            let j = d.free.index_of(b);
            assert(c.free[j] == b);
        }
    }
    assert forall|b: BlockId| #[trigger] d.free.contains(b) implies c.free.contains(b) by {
        let j = d.free.index_of(b);
        assert(c.free[j] == b);
    }
    assert forall|b: BlockId| #[trigger] c.free.contains(b) implies d.free.contains(b)
        || top.contains(b) by {
        let k = c.free.index_of(b);
        if k < cut {
            assert(d.free[k] == b);
        } else {
            assert(top[n - 1 - (k - cut)] == b);
        }
    }
    assert forall|b: BlockId| #[trigger] new_blocks.contains(b) implies old_blocks.contains(b)
        || top.contains(b) by {
        let i = new_blocks.index_of(b);
        if i < old_blocks.len() {
            assert(old_blocks[i] == b);
        } else {
            assert(top[i - old_blocks.len()] == b);
        }
    }
    assert forall|b: BlockId| old_blocks.contains(b) || top.contains(b) implies
        #[trigger] new_blocks.contains(b) by {
        if old_blocks.contains(b) {
            assert(new_blocks[old_blocks.index_of(b)] == b);
        } else {
            assert(new_blocks[old_blocks.len() + top.index_of(b)] == b);
        }
    }
    assert(new_blocks.no_duplicates()) by {
        assert(c.contains(seq));
        assert forall|i: int, j: int|
            0 <= i < j < new_blocks.len() implies new_blocks[i] != new_blocks[j] by {
            let f = old_blocks.len();
            if i < f && j >= f {
                assert(c.holds(seq, old_blocks[i]));
                assert(top.contains(top[j - f]));
            } else if i >= f {
                assert(new_blocks[i] == c.free[cut + (n - 1 - (i - f))]);
                assert(new_blocks[j] == c.free[cut + (n - 1 - (j - f))]);
            }
        }
    }
    assert forall|s: SeqId| #[trigger] d.contains(s) implies d.tables[s].blocks.len()
        == arith::ceil_div(d.tables[s].tokens, d.block_size)
        && d.tables[s].blocks.no_duplicates() by {
        assert(c.contains(s));
    }
    assert forall|s: SeqId, b: BlockId| #[trigger] d.holds(s, b) implies b < d.num_blocks
        && !d.free.contains(b) && (c.holds(s, b) || (s == seq && top.contains(b))) by {
        if s != seq {
            assert(c.holds(s, b));
        } else if old_blocks.contains(b) {
            assert(c.holds(s, b));
        }
    }
    assert forall|b: BlockId|
        b < d.num_blocks implies #[trigger] d.free.contains(b) || exists|s: SeqId|
        d.holds(s, b) by {
        if !d.free.contains(b) {
            if c.free.contains(b) {
                assert(d.holds(seq, b));
            } else {
                let s = choose|s: SeqId| c.holds(s, b);
                assert(d.holds(s, b));
            }
        }
    }
}

pub proof fn lemma_fresh_wf(num_blocks: nat, block_size: nat)
    requires
        0 < block_size,
        num_blocks * block_size <= usize::MAX,
    ensures
        CacheView::fresh(num_blocks, block_size).wf(),
{
    let c = CacheView::fresh(num_blocks, block_size);
    lemma_sum_empty(block_count());
    assert(num_blocks <= num_blocks * block_size) by (nonlinear_arith)
        requires
            block_size >= 1,
    ;
    assert forall|b: BlockId| b < num_blocks implies #[trigger] c.free.contains(b) by {
        assert(c.free[b as int] == b);
    }
}

impl CacheError {
    /// The error in words.
    pub open spec fn text(self) -> Seq<char> {
        match self {
            CacheError::OutOfBlocks { needed, free } => "out of KV blocks: needed "@
                + arith::decimal_text(needed as nat) + ", "@ + arith::decimal_text(free as nat)
                + " free"@,
            CacheError::UnknownSequence(s) => "unknown sequence "@ + arith::decimal_text(s as nat),
        }
    }

    /// Describe the error.
    pub fn message(&self) -> (r: String)
        ensures
            r@ == self.text(),
    {
        match self {
            CacheError::OutOfBlocks { needed, free } => {
                let mut text = "out of KV blocks: needed ".to_owned();
                append_decimal(&mut text, *needed as u64);
                text.append(", ");
                append_decimal(&mut text, *free as u64);
                text.append(" free");
                text
            },
            CacheError::UnknownSequence(s) => {
                let mut text = "unknown sequence ".to_owned();
                append_decimal(&mut text, *s);
                text
            },
        }
    }
}

/// The sum of `f` over a list of tables.
pub open spec fn sum_list(list: Seq<TableView>, f: spec_fn(TableView) -> nat) -> nat
    decreases list.len(),
{
    if list.len() == 0 {
        0
    } else {
        sum_list(list.drop_last(), f) + f(list.last())
    }
}

proof fn lemma_sum_list_prefix(list: Seq<TableView>, f: spec_fn(TableView) -> nat, n: int)
    requires
        0 <= n <= list.len(),
    ensures
        sum_list(list.take(n), f) <= sum_list(list, f),
    decreases list.len(),
{
    if n < list.len() {
        lemma_sum_list_prefix(list.drop_last(), f, n);
        assert(list.drop_last().take(n) =~= list.take(n));
    } else {
        assert(list.take(n) =~= list);
    }
}

/// Walking a map visits every table once, so the walk adds up the map's sum.
proof fn lemma_sum_walk(
    tables: Map<SeqId, TableView>,
    keys: Seq<SeqId>,
    f: spec_fn(TableView) -> nat,
)
    requires
        tables.dom().finite(),
        keys.no_duplicates(),
        forall|s: SeqId| #[trigger] tables.contains_key(s) <==> keys.contains(s),
    ensures
        sum_list(keys.map_values(|s: SeqId| tables[s]), f) == sum_tables(tables, f),
    decreases keys.len(),
{
    let list = keys.map_values(|s: SeqId| tables[s]);
    if keys.len() == 0 {
        assert forall|s: SeqId| !tables.dom().contains(s) by {
            assert(!keys.contains(s));
            assert(!tables.contains_key(s));
        }
        assert(tables.dom() =~= Set::empty());
    } else {
        let last = keys.last();
        let rest = tables.remove(last);
        let front = keys.drop_last();
        assert(keys.contains(last));
        assert forall|s: SeqId| #[trigger] rest.contains_key(s) <==> front.contains(s) by {
            if rest.contains_key(s) {
                assert(tables.contains_key(s));
                let i = keys.index_of(s);
                assert(front[i] == s);
            }
            if front.contains(s) {
                let i = front.index_of(s);
                assert(keys[i] == s);
                assert(tables.contains_key(s));
            }
        }
        lemma_sum_walk(rest, front, f);
        assert(list.drop_last() =~= front.map_values(|s: SeqId| rest[s])) by {
            assert forall|i: int| 0 <= i < front.len() implies tables[keys[i]] == rest[front[i]] by {
                assert(keys[i] != last);
            }
        }
        lemma_sum_remove(tables, f, last);
    }
}

/// All unfilled slots together are fewer than the slots of the cache.
proof fn lemma_fragmentation_bound(c: CacheView)
    requires
        c.wf(),
    ensures
        c.fragmentation() <= c.num_blocks * c.block_size,
{
    let bs = c.block_size;
    assert forall|s: SeqId| #[trigger] c.tables.contains_key(s) implies slack_count(bs)(c.tables[s])
        <= slot_count(bs)(c.tables[s]) by {
        assert(c.contains(s));
        lemma_table_bounds(c, s);
    }
    lemma_sum_bound(c.tables, slack_count(bs), slot_count(bs));
    lemma_slots(c.tables, bs);
    let held = sum_tables(c.tables, block_count());
    assert(held * bs <= c.num_blocks * bs) by (nonlinear_arith)
        requires
            held <= c.num_blocks,
    ;
}

/// The slots reserved are the blocks held times the block size.
proof fn lemma_slots(tables: Map<SeqId, TableView>, block_size: nat)
    requires
        tables.dom().finite(),
    ensures
        sum_tables(tables, slot_count(block_size)) == sum_tables(tables, block_count())
            * block_size,
    decreases tables.dom().len(),
{
    if tables.dom().len() > 0 {
        let k = tables.dom().choose();
        assert(tables.contains_key(k));
        lemma_slots(tables.remove(k), block_size);
        let a = tables[k].blocks.len();
        let b = sum_tables(tables.remove(k), block_count());
        assert((a + b) * block_size == a * block_size + b * block_size) by (nonlinear_arith);
    } else {
        assert(0 * block_size == 0) by (nonlinear_arith);
    }
}

/// The block-based KV-cache allocator.
pub struct PagedKVCache {
    block_size: usize,
    num_blocks: usize,
    /// A stack: the most recently freed blocks are reused first.
    free_list: Vec<BlockId>,
    tables: HashMap<SeqId, BlockTable>,
    peak_blocks: usize,
}

impl View for PagedKVCache {
    type V = CacheView;

    closed spec fn view(&self) -> CacheView {
        CacheView {
            block_size: self.block_size as nat,
            num_blocks: self.num_blocks as nat,
            free: self.free_list@,
            tables: self.tables@.map_values(|t: BlockTable| t@),
            peak: self.peak_blocks as nat,
        }
    }
}

impl PagedKVCache {
    /// The invariant that every constructor establishes and every method keeps.
    pub open spec fn wf(&self) -> bool {
        self@.wf()
    }

    /// Create a cache with `num_blocks` blocks of `block_size` token slots each.
    /// The slots of the whole cache must be countable by a `usize`.
    pub fn new(num_blocks: usize, block_size: usize) -> (r: Self)
        requires
            block_size > 0,
            num_blocks * block_size <= usize::MAX,
        ensures
            r.wf(),
            r@ == CacheView::fresh(num_blocks as nat, block_size as nat),
    {
        let mut free_list: Vec<BlockId> = Vec::new();
        let mut i: usize = 0;
        while i < num_blocks
            invariant
                i <= num_blocks,
                free_list@ =~= Seq::new(i as nat, |j: int| j as BlockId),
            decreases num_blocks - i,
        {
            free_list.push(i);
            i = i + 1;
        }
        let r = PagedKVCache {
            block_size,
            num_blocks,
            free_list,
            tables: HashMap::new(),
            peak_blocks: 0,
        };
        proof {
            lemma_fresh_wf(num_blocks as nat, block_size as nat);
            assert(r@ =~= CacheView::fresh(num_blocks as nat, block_size as nat));
        }
        r
    }

    pub fn block_size(&self) -> (r: usize)
        ensures
            r == self@.block_size,
    {
        self.block_size
    }

    pub fn total_blocks(&self) -> (r: usize)
        ensures
            r == self@.num_blocks,
    {
        self.num_blocks
    }

    pub fn free_blocks(&self) -> (r: usize)
        ensures
            r == self@.free.len(),
    {
        self.free_list.len()
    }

    pub fn used_blocks(&self) -> (r: usize)
        requires
            self.wf(),
        ensures
            r == self@.used(),
            r + self@.free.len() == self@.num_blocks,
    {
        self.num_blocks - self.free_list.len()
    }

    /// The high-water mark of simultaneously used blocks across the cache's
    /// lifetime.
    pub fn peak_blocks(&self) -> (r: usize)
        ensures
            r == self@.peak,
    {
        self.peak_blocks
    }

    /// The fraction of blocks that some sequence holds, zero for a cache
    /// without blocks.
    pub fn utilisation(&self) -> (r: Ratio)
        requires
            self.wf(),
        ensures
            r == Ratio::spec_of(self@.used() as u128, self@.num_blocks as u128),
            r.in_unit_interval(),
    {
        Ratio::of(self.used_blocks() as u128, self.num_blocks as u128)
    }

    /// Register a sequence with an empty block table. A sequence that is known
    /// already keeps its table.
    pub fn register(&mut self, seq: SeqId)
        requires
            old(self).wf(),
        ensures
            final(self).wf(),
            final(self)@ == old(self)@.register(seq),
    {
        if !self.tables.contains_key(&seq) {
            self.tables.insert(seq, BlockTable::default());
        }
        proof {
            lemma_register_wf(old(self)@, seq);
            assert(self@ =~= old(self)@.register(seq));
        }
    }

    /// Whether the sequence is known to the cache.
    pub fn contains(&self, seq: SeqId) -> (r: bool)
        ensures
            r == self@.contains(seq),
    {
        self.tables.contains_key(&seq)
    }

    /// The number of additional blocks a sequence would need to hold
    /// `extra_tokens` more tokens beyond what it currently stores.
    pub fn blocks_needed_for(&self, seq: SeqId, extra_tokens: usize) -> (r: usize)
        requires
            self.wf(),
        ensures
            r == self@.needed(seq, extra_tokens as nat),
    {
        let slack: usize = match self.tables.get(&seq) {
            Some(table) => {
                proof {
                    lemma_table_bounds(self@, seq);
                }
                table.slack(self.block_size)
            },
            None => 0,
        };
        if extra_tokens <= slack {
            0
        } else {
            div_ceil(extra_tokens - slack, self.block_size)
        }
    }

    /// Append `count` tokens to a sequence, taking blocks as needed. A sequence
    /// that cannot grow is left untouched.
    pub fn append(&mut self, seq: SeqId, count: usize) -> (r: Result<(), CacheError>)
        requires
            old(self).wf(),
        ensures
            final(self).wf(),
            final(self)@ == old(self)@.try_append(seq, count as nat),
            r is Ok <==> old(self)@.fits(seq, count as nat),
            r matches Err(CacheError::UnknownSequence(s)) ==> s == seq,
            r matches Err(CacheError::UnknownSequence(_)) <==> !old(self)@.contains(seq),
            r matches Err(CacheError::OutOfBlocks { needed, free }) ==> needed == old(self)@.needed(
                seq,
                count as nat,
            ) && free == old(self)@.free.len(),
            r matches Err(CacheError::OutOfBlocks { .. }) <==> old(self)@.contains(seq) && old(
                self,
            )@.needed(seq, count as nat) > old(self)@.free.len(),
    {
        if !self.tables.contains_key(&seq) {
            return Err(CacheError::UnknownSequence(seq));
        }
        let needed: usize = self.blocks_needed_for(seq, count);
        if needed > self.free_list.len() {
            return Err(CacheError::OutOfBlocks { needed, free: self.free_list.len() });
        }
        let ghost before = self@;
        proof {
            lemma_append_wf(before, seq, count as nat);
            lemma_table_bounds(before.append(seq, count as nat), seq);
        }
        let mut table = match self.tables.remove(&seq) {
            Some(t) => t,
            None => BlockTable::default(),
        };
        let ghost blocks = table.blocks@;
        let ghost others = self.tables@;
        let mut taken: usize = 0;
        while taken < needed
            invariant
                taken <= needed,
                needed <= before.free.len(),
                self.free_list@ =~= before.free.take(before.free.len() - taken),
                table.blocks@ =~= blocks + before.top(taken as nat),
                table.num_tokens == before.tables[seq].tokens,
                self.tables@ == others,
                self.block_size == before.block_size,
                self.num_blocks == before.num_blocks,
                self.peak_blocks == before.peak,
            decreases needed - taken,
        {
            match self.free_list.pop() {
                Some(block) => {
                    proof {
                        assert(before.top((taken + 1) as nat) =~= before.top(taken as nat).push(
                            block,
                        ));
                    }
                    table.blocks.push(block);
                },
                None => {},
            }
            taken = taken + 1;
        }
        table.num_tokens = table.num_tokens + count;
        self.tables.insert(seq, table);
        let used: usize = self.num_blocks - self.free_list.len();
        if used > self.peak_blocks {
            self.peak_blocks = used;
        }
        proof {
            assert(self@.tables =~= before.append(seq, count as nat).tables);
            assert(self@ =~= before.append(seq, count as nat));
        }
        Ok(())
    }

    /// Return a sequence's blocks to the free list and forget it. Freeing an
    /// unknown sequence does nothing.
    pub fn free(&mut self, seq: SeqId)
        requires
            old(self).wf(),
        ensures
            final(self).wf(),
            final(self)@ == old(self)@.release(seq),
    {
        let ghost before = self@;
        match self.tables.remove(&seq) {
            Some(table) => {
                let mut blocks = table.blocks;
                self.free_list.append(&mut blocks);
            },
            None => {},
        }
        proof {
            lemma_release_wf(before, seq);
            assert(self@.tables =~= before.release(seq).tables);
            assert(self@ =~= before.release(seq));
        }
    }

    /// The block table for a sequence, if it exists.
    pub fn block_table(&self, seq: SeqId) -> (r: Option<&BlockTable>)
        ensures
            match r {
                Some(t) => self@.contains(seq) && t@ == self@.tables[seq],
                None => !self@.contains(seq),
            },
    {
        self.tables.get(&seq)
    }

    /// How many tokens are stored for a sequence.
    pub fn seq_len(&self, seq: SeqId) -> (r: usize)
        ensures
            r == self@.tokens(seq),
    {
        match self.tables.get(&seq) {
            Some(t) => t.num_tokens,
            None => 0,
        }
    }

    /// Internal fragmentation across all live sequences: token slots reserved
    /// in final blocks that hold no token yet. With the tokens stored, these are
    /// the slots of the blocks in use.
    pub fn internal_fragmentation(&self) -> (r: usize)
        requires
            self.wf(),
        ensures
            r == self@.fragmentation(),
            r + sum_tables(self@.tables, |t: TableView| t.tokens) == (self@.num_blocks
                - self@.free.len()) * self@.block_size,
    {
        let ghost f = slack_count(self@.block_size);
        let ghost tables = self@.tables;
        proof {
            lemma_fragmentation_bound(self@);
        }
        let mut total: usize = 0;
        let entries = self.tables.iter();
        let ghost pairs = vstd::std_specs::iter::IteratorSpec::remaining(&entries);
        let ghost keys = pairs.map_values(|p: (&SeqId, &BlockTable)| *p.0);
        let ghost list = keys.map_values(|s: SeqId| tables[s]);
        proof {
            assert forall|i: int, j: int|
                0 <= i < keys.len() && 0 <= j < keys.len() && i != j implies keys[i]
                != keys[j] by {
                assert(self.tables@.contains_key(*pairs[i].0));
                assert(self.tables@.contains_key(*pairs[j].0));
                assert(pairs[i] != pairs[j]);
            }
            assert forall|s: SeqId| #[trigger] tables.contains_key(s) <==> keys.contains(s) by {
                if tables.contains_key(s) {
                    assert(self.tables@.contains_key(s));
                    let i = pairs.index_of((&s, &self.tables@[s]));
                    assert(keys[i] == s);
                }
                if keys.contains(s) {
                    let i = keys.index_of(s);
                    assert(self.tables@.contains_key(*pairs[i].0));
                }
            }
            lemma_sum_walk(tables, keys, f);
            assert(list.take(0) =~= Seq::empty());
        }
        for pair in walk: entries
            invariant
                self.wf(),
                tables == self@.tables,
                f == slack_count(self@.block_size),
                walk.seq() == pairs,
                pairs == vstd::std_specs::iter::IteratorSpec::remaining(
                    &vstd::std_specs::hash::spec_hash_map_iter(&self.tables),
                ),
                list == pairs.map_values(|p: (&SeqId, &BlockTable)| *p.0).map_values(
                    |s: SeqId| tables[s],
                ),
                total == sum_list(list.take(walk.index()), f),
                sum_list(list, f) == self@.fragmentation(),
                self@.fragmentation() <= usize::MAX,
        {
            let (seq, table) = pair;
            proof {
                let i = walk.index();
                assert(self.tables@.contains_key(*pairs[i].0));
                assert(self@.contains(*seq));
                lemma_table_bounds(self@, *seq);
                assert(list.take(i + 1).drop_last() =~= list.take(i));
                assert(list.take(i + 1).last() == table@);
                lemma_sum_list_prefix(list, f, i + 1);
            }
            total = total + table.slack(self.block_size);
        }
        assert(list.take(list.len() as int) =~= list);
        proof {
            cache_laws::law_slots_are_conserved(self@);
        }
        total
    }

    /// Evict the sequence holding the most blocks, returning its id. Where
    /// several hold the most, any of them may go.
    pub fn evict_largest(&mut self) -> (r: Option<SeqId>)
        requires
            old(self).wf(),
        ensures
            final(self).wf(),
            match r {
                Some(victim) => {
                    &&& old(self)@.contains(victim)
                    &&& forall|s: SeqId| #[trigger]
                        old(self)@.contains(s) ==> old(self)@.tables[s].blocks.len() <= old(
                            self,
                        )@.tables[victim].blocks.len()
                    &&& final(self)@ == old(self)@.release(victim)
                },
                None => final(self)@ == old(self)@ && forall|s: SeqId| !old(self)@.contains(s),
            },
    {
        let mut best: Option<SeqId> = None;
        let mut best_blocks: usize = 0;
        for pair in walk: self.tables.iter()
            invariant
                self.wf(),
                *self == *old(self),
                match best {
                    Some(victim) => self@.contains(victim) && best_blocks
                        == self@.tables[victim].blocks.len(),
                    None => walk.index() == 0,
                },
                forall|i: int|
                    0 <= i < walk.index() ==> (#[trigger] walk.seq()[i]).1@.blocks.len()
                        <= best_blocks,
        {
            let (seq, table) = pair;
            assert(self.tables@.contains_key(*seq));
            let count: usize = table.blocks.len();
            if best.is_none() || count >= best_blocks {
                best = Some(*seq);
                best_blocks = count;
            }
        }
        proof {
            assert forall|s: SeqId| #[trigger] self@.contains(s) implies best is Some
                && self@.tables[s].blocks.len() <= best_blocks by {
                assert(self.tables@.contains_key(s));
            }
        }
        match best {
            Some(victim) => {
                self.free(victim);
                Some(victim)
            },
            None => None,
        }
    }
}

} // verus!
