//! What holds of the paged cache as a whole.
use vstd::prelude::*;

#[allow(unused_imports)]
use crate::arith;
use crate::paged_cache::{BlockId, CacheError, CacheView, SeqId, TableView};
#[allow(unused_imports)]
use crate::paged_cache;

verus! {

/// Every block is in exactly one place: on the free list and in no table, or in
/// the table of one sequence and not on the free list.
pub proof fn law_every_block_in_one_place(c: CacheView, b: BlockId)
    requires
        c.wf(),
        b < c.num_blocks,
    ensures
        c.free.contains(b) ==> forall|s: SeqId| !c.holds(s, b),
        !c.free.contains(b) ==> exists|s: SeqId|
            c.holds(s, b) && forall|o: SeqId| #[trigger] c.holds(o, b) ==> o == s,
{
    if c.free.contains(b) {
        assert forall|s: SeqId| !c.holds(s, b) by {}
    } else {
        let s = choose|s: SeqId| c.holds(s, b);
        assert(c.holds(s, b));
        assert forall|o: SeqId| #[trigger] c.holds(o, b) implies o == s by {}
    }
}

/// No block is ever lost: the free blocks and the blocks in tables add up to
/// the size of the cache.
pub proof fn law_blocks_are_conserved(c: CacheView)
    requires
        c.wf(),
    ensures
        c.free.len() + paged_cache::sum_tables(c.tables, paged_cache::block_count())
            == c.num_blocks,
        c.used() == paged_cache::sum_tables(c.tables, paged_cache::block_count()),
{
}

/// Paging wastes fewer slots per sequence than a block has.
pub proof fn law_slack_is_bounded(c: CacheView, seq: SeqId)
    requires
        c.wf(),
        c.contains(seq),
    ensures
        c.slack(seq) < c.block_size,
        c.tables[seq].tokens + c.slack(seq) == c.tables[seq].capacity(c.block_size),
{
    paged_cache::lemma_table_bounds(c, seq);
}

/// Internal fragmentation is bounded by the block size: all sequences together
/// waste at most `block_size - 1` slots each.
pub proof fn law_fragmentation_is_bounded(c: CacheView)
    requires
        c.wf(),
    ensures
        c.fragmentation() <= c.tables.dom().len() * (c.block_size - 1),
{
    let waste = (c.block_size - 1) as nat;
    let most = |t: TableView| waste;
    assert forall|s: SeqId| #[trigger] c.tables.contains_key(s) implies paged_cache::slack_count(
        c.block_size,
    )(c.tables[s]) <= most(c.tables[s]) by {
        assert(c.contains(s));
        paged_cache::lemma_table_bounds(c, s);
    }
    paged_cache::lemma_sum_bound(c.tables, paged_cache::slack_count(c.block_size), most);
    paged_cache::lemma_sum_constant(c.tables, most, waste);
}

proof fn lemma_slots_add_up(tables: Map<SeqId, TableView>, block_size: nat)
    requires
        tables.dom().finite(),
        forall|s: SeqId| #[trigger]
            tables.contains_key(s) ==> tables[s].tokens <= tables[s].blocks.len() * block_size,
    ensures
        paged_cache::sum_tables(tables, paged_cache::slack_count(block_size))
            + paged_cache::sum_tables(tables, |t: TableView| t.tokens) == paged_cache::sum_tables(
            tables,
            |t: TableView| t.blocks.len(),
        ) * block_size,
    decreases tables.dom().len(),
{
    if tables.dom().len() > 0 {
        let k = tables.dom().choose();
        assert(tables.contains_key(k));
        let rest = tables.remove(k);
        assert forall|s: SeqId| #[trigger] rest.contains_key(s) implies rest[s].tokens
            <= rest[s].blocks.len() * block_size by {
            assert(tables.contains_key(s));
        }
        lemma_slots_add_up(rest, block_size);
        let a = tables[k].blocks.len();
        let b = paged_cache::sum_tables(rest, |t: TableView| t.blocks.len());
        assert((a + b) * block_size == a * block_size + b * block_size) by (nonlinear_arith);
    } else {
        assert(0 * block_size == 0) by (nonlinear_arith);
    }
}

/// No slot is ever lost: the slots that hold no token and the tokens stored in
/// all tables together are the slots of the blocks in use.
pub proof fn law_slots_are_conserved(c: CacheView)
    requires
        c.wf(),
    ensures
        c.fragmentation() + paged_cache::sum_tables(c.tables, |t: TableView| t.tokens) == (
        c.num_blocks - c.free.len()) * c.block_size,
{
    assert forall|s: SeqId| #[trigger] c.tables.contains_key(s) implies c.tables[s].tokens
        <= c.tables[s].blocks.len() * c.block_size by {
        assert(c.contains(s));
        paged_cache::lemma_table_bounds(c, s);
    }
    lemma_slots_add_up(c.tables, c.block_size);
    let held = |t: TableView| t.blocks.len();
    assert(held =~= paged_cache::block_count());
}

/// Fragmentation adds up table by table: a sequence contributes the slots of
/// its blocks less its tokens, and a cache without sequences wastes nothing.
pub proof fn law_fragmentation_adds_up(c: CacheView, seq: SeqId)
    requires
        c.wf(),
    ensures
        c.contains(seq) ==> c.fragmentation() + c.tables[seq].tokens == c.release(
            seq,
        ).fragmentation() + c.tables[seq].blocks.len() * c.block_size,
        c.tables == Map::<SeqId, TableView>::empty() ==> c.fragmentation() == 0,
{
    if c.contains(seq) {
        paged_cache::lemma_table_bounds(c, seq);
        paged_cache::lemma_sum_remove(
            c.tables,
            paged_cache::slack_count(c.block_size),
            seq,
        );
    }
    paged_cache::lemma_sum_empty(paged_cache::slack_count(c.block_size));
}

/// A new cache has every block free, the highest on top, and no sequence.
pub proof fn law_fresh_is_all_free(num_blocks: nat, block_size: nat)
    requires
        num_blocks <= usize::MAX,
    ensures
        ({
            let c = CacheView::fresh(num_blocks, block_size);
            &&& c.block_size == block_size
            &&& c.num_blocks == num_blocks
            &&& c.free.len() == num_blocks
            &&& forall|i: int| 0 <= i < num_blocks ==> #[trigger] c.free[i] == i
            &&& forall|s: SeqId| !c.tables.contains_key(s)
            &&& c.peak == 0
        }),
{
}

/// What is stored and unfilled for a sequence: a known one has the slots of its
/// blocks, and an unknown one has nothing.
pub proof fn law_sequence_accounting(c: CacheView, seq: SeqId)
    requires
        c.wf(),
    ensures
        c.contains(seq) <==> c.tables.contains_key(seq),
        c.tables.contains_key(seq) ==> c.tokens(seq) == c.tables[seq].tokens && c.tokens(seq)
            + c.slack(seq) == c.tables[seq].blocks.len() * c.block_size,
        !c.tables.contains_key(seq) ==> c.tokens(seq) == 0 && c.slack(seq) == 0,
        c.used() + c.free.len() == c.num_blocks,
{
    if c.contains(seq) {
        paged_cache::lemma_table_bounds(c, seq);
    }
}

/// The slots of a table are its blocks times the block size, and those that
/// hold no token are unfilled.
pub proof fn law_table_accounting(t: TableView, block_size: nat)
    ensures
        t.capacity(block_size) == t.blocks.len() * block_size,
        t.tokens <= t.blocks.len() * block_size ==> t.slack(block_size) + t.tokens
            == t.blocks.len() * block_size,
        TableView::empty().blocks.len() == 0,
        TableView::empty().tokens == 0,
{
}

/// More tokens of a known sequence can be placed exactly if its blocks and the
/// free ones have the slots.
pub proof fn law_fitting_is_a_matter_of_slots(c: CacheView, seq: SeqId, extra: nat)
    requires
        c.wf(),
    ensures
        c.fits(seq, extra) <==> c.tables.contains_key(seq) && c.tables[seq].tokens + extra <= (
        c.tables[seq].blocks.len() + c.free.len()) * c.block_size,
        !c.tables.contains_key(seq) ==> extra <= c.needed(seq, extra) * c.block_size < extra
            + c.block_size,
{
    if c.contains(seq) {
        law_needed_is_least(c, seq, extra);
        let (k, n, f, bs) = (
            c.tables[seq].blocks.len(),
            c.needed(seq, extra),
            c.free.len(),
            c.block_size,
        );
        if n <= f {
            assert((k + n) * bs <= (k + f) * bs) by (nonlinear_arith)
                requires
                    n <= f,
            ;
        } else {
            assert((k + f) * bs <= (k + n - 1) * bs) by (nonlinear_arith)
                requires
                    f <= n - 1,
            ;
        }
    } else {
        arith::lemma_ceil_div(extra, c.block_size);
        if extra == 0 {
            assert(0 * c.block_size == 0) by (nonlinear_arith);
        }
    }
}

/// Storing tokens that fit moves the fewest blocks that hold them from the top
/// of the free stack to the end of the table, one by one, and raises the peak
/// to what is then in use. Tokens that do not fit, and those of an unknown
/// sequence, change nothing.
pub proof fn law_append_takes_from_the_top(c: CacheView, seq: SeqId, extra: nat)
    requires
        c.wf(),
    ensures
        ({
            let d = c.try_append(seq, extra);
            let before = c.tables[seq];
            let after = d.tables[seq];
            let n = after.blocks.len() - before.blocks.len();
            if c.tables.contains_key(seq) && before.tokens + extra <= (before.blocks.len()
                + c.free.len()) * c.block_size {
                &&& after.tokens == before.tokens + extra
                &&& after.tokens <= after.blocks.len() * c.block_size < after.tokens
                    + c.block_size
                &&& 0 <= n <= c.free.len()
                &&& after.blocks.take(before.blocks.len() as int) == before.blocks
                &&& forall|k: int|
                    0 <= k < n ==> #[trigger] after.blocks[before.blocks.len() + k]
                        == c.free[c.free.len() - 1 - k]
                &&& d.free == c.free.take(c.free.len() - n)
                &&& d.tables == c.tables.insert(seq, after)
                &&& d.num_blocks == c.num_blocks
                &&& d.block_size == c.block_size
                &&& d.num_blocks - d.free.len() <= d.peak
                &&& c.peak <= d.peak
                &&& d.peak == c.peak || d.peak == d.num_blocks - d.free.len()
            } else {
                d == c
            }
        }),
{
    law_fitting_is_a_matter_of_slots(c, seq, extra);
    if c.fits(seq, extra) {
        let d = c.append(seq, extra);
        paged_cache::lemma_append_wf(c, seq, extra);
        assert(d.contains(seq));
        arith::lemma_ceil_div(d.tables[seq].tokens, d.block_size);
        assert(d.tables[seq].blocks.take(c.tables[seq].blocks.len() as int)
            =~= c.tables[seq].blocks);
    }
}

/// Registering adds an empty table and touches nothing else, and a sequence
/// that is known keeps its table.
pub proof fn law_register_adds_an_empty_table(c: CacheView, seq: SeqId)
    ensures
        c.tables.contains_key(seq) ==> c.register(seq) == c,
        !c.tables.contains_key(seq) ==> c.register(seq) == (CacheView {
            tables: c.tables.insert(seq, TableView { blocks: Seq::empty(), tokens: 0 }),
            ..c
        }),
{
}

/// Freeing pushes the blocks of a table on the free stack, the first first, and
/// removes the table. An unknown sequence changes nothing.
pub proof fn law_release_pushes_the_blocks(c: CacheView, seq: SeqId)
    ensures
        c.tables.contains_key(seq) ==> c.release(seq) == (CacheView {
            free: c.free + c.tables[seq].blocks,
            tables: c.tables.remove(seq),
            ..c
        }),
        !c.tables.contains_key(seq) ==> c.release(seq) == c,
{
}

/// The blocks asked for are the fewest that make room: with them the tokens
/// fit, and with one block fewer they do not.
pub proof fn law_needed_is_least(c: CacheView, seq: SeqId, extra: nat)
    requires
        c.wf(),
        c.contains(seq),
    ensures
        c.tables[seq].tokens + extra <= (c.tables[seq].blocks.len() + c.needed(seq, extra))
            * c.block_size,
        c.needed(seq, extra) > 0 ==> (c.tables[seq].blocks.len() + c.needed(seq, extra) - 1)
            * c.block_size < c.tables[seq].tokens + extra,
{
    paged_cache::lemma_needed_keeps_tight(c, seq, extra);
    let total = c.tables[seq].tokens + extra;
    let n = c.tables[seq].blocks.len() + c.needed(seq, extra);
    arith::lemma_ceil_div(total, c.block_size);
    assert((n - 1) * c.block_size == n * c.block_size - c.block_size) by (nonlinear_arith);
}

/// Tokens that fit in the final block take no new block.
pub proof fn law_growth_is_lazy(c: CacheView, seq: SeqId, extra: nat)
    requires
        c.wf(),
        c.contains(seq),
        extra <= c.slack(seq),
    ensures
        c.fits(seq, extra),
        c.append(seq, extra).free == c.free,
        c.append(seq, extra).tables[seq].blocks == c.tables[seq].blocks,
{
    assert(c.append(seq, extra).free =~= c.free);
    assert(c.top(0) =~= Seq::empty());
    assert(c.append(seq, extra).tables[seq].blocks =~= c.tables[seq].blocks);
}

/// Any free block fits any sequence: whether tokens can be placed depends on
/// how many blocks are free, never on which.
pub proof fn law_no_external_fragmentation(c: CacheView, d: CacheView, seq: SeqId, extra: nat)
    requires
        c.wf(),
        d.wf(),
        c.block_size == d.block_size,
        c.free.len() == d.free.len(),
        c.contains(seq) == d.contains(seq),
        c.tokens(seq) == d.tokens(seq),
    ensures
        c.fits(seq, extra) == d.fits(seq, extra),
{
}

/// Freeing is idempotent.
pub proof fn law_release_is_idempotent(c: CacheView, seq: SeqId)
    ensures
        c.release(seq).release(seq) == c.release(seq),
        !c.release(seq).contains(seq),
{
}

/// Freeing one sequence changes nothing for another.
pub proof fn law_release_spares_others(c: CacheView, seq: SeqId, other: SeqId)
    requires
        other != seq,
    ensures
        c.release(seq).contains(other) == c.contains(other),
        c.contains(other) ==> c.release(seq).tables[other] == c.tables[other],
{
}

/// Growing one sequence changes nothing for another.
pub proof fn law_append_spares_others(c: CacheView, seq: SeqId, other: SeqId, extra: nat)
    requires
        other != seq,
    ensures
        c.try_append(seq, extra).contains(other) == c.contains(other),
        c.contains(other) ==> c.try_append(seq, extra).tables[other] == c.tables[other],
{
}

/// Registering a new sequence and freeing it again leaves the cache as it was.
pub proof fn law_release_undoes_register(c: CacheView, seq: SeqId)
    requires
        !c.contains(seq),
    ensures
        c.register(seq).release(seq) == c,
{
    assert(c.register(seq).release(seq).tables =~= c.tables);
    assert(c.register(seq).release(seq).free =~= c.free);
}

/// A new sequence that is placed and freed again gives every block back: the
/// other tables are as they were, and the same blocks are free.
pub proof fn law_release_returns_every_block(c: CacheView, seq: SeqId, extra: nat)
    requires
        c.wf(),
        !c.contains(seq),
        c.register(seq).fits(seq, extra),
    ensures
        ({
            let d = c.register(seq).append(seq, extra).release(seq);
            &&& d.tables == c.tables
            &&& d.free.len() == c.free.len()
            &&& forall|b: BlockId| d.free.contains(b) <==> c.free.contains(b)
        }),
{
    let r = c.register(seq);
    let a = r.append(seq, extra);
    let d = a.release(seq);
    paged_cache::lemma_register_wf(c, seq);
    paged_cache::lemma_append_wf(r, seq, extra);
    paged_cache::lemma_release_wf(a, seq);
    assert(d.tables =~= c.tables);
    assert forall|b: BlockId| d.free.contains(b) <==> c.free.contains(b) by {
        if d.free.contains(b) && !c.free.contains(b) {
            let s = choose|s: SeqId| c.holds(s, b);
            assert(d.holds(s, b));
        }
        if c.free.contains(b) && !d.free.contains(b) {
            let s = choose|s: SeqId| d.holds(s, b);
            assert(c.holds(s, b));
        }
    }
}

/// The words of an error name the quantities it carries: a shortage says how
/// many blocks were needed and how many are free, and an unknown sequence is
/// named by its id.
pub proof fn law_errors_name_their_quantities(needed: usize, free: usize, seq: SeqId)
    ensures
        (CacheError::OutOfBlocks { needed, free }).text() == "out of KV blocks: needed "@
            + arith::decimal_text(needed as nat) + ", "@ + arith::decimal_text(free as nat)
            + " free"@,
        CacheError::UnknownSequence(seq).text() == "unknown sequence "@ + arith::decimal_text(
            seq as nat,
        ),
        arith::number_in(arith::decimal_text(needed as nat)) == needed,
        arith::number_in(arith::decimal_text(free as nat)) == free,
        arith::number_in(arith::decimal_text(seq as nat)) == seq,
{
    arith::law_decimal_text_reads_back(needed as nat);
    arith::law_decimal_text_reads_back(free as nat);
    arith::law_decimal_text_reads_back(seq as nat);
}

/// The recorded peak is at least the current use, never falls, and never
/// exceeds the size of the cache.
pub proof fn law_peak_is_a_high_water_mark(c: CacheView, seq: SeqId, extra: nat)
    requires
        c.wf(),
    ensures
        c.used() <= c.peak <= c.num_blocks,
        c.register(seq).peak == c.peak,
        c.release(seq).peak == c.peak,
        c.try_append(seq, extra).peak >= c.peak,
        c.try_append(seq, extra).peak == c.peak || c.try_append(seq, extra).peak == c.try_append(
            seq,
            extra,
        ).used(),
{
}

/// One request to the allocator.
pub enum CacheOp {
    Register(SeqId),
    Append(SeqId, nat),
    Release(SeqId),
}

/// The cache after one request.
pub open spec fn perform(c: CacheView, op: CacheOp) -> CacheView {
    match op {
        CacheOp::Register(s) => c.register(s),
        CacheOp::Append(s, n) => c.try_append(s, n),
        CacheOp::Release(s) => c.release(s),
    }
}

/// The cache after a workload.
pub open spec fn perform_all(c: CacheView, ops: Seq<CacheOp>) -> CacheView
    decreases ops.len(),
{
    if ops.len() == 0 {
        c
    } else {
        perform(perform_all(c, ops.drop_last()), ops.last())
    }
}

/// Two caches that store the same tokens in equally many blocks.
pub open spec fn same_load(c: CacheView, d: CacheView) -> bool {
    &&& c.block_size == d.block_size
    &&& c.used() == d.used()
    &&& c.peak == d.peak
    &&& forall|s: SeqId| #[trigger] c.contains(s) <==> d.contains(s)
    &&& forall|s: SeqId| #[trigger]
        c.contains(s) ==> c.tables[s].tokens == d.tables[s].tokens && c.tables[s].blocks.len()
            == d.tables[s].blocks.len()
}

pub proof fn lemma_perform_wf(c: CacheView, op: CacheOp)
    requires
        c.wf(),
    ensures
        perform(c, op).wf(),
        perform(c, op).num_blocks == c.num_blocks,
        perform(c, op).block_size == c.block_size,
        perform(c, op).peak >= c.peak,
{
    match op {
        CacheOp::Register(s) => paged_cache::lemma_register_wf(c, s),
        CacheOp::Append(s, n) => {
            if c.fits(s, n) {
                paged_cache::lemma_append_wf(c, s, n);
            }
        },
        CacheOp::Release(s) => paged_cache::lemma_release_wf(c, s),
    }
}

proof fn lemma_perform_all_wf(c: CacheView, ops: Seq<CacheOp>)
    requires
        c.wf(),
    ensures
        perform_all(c, ops).wf(),
        perform_all(c, ops).num_blocks == c.num_blocks,
        perform_all(c, ops).block_size == c.block_size,
    decreases ops.len(),
{
    if ops.len() > 0 {
        lemma_perform_all_wf(c, ops.drop_last());
        lemma_perform_wf(perform_all(c, ops.drop_last()), ops.last());
    }
}

pub proof fn lemma_same_load_step(c: CacheView, d: CacheView, op: CacheOp)
    requires
        c.wf(),
        d.wf(),
        same_load(c, d),
        d.num_blocks <= c.num_blocks,
        perform(c, op).peak <= d.num_blocks,
    ensures
        same_load(perform(c, op), perform(d, op)),
        op matches CacheOp::Append(s, n) ==> c.fits(s, n) == d.fits(s, n),
{
    lemma_perform_wf(c, op);
    let c2 = perform(c, op);
    let d2 = perform(d, op);
    let s = match op {
        CacheOp::Register(s) => s,
        CacheOp::Append(s, _) => s,
        CacheOp::Release(s) => s,
    };
    assert(c.contains(s) <==> d.contains(s));
    if c.contains(s) {
        paged_cache::lemma_table_bounds(c, s);
        paged_cache::lemma_table_bounds(d, s);
        assert(c.slack(s) == d.slack(s));
        assert(forall|n: nat| #[trigger] c.needed(s, n) == d.needed(s, n));
    }
    assert forall|o: SeqId| #[trigger] c2.contains(o) <==> d2.contains(o) by {
        assert(c.contains(o) <==> d.contains(o));
    }
    assert forall|o: SeqId| #[trigger] c2.contains(o) implies c2.tables[o].tokens
        == d2.tables[o].tokens && c2.tables[o].blocks.len() == d2.tables[o].blocks.len() by {
        assert(c.contains(o) <==> d.contains(o));
    }
}

/// The peak of a run is the capacity it needed: in a cache of exactly that many
/// blocks the same requests succeed and fail, and the same tokens are stored in
/// equally many blocks throughout.
pub proof fn law_peak_capacity_suffices(
    num_blocks: nat,
    block_size: nat,
    ops: Seq<CacheOp>,
    peak: nat,
)
    requires
        0 < block_size,
        num_blocks * block_size <= usize::MAX,
        perform_all(CacheView::fresh(num_blocks, block_size), ops).peak <= peak <= num_blocks,
    ensures
        same_load(
            perform_all(CacheView::fresh(num_blocks, block_size), ops),
            perform_all(CacheView::fresh(peak, block_size), ops),
        ),
        forall|i: int|
            0 <= i < ops.len() ==> (#[trigger] ops[i] matches CacheOp::Append(s, n) ==> perform_all(
                CacheView::fresh(num_blocks, block_size),
                ops.take(i),
            ).fits(s, n) == perform_all(CacheView::fresh(peak, block_size), ops.take(i)).fits(
                s,
                n,
            )),
    decreases ops.len(),
{
    let big = CacheView::fresh(num_blocks, block_size);
    let small = CacheView::fresh(peak, block_size);
    assert(peak * block_size <= num_blocks * block_size) by (nonlinear_arith)
        requires
            peak <= num_blocks,
    ;
    paged_cache::lemma_fresh_wf(num_blocks, block_size);
    paged_cache::lemma_fresh_wf(peak, block_size);
    if ops.len() > 0 {
        let front = ops.drop_last();
        lemma_perform_all_wf(big, front);
        lemma_perform_all_wf(small, front);
        lemma_perform_wf(perform_all(big, front), ops.last());
        law_peak_capacity_suffices(num_blocks, block_size, front, peak);
        lemma_same_load_step(perform_all(big, front), perform_all(small, front), ops.last());
        assert forall|i: int| 0 <= i < ops.len() implies (#[trigger] ops[i] matches CacheOp::Append(
            s,
            n,
        ) ==> perform_all(big, ops.take(i)).fits(s, n) == perform_all(small, ops.take(i)).fits(
            s,
            n,
        )) by {
            if i < front.len() {
                assert(front[i] == ops[i]);
                assert(front.take(i) =~= ops.take(i));
            } else {
                assert(ops.take(i) =~= front);
            }
        }
    }
}

/// The peak was in use at once.
pub proof fn law_peak_was_reached(num_blocks: nat, block_size: nat, ops: Seq<CacheOp>)
    requires
        0 < block_size,
        num_blocks * block_size <= usize::MAX,
    ensures
        exists|i: int|
            0 <= i <= ops.len() && #[trigger] perform_all(
                CacheView::fresh(num_blocks, block_size),
                ops.take(i),
            ).used() == perform_all(CacheView::fresh(num_blocks, block_size), ops).peak,
    decreases ops.len(),
{
    let c = CacheView::fresh(num_blocks, block_size);
    let after = perform_all(c, ops);
    paged_cache::lemma_fresh_wf(num_blocks, block_size);
    if ops.len() == 0 {
        assert(ops.take(0) =~= ops);
        assert(perform_all(c, ops.take(0)).used() == after.peak);
    } else {
        let front = ops.drop_last();
        law_peak_was_reached(num_blocks, block_size, front);
        let before = perform_all(c, front);
        if after.peak == before.peak {
            let i = choose|i: int|
                0 <= i <= front.len() && #[trigger] perform_all(c, front.take(i)).used()
                    == before.peak;
            assert(front.take(i) =~= ops.take(i));
            assert(perform_all(c, ops.take(i)).used() == after.peak);
        } else {
            assert(ops.take(ops.len() as int) =~= ops);
            assert(perform_all(c, ops.take(ops.len() as int)).used() == after.peak);
        }
    }
}

/// Whether a workload asks a cache of `small` blocks, at its request `i`, for
/// room that this cache lacks and one of `large` blocks has: an append to a
/// sequence known to both, which fits only the larger one.
pub open spec fn is_refused_at(
    small: nat,
    large: nat,
    block_size: nat,
    ops: Seq<CacheOp>,
    i: int,
) -> bool {
    let c = perform_all(CacheView::fresh(large, block_size), ops.take(i));
    let d = perform_all(CacheView::fresh(small, block_size), ops.take(i));
    match ops[i] {
        CacheOp::Append(s, n) => c.fits(s, n) && d.contains(s) && !d.fits(s, n),
        _ => false,
    }
}

/// The peak of a run is the least capacity that serves it: in every smaller
/// cache some append to a known sequence, which went through in the run, is
/// refused for want of blocks.
pub proof fn law_peak_is_the_least_capacity(
    num_blocks: nat,
    block_size: nat,
    ops: Seq<CacheOp>,
    fewer: nat,
)
    requires
        0 < block_size,
        num_blocks * block_size <= usize::MAX,
        fewer < perform_all(CacheView::fresh(num_blocks, block_size), ops).peak,
    ensures
        exists|i: int|
            0 <= i < ops.len() && #[trigger] is_refused_at(
                fewer,
                num_blocks,
                block_size,
                ops,
                i,
            ),
    decreases ops.len(),
{
    let big = CacheView::fresh(num_blocks, block_size);
    let small = CacheView::fresh(fewer, block_size);
    paged_cache::lemma_fresh_wf(num_blocks, block_size);
    lemma_perform_all_wf(big, ops);
    assert(fewer * block_size <= num_blocks * block_size) by (nonlinear_arith)
        requires
            fewer <= num_blocks,
    ;
    paged_cache::lemma_fresh_wf(fewer, block_size);
    if ops.len() > 0 {
        let front = ops.drop_last();
        let n = front.len() as int;
        let c = perform_all(big, front);
        let d = perform_all(small, front);
        lemma_perform_all_wf(big, front);
        lemma_perform_all_wf(small, front);
        if fewer < c.peak {
            law_peak_is_the_least_capacity(num_blocks, block_size, front, fewer);
            let i = choose|i: int|
                0 <= i < front.len() && #[trigger] is_refused_at(
                    fewer,
                    num_blocks,
                    block_size,
                    front,
                    i,
                );
            assert(front.take(i) =~= ops.take(i));
            assert(front[i] == ops[i]);
            assert(is_refused_at(fewer, num_blocks, block_size, ops, i));
        } else {
            // The last request raised the peak above the smaller cache.
            law_peak_capacity_suffices(num_blocks, block_size, front, fewer);
            assert(ops.take(n) =~= front);
            match ops.last() {
                CacheOp::Append(s, extra) => {
                    assert(c.fits(s, extra));
                    assert(c.contains(s) <==> d.contains(s));
                    paged_cache::lemma_table_bounds(c, s);
                    paged_cache::lemma_table_bounds(d, s);
                    assert(c.slack(s) == d.slack(s));
                    assert(c.needed(s, extra) == d.needed(s, extra));
                },
                _ => {},
            }
            assert(is_refused_at(fewer, num_blocks, block_size, ops, n));
        }
    }
}

} // verus!
