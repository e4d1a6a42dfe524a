//! The block map of a sweep: at most 1024 blocks, each standing for an
//! equal run of addresses and lit when most of them answered.

use vstd::prelude::*;
use crate::ipmap::scanner::PingResult;

verus! {

pub const COLS: usize = 32;
pub const MAX_BLOCKS: usize = 1024;

/// Number of answering addresses.
pub open spec fn count_alive(r: Seq<bool>) -> nat
    decreases r.len(),
{
    if r.len() == 0 { 0 } else { count_alive(r.drop_last()) + if r.last() { 1nat } else { 0nat } }
}

/// How many addresses one block stands for: enough that at most 1024
/// blocks are drawn, and at least one.
pub open spec fn block_scale(total: nat) -> nat {
    let s = (total + 1023) / 1024;
    if s == 0 { 1 } else { s }
}

/// The blocks from address `start`: each covers `scale` addresses (the
/// last one what is left) and is lit when at least half of them answered.
pub open spec fn blocks_from(r: Seq<bool>, start: int, scale: nat) -> Seq<bool>
    decreases r.len() - start,
{
    if scale == 0 || start < 0 || start >= r.len() {
        Seq::empty()
    } else {
        let end = if start + scale < r.len() { start + scale } else { r.len() as int };
        seq![2 * count_alive(r.subrange(start, end)) >= end - start] + blocks_from(r, end, scale)
    }
}

/// The number of answering addresses is the number of set flags.
proof fn lemma_count_alive_filter(r: Seq<bool>)
    ensures
        count_alive(r) == r.filter(|x: bool| x).len(),
    decreases r.len(),
{
    reveal(Seq::filter);
    if r.len() > 0 {
        lemma_count_alive_filter(r.drop_last());
    }
}

proof fn lemma_blocks_at(r: Seq<bool>, start: int, scale: nat, k: int)
    requires
        scale >= 1,
        0 <= start,
        0 <= k,
    ensures
        k < blocks_from(r, start, scale).len() <==> start + k * scale < r.len(),
        start + k * scale < r.len() ==> {
            let b = start + k * scale;
            let e = if b + scale < r.len() { b + scale } else { r.len() as int };
            blocks_from(r, start, scale)[k] == (2 * r.subrange(b, e).filter(|x: bool| x).len() >= e - b)
        },
    decreases k,
{
    assert(k * scale >= 0) by (nonlinear_arith)
        requires 0 <= k, scale >= 1;
    if start < r.len() {
        let end = if start + scale < r.len() { start + scale } else { r.len() as int };
        assert(blocks_from(r, start, scale) == seq![2 * count_alive(r.subrange(start, end)) >= end - start]
            + blocks_from(r, end, scale));
        if k == 0 {
            assert(k * scale == 0) by (nonlinear_arith)
                requires k == 0;
            lemma_count_alive_filter(r.subrange(start, end));
        } else {
            assert(k * scale >= scale) by (nonlinear_arith)
                requires k >= 1, scale >= 1;
            assert(end + (k - 1) * scale == start + k * scale || end == r.len()) by (nonlinear_arith)
                requires end == start + scale || end == r.len();
            lemma_blocks_at(r, end, scale, k - 1);
            let bs = blocks_from(r, start, scale);
            let tl = blocks_from(r, end, scale);
            assert(bs.len() == tl.len() + 1);
            if end == r.len() {
                assert(tl.len() == 0);
                assert(start + k * scale >= r.len());
            } else {
                assert(end + (k - 1) * scale == start + k * scale);
                if k < bs.len() {
                    assert(bs[k] == tl[k - 1]);
                }
            }
        }
    } else {
        assert(blocks_from(r, start, scale).len() == 0);
    }
}

/// Block `k` of the map over `r` (blocks of `scale` addresses, the last
/// one what is left) exists exactly when its first address does, and is
/// lit exactly when at least half of its addresses answered.
pub proof fn lemma_block_lit(r: Seq<bool>, scale: nat, k: int)
    requires
        scale >= 1,
        0 <= k,
    ensures
        k < blocks_from(r, 0, scale).len() <==> k * scale < r.len(),
        k * scale < r.len() ==> {
            let b = k * scale;
            let e = if b + scale < r.len() { b + scale } else { r.len() as int };
            blocks_from(r, 0, scale)[k] == (2 * r.subrange(b, e).filter(|x: bool| x).len() >= e - b)
        },
{
    lemma_blocks_at(r, 0, scale, k);
}

/// The answer flags of the results.
pub open spec fn alive_flags(results: Seq<PingResult>) -> Seq<bool> {
    results.map_values(|p: PingResult| p.alive)
}

/// Counts the answering addresses of `results[lo..hi]`.
fn count_range(results: &[PingResult], lo: usize, hi: usize) -> (c: usize)
    requires
        lo <= hi <= results@.len(),
    ensures
        c == count_alive(alive_flags(results@).subrange(lo as int, hi as int)),
        c <= hi - lo,
{
    let ghost f = alive_flags(results@);
    let mut c: usize = 0;
    let mut k = lo;
    while k < hi
        invariant
            lo <= k <= hi <= results@.len(),
            f == alive_flags(results@),
            c == count_alive(f.subrange(lo as int, k as int)),
            c <= k - lo,
        decreases hi - k,
    {
        assert(f.subrange(lo as int, k + 1).drop_last() =~= f.subrange(lo as int, k as int));
        if results[k].alive {
            c = c + 1;
        }
        k = k + 1;
    }
    c
}

/// Number of answering addresses.
pub fn active_count(results: &[PingResult]) -> (c: usize)
    ensures
        c == count_alive(alive_flags(results@)),
{
    let n = results.len();
    let c = count_range(results, 0, n);
    assert(alive_flags(results@).subrange(0, n as int) =~= alive_flags(results@));
    c
}

/// The lit/unlit blocks of the map, in address order.
pub fn block_map(results: &[PingResult]) -> (blocks: Vec<bool>)
    ensures
        blocks@ == blocks_from(alive_flags(results@), 0, block_scale(results@.len() as nat)),
{
    let total = results.len();
    let s0 = total / MAX_BLOCKS + if total % MAX_BLOCKS == 0 { 0 } else { 1 };
    let scale: usize = if s0 == 0 { 1 } else { s0 };
    let ghost f = alive_flags(results@);
    assert(scale as nat == block_scale(total as nat));
    let mut out: Vec<bool> = Vec::new();
    let mut start: usize = 0;
    while start < total
        invariant
            start <= total,
            total == results@.len(),
            f == alive_flags(results@),
            f.len() == total,
            scale >= 1,
            scale as nat == block_scale(total as nat),
            out@ + blocks_from(f, start as int, scale as nat) == blocks_from(f, 0, scale as nat),
        decreases total - start,
    {
        let end = if total - start > scale { start + scale } else { total };
        let c = count_range(results, start, end);
        let lit = c * 2 >= end - start;
        let ghost before = out@;
        out.push(lit);
        assert(out@ + blocks_from(f, end as int, scale as nat) =~= before + blocks_from(f, start as int, scale as nat));
        start = end;
    }
    assert(out@ =~= blocks_from(f, 0, scale as nat));
    out
}

} // verus!
